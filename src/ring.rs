//! The bounded record of retired job ids, kept in a `ringbuffer` crate
//! `AllocRingBuffer`.
use vstd::prelude::*;
use ringbuffer::{AllocRingBuffer, RingBuffer};

verus! {

/// The `ringbuffer` crate's heap-allocated ring, opaque to proofs: what it
/// holds is known through `ring_contents` and `ring_capacity`.
#[verifier::external_type_specification]
#[verifier::external_body]
#[verifier::reject_recursive_types(T)]
pub struct ExAllocRingBuffer<T>(AllocRingBuffer<T>);

/// The ids held by a ring, oldest first.
pub uninterp spec fn ring_contents(r: AllocRingBuffer<u64>) -> Seq<u64>;

/// The capacity a ring was made with.
pub uninterp spec fn ring_capacity(r: AllocRingBuffer<u64>) -> nat;

/// Relies on `AllocRingBuffer::new`: an empty ring of the given capacity;
/// it panics on a capacity of zero.
#[verifier::external_body]
pub(crate) fn ring_new(capacity: usize) -> (r: AllocRingBuffer<u64>)
    requires
        capacity > 0,
    ensures
        ring_contents(r) == Seq::<u64>::empty(),
        ring_capacity(r) == capacity,
{
    AllocRingBuffer::new(capacity)
}

/// Relies on `RingBuffer::enqueue`: the value goes to the back; on a full
/// ring the oldest value leaves first.
#[verifier::external_body]
pub(crate) fn ring_push(r: &mut AllocRingBuffer<u64>, v: u64)
    ensures
        ring_capacity(*final(r)) == ring_capacity(*old(r)),
        ring_contents(*old(r)).len() <= ring_capacity(*old(r)) ==> ring_contents(*final(r)).len()
            <= ring_capacity(*final(r)),
        ring_contents(*final(r)) == (if ring_contents(*old(r)).len() >= ring_capacity(*old(r)) {
            ring_contents(*old(r)).drop_first().push(v)
        } else {
            ring_contents(*old(r)).push(v)
        }),
{
    let _ = r.enqueue(v);
}

/// Relies on `RingBuffer::contains`: whether the value is held.
#[verifier::external_body]
pub(crate) fn ring_contains(r: &AllocRingBuffer<u64>, v: u64) -> (b: bool)
    ensures
        b == ring_contents(*r).contains(v),
{
    r.contains(&v)
}

/// Relies on `RingBuffer::to_vec`: the held values, oldest first.
#[verifier::external_body]
pub(crate) fn ring_to_vec(r: &AllocRingBuffer<u64>) -> (v: Vec<u64>)
    ensures
        v@ == ring_contents(*r),
{
    r.to_vec()
}

} // verus!
