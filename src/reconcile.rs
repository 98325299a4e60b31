//! Initial reconciliation: comparing the three clients' region metadata at
//! activation, choosing a source for each extent that differs, and driving
//! the serial list of repair messages that makes the replicas agree.
use vstd::prelude::*;
use crate::downstairs::Downstairs;
use crate::types::{ClientId, CrucibleError, DsState, IOState, Address};

verus! {

/// Per-extent metadata of one client's region.
#[derive(Clone, Debug)]
pub struct RegionMetadata {
    pub generation: Vec<u64>,
    pub flush_numbers: Vec<u64>,
    pub dirty: Vec<bool>,
}

/// One step of reconciliation, sent to every client.
#[derive(Clone, Debug)]
pub enum ReconcileOp {
    ExtentFlush { extent: u64, client_id: ClientId, flush_number: u64, gen_number: u64 },
    ExtentClose { extent: u64 },
    ExtentRepair {
        extent: u64,
        source_client_id: ClientId,
        source_repair_address: Address,
        dest_clients: Vec<ClientId>,
    },
    ExtentReopen { extent: u64 },
}

/// A reconciliation step with its id and per-client progress.
#[derive(Clone, Debug)]
pub struct ReconcileIO {
    pub id: u64,
    pub op: ReconcileOp,
    pub state: Vec<IOState>,
}

/// An extent to fix: its source client and the clients to rebuild.
#[derive(Clone, Debug)]
pub struct ExtentFix {
    pub extent: u64,
    pub source: ClientId,
    pub dest: Vec<ClientId>,
}

/// Largest value of a non-empty sequence.
pub open spec fn seq_max(s: Seq<u64>) -> u64
    decreases s.len(),
{
    if s.len() <= 1 {
        if s.len() == 1 { s[0] } else { 0 }
    } else {
        let m = seq_max(s.drop_last());
        if s.last() > m { s.last() } else { m }
    }
}

fn vec_max(v: &Vec<u64>) -> (r: u64)
    requires
        v@.len() > 0,
    ensures
        r == seq_max(v@),
{
    let mut m = v[0];
    let mut i: usize = 1;
    proof {
        assert(v@.subrange(0, 1) == seq![v@[0]]);
    }
    while i < v.len()
        invariant
            1 <= i <= v@.len(),
            m == seq_max(v@.subrange(0, i as int)),
        decreases v@.len() - i,
    {
        assert(v@.subrange(0, i + 1).drop_last() == v@.subrange(0, i as int));
        if v[i] > m {
            m = v[i];
        }
        i = i + 1;
    }
    assert(v@.subrange(0, v@.len() as int) == v@);
    m
}

/// The three clients' metadata all cover `n` extents, with room to add one
/// to every flush and generation number.
pub open spec fn metadata_ok(ms: Seq<RegionMetadata>, n: int) -> bool {
    &&& ms.len() == 3
    &&& n > 0
    &&& forall|c: int| 0 <= c < 3 ==> {
        &&& (#[trigger] ms[c]).generation@.len() == n
        &&& ms[c].flush_numbers@.len() == n
        &&& ms[c].dirty@.len() == n
        &&& seq_max(ms[c].generation@) < u64::MAX
        &&& seq_max(ms[c].flush_numbers@) < u64::MAX
    }
}

/// One more than the highest flush number of any client.
pub open spec fn max_flush_spec(ms: Seq<RegionMetadata>) -> int {
    vstd::math::max(vstd::math::max(seq_max(ms[0].flush_numbers@) as int, seq_max(ms[1].flush_numbers@) as int), seq_max(ms[2].flush_numbers@) as int) + 1
}

/// One more than the highest generation of any client.
pub open spec fn max_gen_spec(ms: Seq<RegionMetadata>) -> int {
    vstd::math::max(vstd::math::max(seq_max(ms[0].generation@) as int, seq_max(ms[1].generation@) as int), seq_max(ms[2].generation@) as int) + 1
}

/// The next flush number and the generation floor of a region set, or
/// `GenerationNumberTooLow` when the requested generation does not exceed
/// that floor (one more than the highest generation found).
pub fn collate_numbers(ms: &Vec<RegionMetadata>, n: usize, gen: u64) -> (r: Result<(u64, u64), CrucibleError>)
    requires
        metadata_ok(ms@, n as int),
    ensures
        gen <= max_gen_spec(ms@) ==> r == Err::<(u64, u64), CrucibleError>(
            CrucibleError::GenerationNumberTooLow { found: max_gen_spec(ms@) as u64, requested: gen },
        ),
        gen > max_gen_spec(ms@) ==> r == Ok::<(u64, u64), CrucibleError>(
            (max_flush_spec(ms@) as u64, max_gen_spec(ms@) as u64),
        ),
{
    let mut max_flush: u64 = 0;
    let mut max_gen: u64 = 0;
    let mut c: usize = 0;
    while c < 3
        invariant
            metadata_ok(ms@, n as int),
            c <= 3,
            max_flush == (if c == 0 { 0 } else if c == 1 { seq_max(ms@[0].flush_numbers@) + 1 } else if c == 2 {
                vstd::math::max(seq_max(ms@[0].flush_numbers@) as int, seq_max(ms@[1].flush_numbers@) as int) + 1
            } else {
                max_flush_spec(ms@)
            }),
            max_gen == (if c == 0 { 0 } else if c == 1 { seq_max(ms@[0].generation@) + 1 } else if c == 2 {
                vstd::math::max(seq_max(ms@[0].generation@) as int, seq_max(ms@[1].generation@) as int) + 1
            } else {
                max_gen_spec(ms@)
            }),
        decreases 3 - c,
    {
        let mf = vec_max(&ms[c].flush_numbers) + 1;
        if mf > max_flush {
            max_flush = mf;
        }
        let mg = vec_max(&ms[c].generation) + 1;
        if mg > max_gen {
            max_gen = mg;
        }
        c = c + 1;
    }
    if gen <= max_gen {
        return Err(CrucibleError::GenerationNumberTooLow { found: max_gen, requested: gen });
    }
    Ok((max_flush, max_gen))
}

/// The metadata of client `c` for extent `e`.
pub open spec fn triple(ms: Seq<RegionMetadata>, c: int, e: int) -> (u64, u64, bool) {
    (ms[c].generation@[e], ms[c].flush_numbers@[e], ms[c].dirty@[e])
}

/// Whether client `a` holds a strictly newer copy of extent `e` than
/// client `b`: a higher generation, or the same one and a higher flush.
pub open spec fn newer(ms: Seq<RegionMetadata>, a: int, b: int, e: int) -> bool {
    ms[a].generation@[e] > ms[b].generation@[e] || (ms[a].generation@[e] == ms[b].generation@[e]
        && ms[a].flush_numbers@[e] > ms[b].flush_numbers@[e])
}

/// The source for extent `e`: the lowest-numbered client whose copy no
/// other client's is newer than.
pub open spec fn source_spec(ms: Seq<RegionMetadata>, e: int) -> int {
    let b01 = if newer(ms, 1, 0, e) { 1int } else { 0int };
    if newer(ms, 2, b01, e) { 2 } else { b01 }
}

/// Whether client `c` must be rebuilt from `src` for extent `e`: its
/// metadata differs, or either copy is dirty.
pub open spec fn is_dest(ms: Seq<RegionMetadata>, src: int, c: int, e: int) -> bool {
    c != src && (triple(ms, c, e) != triple(ms, src, e) || ms[c].dirty@[e] || ms[src].dirty@[e])
}

/// The clients to rebuild for extent `e`, in client order.
pub open spec fn dests_spec(ms: Seq<RegionMetadata>, e: int) -> Seq<ClientId> {
    let s = source_spec(ms, e);
    let d0 = if is_dest(ms, s, 0, e) { seq![0usize] } else { Seq::<ClientId>::empty() };
    let d1 = if is_dest(ms, s, 1, e) { d0.push(1usize) } else { d0 };
    if is_dest(ms, s, 2, e) { d1.push(2usize) } else { d1 }
}

/// The fixes for the first `n` extents, in extent order: one for each
/// extent with a client to rebuild.
pub open spec fn mend_spec(ms: Seq<RegionMetadata>, n: int) -> Seq<(u64, int, Seq<ClientId>)>
    decreases n,
{
    if n <= 0 {
        Seq::empty()
    } else {
        let rest = mend_spec(ms, n - 1);
        let e = n - 1;
        if dests_spec(ms, e).len() > 0 {
            rest.push((e as u64, source_spec(ms, e), dests_spec(ms, e)))
        } else {
            rest
        }
    }
}

fn newer_exec(ms: &Vec<RegionMetadata>, a: usize, b: usize, e: usize) -> (r: bool)
    requires
        ms@.len() == 3,
        a < 3,
        b < 3,
        e < ms@[a as int].generation@.len(),
        e < ms@[b as int].generation@.len(),
        e < ms@[a as int].flush_numbers@.len(),
        e < ms@[b as int].flush_numbers@.len(),
    ensures
        r == newer(ms@, a as int, b as int, e as int),
{
    ms[a].generation[e] > ms[b].generation[e] || (ms[a].generation[e] == ms[b].generation[e]
        && ms[a].flush_numbers[e] > ms[b].flush_numbers[e])
}

fn is_dest_exec(ms: &Vec<RegionMetadata>, src: usize, c: usize, e: usize) -> (r: bool)
    requires
        metadata_ok(ms@, ms@[0].generation@.len() as int),
        src < 3,
        c < 3,
        e < ms@[0].generation@.len(),
    ensures
        r == is_dest(ms@, src as int, c as int, e as int),
{
    c != src && (ms[c].generation[e] != ms[src].generation[e] || ms[c].flush_numbers[e]
        != ms[src].flush_numbers[e] || ms[c].dirty[e] != ms[src].dirty[e] || ms[c].dirty[e]
        || ms[src].dirty[e])
}

/// The extents to fix at activation (see `mend_spec`).
pub fn mismatch_list(ms: &Vec<RegionMetadata>, n: usize) -> (r: Vec<ExtentFix>)
    requires
        metadata_ok(ms@, n as int),
    ensures
        r@.len() == mend_spec(ms@, n as int).len(),
        forall|k: int| 0 <= k < r@.len() ==> {
            let f = #[trigger] mend_spec(ms@, n as int)[k];
            &&& r@[k].extent == f.0
            &&& r@[k].source == f.1
            &&& r@[k].dest@ == f.2
        },
{
    let mut r: Vec<ExtentFix> = Vec::new();
    let mut e: usize = 0;
    while e < n
        invariant
            metadata_ok(ms@, n as int),
            e <= n,
            r@.len() == mend_spec(ms@, e as int).len(),
            forall|k: int| 0 <= k < r@.len() ==> {
                let f = #[trigger] mend_spec(ms@, e as int)[k];
                &&& r@[k].extent == f.0
                &&& r@[k].source == f.1
                &&& r@[k].dest@ == f.2
            },
        decreases n - e,
    {
        let b01: usize = if newer_exec(ms, 1, 0, e) { 1 } else { 0 };
        let src: usize = if newer_exec(ms, 2, b01, e) { 2 } else { b01 };
        let mut dest: Vec<ClientId> = Vec::new();
        if is_dest_exec(ms, src, 0, e) {
            dest.push(0);
        }
        if is_dest_exec(ms, src, 1, e) {
            dest.push(1);
        }
        if is_dest_exec(ms, src, 2, e) {
            dest.push(2);
        }
        proof {
            assert(dest@ == dests_spec(ms@, e as int));
        }
        let ghost before = r@;
        if dest.len() > 0 {
            r.push(ExtentFix { extent: e as u64, source: src, dest });
        }
        proof {
            assert forall|k: int| 0 <= k < r@.len() implies {
                let f = #[trigger] mend_spec(ms@, e + 1)[k];
                &&& r@[k].extent == f.0
                &&& r@[k].source == f.1
                &&& r@[k].dest@ == f.2
            } by {
                if k < before.len() {
                    assert(r@[k] == before[k]);
                    assert(mend_spec(ms@, e + 1)[k] == mend_spec(ms@, e as int)[k]);
                }
            }
        }
        e = e + 1;
    }
    r
}

/// The reconciliation steps for one fix, with ids from `id`: flush the
/// source, close the extent everywhere, repair the destinations from the
/// source, reopen the extent.
pub open spec fn fix_steps_ok(
    t: Seq<ReconcileIO>,
    at: int,
    id: int,
    f: ExtentFix,
    addr: Address,
    max_flush: u64,
    max_gen: u64,
) -> bool {
    &&& t[at].id == id
    &&& t[at + 1].id == id + 1
    &&& t[at + 2].id == id + 2
    &&& t[at + 3].id == id + 3
    &&& t[at].op matches ReconcileOp::ExtentFlush { extent, client_id, flush_number, gen_number }
        && extent == f.extent && client_id == f.source && flush_number == max_flush && gen_number == max_gen
    &&& t[at + 1].op matches ReconcileOp::ExtentClose { extent } && extent == f.extent
    &&& t[at + 2].op matches ReconcileOp::ExtentRepair { extent, source_client_id, source_repair_address, dest_clients }
        && extent == f.extent && source_client_id == f.source && source_repair_address == addr
        && dest_clients@ == f.dest@
    &&& t[at + 3].op matches ReconcileOp::ExtentReopen { extent } && extent == f.extent
    &&& forall|q: int| at <= q < at + 4 ==> (#[trigger] t[q]).state@ == seq![IOState::New, IOState::New, IOState::New]
}

/// `fix_steps_ok` for a fix given as extent, source and destinations.
pub open spec fn fix_steps_spec(
    t: Seq<ReconcileIO>,
    at: int,
    f: (u64, int, Seq<ClientId>),
    addr: Address,
    max_flush: u64,
    max_gen: u64,
) -> bool {
    &&& t[at].id == at
    &&& t[at + 1].id == at + 1
    &&& t[at + 2].id == at + 2
    &&& t[at + 3].id == at + 3
    &&& t[at].op matches ReconcileOp::ExtentFlush { extent, client_id, flush_number, gen_number }
        && extent == f.0 && client_id == f.1 && flush_number == max_flush && gen_number == max_gen
    &&& t[at + 1].op matches ReconcileOp::ExtentClose { extent } && extent == f.0
    &&& t[at + 2].op matches ReconcileOp::ExtentRepair { extent, source_client_id, source_repair_address, dest_clients }
        && extent == f.0 && source_client_id == f.1 && source_repair_address == addr
        && dest_clients@ == f.2
    &&& t[at + 3].op matches ReconcileOp::ExtentReopen { extent } && extent == f.0
}

fn new_step(id: u64, op: ReconcileOp) -> (r: ReconcileIO)
    ensures
        r.id == id,
        r.op == op,
        r.state@ == seq![IOState::New, IOState::New, IOState::New],
{
    ReconcileIO { id, op, state: vec![IOState::New, IOState::New, IOState::New] }
}

/// Expands the fixes into reconciliation steps, four per fix, with ids
/// counting from 0.
pub fn convert_rc_to_messages(
    fixes: &Vec<ExtentFix>,
    addrs: &Vec<Address>,
    max_flush: u64,
    max_gen: u64,
) -> (r: Vec<ReconcileIO>)
    requires
        4 * fixes@.len() < u64::MAX,
        addrs@.len() == 3,
        forall|k: int| 0 <= k < fixes@.len() ==> (#[trigger] fixes@[k]).source < 3,
    ensures
        r@.len() == 4 * fixes@.len(),
        forall|k: int| 0 <= k < fixes@.len() ==> fix_steps_ok(
            r@,
            4 * k,
            4 * k,
            #[trigger] fixes@[k],
            addrs@[fixes@[k].source as int],
            max_flush,
            max_gen,
        ),
{
    let mut r: Vec<ReconcileIO> = Vec::new();
    let mut k: usize = 0;
    let mut id: u64 = 0;
    while k < fixes.len()
        invariant
            4 * fixes@.len() < u64::MAX,
            addrs@.len() == 3,
            forall|q: int| 0 <= q < fixes@.len() ==> (#[trigger] fixes@[q]).source < 3,
            k <= fixes@.len(),
            id == 4 * k,
            r@.len() == 4 * k,
            forall|q: int| 0 <= q < k ==> fix_steps_ok(
                r@,
                4 * q,
                4 * q,
                #[trigger] fixes@[q],
                addrs@[fixes@[q].source as int],
                max_flush,
                max_gen,
            ),
        decreases fixes@.len() - k,
    {
        let f = &fixes[k];
        let ghost before = r@;
        r.push(new_step(id, ReconcileOp::ExtentFlush {
            extent: f.extent,
            client_id: f.source,
            flush_number: max_flush,
            gen_number: max_gen,
        }));
        r.push(new_step(id + 1, ReconcileOp::ExtentClose { extent: f.extent }));
        let dest = crate::live_repair::copy_clients(&f.dest);
        r.push(new_step(id + 2, ReconcileOp::ExtentRepair {
            extent: f.extent,
            source_client_id: f.source,
            source_repair_address: addrs[f.source],
            dest_clients: dest,
        }));
        r.push(new_step(id + 3, ReconcileOp::ExtentReopen { extent: f.extent }));
        proof {
            assert forall|q: int| 0 <= q < k + 1 implies fix_steps_ok(
                r@,
                4 * q,
                4 * q,
                #[trigger] fixes@[q],
                addrs@[fixes@[q].source as int],
                max_flush,
                max_gen,
            ) by {
                if q < k {
                    assert(fix_steps_ok(before, 4 * q, 4 * q, fixes@[q], addrs@[fixes@[q].source as int], max_flush, max_gen));
                    assert(r@[4 * q] == before[4 * q]);
                    assert(r@[4 * q + 1] == before[4 * q + 1]);
                    assert(r@[4 * q + 2] == before[4 * q + 2]);
                    assert(r@[4 * q + 3] == before[4 * q + 3]);
                    assert forall|x: int| 4 * q <= x < 4 * q + 4 implies (#[trigger] r@[x]).state@ == seq![IOState::New, IOState::New, IOState::New] by {
                        assert(r@[x] == before[x]);
                    }
                }
            }
        }
        id = id + 4;
        k = k + 1;
    }
    r
}

impl Downstairs {
    /// Sets every client in state `from` to `to`.
    fn move_clients(&mut self, from: DsState, to: DsState)
        requires
            old(self).wf(),
        ensures
            final(self).wf(),
            forall|c: int| 0 <= c < 3 ==> (#[trigger] final(self).clients@[c]).state == if old(self).clients@[c].state == from {
                to
            } else {
                old(self).clients@[c].state
            },
            final(self).ds_active == old(self).ds_active,
            final(self).next_id == old(self).next_id,
            final(self).next_flush == old(self).next_flush,
            final(self).repair == old(self).repair,
            final(self).reconcile_task_list == old(self).reconcile_task_list,
            final(self).reconcile_current_work == old(self).reconcile_current_work,
            final(self).reconcile_repair_needed == old(self).reconcile_repair_needed,
    {
        let mut c: usize = 0;
        while c < 3
            invariant
                old(self).wf(),
                c <= 3,
                self.clients@.len() == 3,
                self.ds_active == old(self).ds_active,
                self.repair == old(self).repair,
                self.completed == old(self).completed,
                self.write_bytes_outstanding == old(self).write_bytes_outstanding,
                self.ackable_work == old(self).ackable_work,
                self.geometry == old(self).geometry,
                self.retired == old(self).retired,
                self.pending == old(self).pending,
                self.next_id == old(self).next_id,
                self.next_flush == old(self).next_flush,
                self.reconcile_task_list == old(self).reconcile_task_list,
                self.reconcile_current_work == old(self).reconcile_current_work,
                self.reconcile_repair_needed == old(self).reconcile_repair_needed,
                forall|q: int| 0 <= q < 3 ==> (#[trigger] self.clients@[q]).state == if q < c && old(self).clients@[q].state == from {
                    to
                } else {
                    old(self).clients@[q].state
                },
            decreases 3 - c,
        {
            if self.clients[c].state == from {
                self.clients[c].state = to;
            }
            c = c + 1;
        }
        proof {
            self.lemma_wf_clients_only(*old(self));
        }
    }

    /// Compares the clients' region metadata at activation (every client
    /// must have a repair address when some extent differs).  A requested
    /// generation that does not exceed the floor gives
    /// `GenerationNumberTooLow` and sends the clients waiting for quorum to
    /// `FailedRepair`.  Otherwise the next flush number is set, and when
    /// some extent differs the clients start reconciling (`Repair`) with the
    /// steps of every fix queued; the result says whether they must.
    pub fn collate(&mut self, gen: u64, ms: &Vec<RegionMetadata>, n: usize) -> (r: Result<bool, CrucibleError>)
        requires
            old(self).wf(),
            metadata_ok(ms@, n as int),
            4 * n < u64::MAX,
            mend_spec(ms@, n as int).len() > 0 ==> forall|c: int| 0 <= c < 3 ==> (#[trigger] old(self).clients@[c]).repair_addr is Some,
        ensures
            final(self).wf(),
            gen <= max_gen_spec(ms@) ==> r == Err::<bool, CrucibleError>(
                CrucibleError::GenerationNumberTooLow { found: max_gen_spec(ms@) as u64, requested: gen },
            ) && forall|c: int| 0 <= c < 3 ==> (#[trigger] final(self).clients@[c]).state == if old(self).clients@[c].state
                == DsState::WaitQuorum {
                DsState::FailedRepair
            } else {
                old(self).clients@[c].state
            },
            gen <= max_gen_spec(ms@) ==> final(self).next_flush == old(self).next_flush
                && final(self).same_reconcile(*old(self)) && final(self).ds_active == old(self).ds_active,
            gen > max_gen_spec(ms@) ==> {
                let fixes = mend_spec(ms@, n as int);
                &&& r == Ok::<bool, CrucibleError>(fixes.len() > 0)
                &&& final(self).next_flush == max_flush_spec(ms@)
                &&& final(self).reconcile_task_list@.len() == 4 * fixes.len()
                &&& final(self).reconcile_repair_needed == final(self).reconcile_task_list@.len()
                &&& forall|k: int| 0 <= k < fixes.len() ==> fix_steps_spec(
                    final(self).reconcile_task_list@,
                    4 * k,
                    #[trigger] fixes[k],
                    old(self).clients@[fixes[k].1].repair_addr->0,
                    max_flush_spec(ms@) as u64,
                    max_gen_spec(ms@) as u64,
                )
                &&& forall|c: int| 0 <= c < 3 ==> (#[trigger] final(self).clients@[c]).state == if fixes.len() > 0
                    && old(self).clients@[c].state == DsState::WaitQuorum {
                    DsState::Repair
                } else {
                    old(self).clients@[c].state
                }
            },
    {
        match collate_numbers(ms, n, gen) {
            Err(e) => {
                self.move_clients(DsState::WaitQuorum, DsState::FailedRepair);
                Err(e)
            },
            Ok((max_flush, max_gen)) => {
                let ghost before = *self;
                self.next_flush = max_flush;
                proof {
                    self.lemma_wf_clients_only(before);
                }
                let fixes = mismatch_list(ms, n);
                proof {
                    assert forall|k: int| 0 <= k < fixes@.len() implies (#[trigger] fixes@[k]).source < 3 by {
                        lemma_mend_sources(ms@, n as int, k);
                    }
                    lemma_mend_len(ms@, n as int);
                }
                let mut addrs: Vec<Address> = Vec::new();
                let mut c: usize = 0;
                while c < 3
                    invariant
                        c <= 3,
                        self.clients@.len() == 3,
                        self.clients == old(self).clients,
                        addrs@.len() == c,
                        forall|q: int| 0 <= q < c && old(self).clients@[q].repair_addr is Some
                            ==> #[trigger] addrs@[q] == old(self).clients@[q].repair_addr->0,
                    decreases 3 - c,
                {
                    let a = match self.clients[c].repair_addr {
                        Some(a) => a,
                        None => Address { ip: 0, port: 0 },
                    };
                    addrs.push(a);
                    c = c + 1;
                }
                let tasks = convert_rc_to_messages(&fixes, &addrs, max_flush, max_gen);
                proof {
                    let mf = mend_spec(ms@, n as int);
                    assert forall|k: int| 0 <= k < mf.len() implies fix_steps_spec(
                        tasks@,
                        4 * k,
                        #[trigger] mf[k],
                        old(self).clients@[mf[k].1].repair_addr->0,
                        max_flush,
                        max_gen,
                    ) by {
                        assert(fixes@[k].extent == mf[k].0);
                        assert(fix_steps_ok(tasks@, 4 * k, 4 * k, fixes@[k], addrs@[fixes@[k].source as int], max_flush, max_gen));
                        assert(old(self).clients@[mf[k].1].repair_addr is Some);
                    }
                }
                let needed = tasks.len();
                self.reconcile_task_list = tasks;
                self.reconcile_repair_needed = needed;
                proof {
                    self.lemma_wf_clients_only(before);
                }
                if fixes.len() == 0 {
                    Ok(false)
                } else {
                    self.move_clients(DsState::WaitQuorum, DsState::Repair);
                    Ok(true)
                }
            },
        }
    }

    /// Takes the next reconciliation step as the current work; true when
    /// none is left.
    pub fn send_next_reconciliation_req(&mut self) -> (r: bool)
        requires
            old(self).wf(),
        ensures
            final(self).wf(),
            r == (old(self).reconcile_task_list@.len() == 0),
            !r ==> final(self).reconcile_current_work is Some
                && final(self).reconcile_current_work->0 == old(self).reconcile_task_list@[0]
                && final(self).reconcile_task_list@ == old(self).reconcile_task_list@.drop_first(),
            final(self).clients == old(self).clients,
    {
        if self.reconcile_task_list.len() == 0 {
            return true;
        }
        let ghost before = *self;
        let next = self.reconcile_task_list.remove(0);
        self.reconcile_current_work = Some(next);
        proof {
            assert(self.reconcile_task_list@ == before.reconcile_task_list@.drop_first());
            self.lemma_wf_clients_only(before);
        }
        false
    }

    /// Stops reconciliation: clients still reconciling go to
    /// `FailedRepair`, and the queued and current work is dropped.
    pub fn abort_reconciliation(&mut self)
        requires
            old(self).wf(),
        ensures
            final(self).wf(),
            final(self).reconcile_task_list@.len() == 0,
            final(self).reconcile_current_work is None,
            forall|c: int| 0 <= c < 3 ==> (#[trigger] final(self).clients@[c]).state == if old(self).clients@[c].state
                == DsState::Repair {
                DsState::FailedRepair
            } else {
                old(self).clients@[c].state
            },
            final(self).ds_active == old(self).ds_active,
    {
        self.move_clients(DsState::Repair, DsState::FailedRepair);
        let ghost before = *self;
        self.reconcile_task_list = Vec::new();
        self.reconcile_current_work = None;
        proof {
            self.lemma_wf_clients_only(before);
        }
    }

    /// Handles a client's acknowledgement of reconciliation step
    /// `repair_id`.  If any client has left `Repair`, reconciliation is
    /// aborted.  When all three have acknowledged the current step, the next
    /// one is taken; the result says whether none was left.
    pub fn on_reconciliation_ack(&mut self, client_id: ClientId, repair_id: u64) -> (r: bool)
        requires
            old(self).wf(),
            client_id < 3,
        ensures
            final(self).wf(),
            (exists|c: int| 0 <= c < 3 && (#[trigger] old(self).clients@[c]).state != DsState::Repair) ==> !r
                && final(self).reconcile_current_work is None && final(self).reconcile_task_list@.len() == 0
                && forall|c: int| 0 <= c < 3 ==> (#[trigger] final(self).clients@[c]).state == if old(self).clients@[c].state
                    == DsState::Repair {
                    DsState::FailedRepair
                } else {
                    old(self).clients@[c].state
                },
            ((forall|c: int| 0 <= c < 3 ==> (#[trigger] old(self).clients@[c]).state == DsState::Repair)
                && old(self).reconcile_current_work is Some
                && old(self).reconcile_current_work->0.id == repair_id
                && old(self).reconcile_current_work->0.state@.len() == 3) ==> {
                let st = old(self).reconcile_current_work->0.state@.update(client_id as int, IOState::Done);
                if st[0] is Done && st[1] is Done && st[2] is Done {
                    &&& r == (old(self).reconcile_task_list@.len() == 0)
                    &&& !r ==> final(self).reconcile_current_work == Some(old(self).reconcile_task_list@[0])
                        && final(self).reconcile_task_list@ == old(self).reconcile_task_list@.drop_first()
                } else {
                    &&& !r
                    &&& final(self).reconcile_current_work is Some
                    &&& final(self).reconcile_current_work->0.state@ == st
                    &&& final(self).reconcile_task_list == old(self).reconcile_task_list
                }
            },
    {
        if self.clients[0].state != DsState::Repair || self.clients[1].state != DsState::Repair
            || self.clients[2].state != DsState::Repair {
            self.abort_reconciliation();
            return false;
        }
        let ghost before = *self;
        let done = match &mut self.reconcile_current_work {
            None => {
                return false;
            },
            Some(work) => {
                if work.id != repair_id || work.state.len() != 3 {
                    return false;
                }
                work.state.set(client_id, IOState::Done);
                matches!(work.state[0], IOState::Done) && matches!(work.state[1], IOState::Done)
                    && matches!(work.state[2], IOState::Done)
            },
        };
        proof {
            self.lemma_wf_clients_only(before);
        }
        if done {
            self.reconcile_current_work = None;
            proof {
                self.lemma_wf_clients_only(before);
            }
            self.send_next_reconciliation_req()
        } else {
            false
        }
    }

    /// Handles an extent error during reconciliation: reconciliation is
    /// aborted.
    pub fn on_reconciliation_failed(&mut self)
        requires
            old(self).wf(),
        ensures
            final(self).wf(),
            final(self).reconcile_task_list@.len() == 0,
            final(self).reconcile_current_work is None,
            forall|c: int| 0 <= c < 3 ==> (#[trigger] final(self).clients@[c]).state == if old(self).clients@[c].state
                == DsState::Repair {
                DsState::FailedRepair
            } else {
                old(self).clients@[c].state
            },
            final(self).ds_active == old(self).ds_active,
    {
        self.abort_reconciliation();
    }

    /// Finishes reconciliation: every client becomes `Active`.
    pub fn on_reconciliation_done(&mut self)
        requires
            old(self).wf(),
        ensures
            final(self).wf(),
            forall|c: int| 0 <= c < 3 ==> (#[trigger] final(self).clients@[c]).state == DsState::Active,
    {
        let mut c: usize = 0;
        let ghost before = *self;
        while c < 3
            invariant
                before.wf(),
                c <= 3,
                self.clients@.len() == 3,
                self.ds_active == before.ds_active,
                self.repair == before.repair,
                self.completed == before.completed,
                self.write_bytes_outstanding == before.write_bytes_outstanding,
                self.geometry == before.geometry,
                self.retired == before.retired,
                self.pending == before.pending,
                self.next_id == before.next_id,
                forall|q: int| 0 <= q < c ==> (#[trigger] self.clients@[q]).state == DsState::Active,
            decreases 3 - c,
        {
            self.clients[c].state = DsState::Active;
            c = c + 1;
        }
        proof {
            self.lemma_wf_clients_only(before);
        }
    }
}

pub proof fn lemma_mend_sources(ms: Seq<RegionMetadata>, n: int, k: int)
    requires
        0 <= k < mend_spec(ms, n).len(),
    ensures
        0 <= mend_spec(ms, n)[k].1 < 3,
    decreases n,
{
    if n > 0 {
        let rest = mend_spec(ms, n - 1);
        if k < rest.len() {
            lemma_mend_sources(ms, n - 1, k);
            if dests_spec(ms, n - 1).len() > 0 {
                assert(mend_spec(ms, n)[k] == rest[k]);
            }
        }
    }
}

pub proof fn lemma_mend_len(ms: Seq<RegionMetadata>, n: int)
    requires
        n >= 0,
    ensures
        mend_spec(ms, n).len() <= n,
    decreases n,
{
    if n > 0 {
        lemma_mend_len(ms, n - 1);
    }
}

} // verus!
