//! Live repair: one extent at a time, a close, a repair (or no-op), a no-op
//! and a reopen job, then a final flush; guest jobs that reach past the
//! extent under repair wait on ids reserved for later extents.
use vstd::prelude::*;
use crate::deps::{deps_for, deps_spec, lemma_ids_where, must_follow, NewJob, Reservation};
use crate::downstairs::{
    has_id, has_reservation, known, outside_res, reservation_ok, state_ok, Downstairs,
    LiveRepairData, LiveRepairState,
};
use crate::types::{
    ClientId, CrucibleError, DownstairsIO, DsState, ExtentInfo, ExtentRepairIDs, IOop, JobId,
    RepairCheck,
};

verus! {

/// Whether an extent whose metadata is `other` differs from the source's
/// `good` and so must be repaired: it is dirty, or its generation or flush
/// number differs.
pub open spec fn extent_differs(good: ExtentInfo, other: ExtentInfo) -> bool {
    other.dirty || other.generation != good.generation || other.flush_number != good.flush_number
}

/// Decides whether the extent of a repaired client must be rebuilt from
/// the source (see `extent_differs`).
pub fn needs_repair(good: &ExtentInfo, other: &ExtentInfo) -> (r: bool)
    ensures
        r == extent_differs(*good, *other),
{
    other.dirty || other.generation != good.generation || other.flush_number != good.flush_number
}

/// Whether a client in state `s` waits for or is under live repair.
pub open spec fn is_target(s: DsState) -> bool {
    s == DsState::LiveRepairReady || s == DsState::LiveRepair
}

/// Whether `c` is in the list `v`.
pub fn contains_listed(v: &Vec<ClientId>, c: ClientId) -> (r: bool)
    ensures
        r == v@.contains(c),
{
    let mut i: usize = 0;
    while i < v.len()
        invariant
            i <= v@.len(),
            forall|k: int| 0 <= k < i ==> v@[k] != c,
        decreases v@.len() - i,
    {
        if v[i] == c {
            assert(v@[i as int] == c);
            return true;
        }
        i = i + 1;
    }
    false
}

/// A copy of a list of clients.
pub fn copy_clients(v: &Vec<ClientId>) -> (r: Vec<ClientId>)
    ensures
        r@ == v@,
{
    let mut r: Vec<ClientId> = Vec::new();
    let mut i: usize = 0;
    while i < v.len()
        invariant
            i <= v@.len(),
            r@ == v@.subrange(0, i as int),
        decreases v@.len() - i,
    {
        assert(v@.subrange(0, i + 1) == v@.subrange(0, i as int).push(v@[i as int]));
        r.push(v[i]);
        i = i + 1;
    }
    assert(v@.subrange(0, v@.len() as int) == v@);
    r
}

impl Downstairs {
    /// The four ids of extent `eid`'s repair and the dependencies of its
    /// close job: those reserved for the extent (the reservation is used
    /// up), or else four new ids and the active jobs that touch the extent.
    pub fn get_repair_ids(&mut self, eid: u64) -> (r: (ExtentRepairIDs, Vec<JobId>))
        requires
            old(self).wf(),
            old(self).next_id + 4 <= u64::MAX,
            !old(self).state_holds(old(self).next_id),
            !old(self).state_holds((old(self).next_id + 1) as u64),
            !old(self).state_holds((old(self).next_id + 2) as u64),
            !old(self).state_holds((old(self).next_id + 3) as u64),
        ensures
            final(self).wf(),
            final(self).same_jobs(*old(self)),
            r.0.repair_id == r.0.close_id + 1,
            r.0.noop_id == r.0.close_id + 2,
            r.0.reopen_id == r.0.close_id + 3,
            final(self).pending@.contains(r.0.close_id),
            final(self).pending@.contains(r.0.repair_id),
            final(self).pending@.contains(r.0.noop_id),
            final(self).pending@.contains(r.0.reopen_id),
            r.0.reopen_id < final(self).next_id,
            forall|k: int| 0 <= k < final(self).reservations().len() ==> outside_res(r.0.close_id, #[trigger] final(self).reservations()[k])
                && outside_res(r.0.repair_id, final(self).reservations()[k])
                && outside_res(r.0.noop_id, final(self).reservations()[k])
                && outside_res(r.0.reopen_id, final(self).reservations()[k]),
            forall|m: int| 0 <= m < r.1@.len() ==> #[trigger] r.1@[m] < r.0.close_id && known(
                final(self).ds_active@,
                final(self).retired@,
                final(self).pending@,
                r.1@[m],
            ),
            !has_reservation(old(self).reservations(), eid) ==> {
                &&& r.0.close_id == old(self).next_id
                &&& final(self).next_id == old(self).next_id + 4
                &&& r.1@ == deps_spec(old(self).ds_active@, old(self).reservations(), NewJob::Repair(eid), old(self).geometry.extent_size)
                &&& final(self).reservations() == old(self).reservations()
            },
            has_reservation(old(self).reservations(), eid) ==> {
                &&& final(self).next_id == old(self).next_id
                &&& exists|k: int| 0 <= k < old(self).reservations().len()
                    && (#[trigger] old(self).reservations()[k]).extent == eid
                    && r.0 == old(self).reservations()[k].ids
                    && r.1@ == old(self).reservations()[k].deps@
                    && final(self).reservations() == old(self).reservations().remove(k)
            },
            forall|d: JobId| #[trigger] final(self).state_holds(d) == old(self).state_holds(d),
            final(self).repair is Some == old(self).repair is Some,
            old(self).repair is Some ==> {
                &&& final(self).repair->0.state == old(self).repair->0.state
                &&& final(self).repair->0.active_extent == old(self).repair->0.active_extent
                &&& final(self).repair->0.extent_count == old(self).repair->0.extent_count
                &&& final(self).repair->0.aborting_repair == old(self).repair->0.aborting_repair
                &&& final(self).repair->0.source_downstairs == old(self).repair->0.source_downstairs
                &&& final(self).repair->0.repair_downstairs == old(self).repair->0.repair_downstairs
                &&& final(self).repair->0.min_id == old(self).repair->0.min_id
            },
            final(self).upstairs_id == old(self).upstairs_id,
            final(self).session_id == old(self).session_id,
            final(self).next_gw_id == old(self).next_gw_id,
    {
        let found = self.find_reservation(eid);
        match found {
            Some(k) => {
                let ghost before = *self;
                let ghost res0 = self.reservations();
                proof {
                    assert(res0[k as int].extent == eid);
                    assert(reservation_ok(res0[k as int], self.ds_active@, self.retired@, self.pending@));
                }
                let taken = match &mut self.repair {
                    Some(rep) => rep.repair_job_ids.remove(k),
                    None => {
                        proof {
                            assert(false);
                        }
                        return (ExtentRepairIDs { close_id: 0, repair_id: 0, noop_id: 0, reopen_id: 0 }, Vec::new());
                    },
                };
                proof {
                    let rs = self.reservations();
                    assert(rs == res0.remove(k as int));
                    assert(taken == res0[k as int]);
                    assert forall|q: int| 0 <= q < rs.len() implies reservation_ok(#[trigger] rs[q], self.ds_active@, self.retired@, self.pending@) by {
                        if q < k {
                            assert(rs[q] == res0[q]);
                        } else {
                            assert(rs[q] == res0[q + 1]);
                        }
                    }
                    assert forall|a: int, b: int| 0 <= a < rs.len() && 0 <= b < rs.len() && a != b implies outside_res(#[trigger] rs[a].ids.close_id, #[trigger] rs[b]) by {
                        let oa = if a < k { a } else { a + 1 };
                        let ob = if b < k { b } else { b + 1 };
                        assert(rs[a] == res0[oa]);
                        assert(rs[b] == res0[ob]);
                        assert(outside_res(res0[oa].ids.close_id, res0[ob]));
                    }
                    assert forall|q: int| 0 <= q < rs.len() implies outside_res(taken.ids.close_id, #[trigger] rs[q])
                        && outside_res(taken.ids.repair_id, rs[q])
                        && outside_res(taken.ids.noop_id, rs[q])
                        && outside_res(taken.ids.reopen_id, rs[q]) by {
                        let oq = if q < k { q } else { q + 1 };
                        assert(rs[q] == res0[oq]);
                        assert(outside_res(res0[k as int].ids.close_id, res0[oq]));
                        assert(outside_res(res0[oq].ids.close_id, res0[k as int]));
                        assert(reservation_ok(res0[oq], self.ds_active@, self.retired@, self.pending@));
                    }
                    if self.repair is Some {
                        let st = self.repair->0.state;
                        assert(state_ok(before.repair->0.state, res0, self.pending@));
                        assert(state_ok(st, rs, self.pending@)) by {
                            match st {
                                LiveRepairState::Closing { repair_id, noop_id, .. } => {
                                    assert forall|q: int| 0 <= q < rs.len() implies outside_res(repair_id, #[trigger] rs[q]) && outside_res(noop_id, rs[q]) by {
                                        let oq = if q < k { q } else { q + 1 };
                                        assert(rs[q] == res0[oq]);
                                    }
                                },
                                LiveRepairState::Repairing { noop_id, .. } => {
                                    assert forall|q: int| 0 <= q < rs.len() implies outside_res(noop_id, #[trigger] rs[q]) by {
                                        let oq = if q < k { q } else { q + 1 };
                                        assert(rs[q] == res0[oq]);
                                    }
                                },
                                _ => {},
                            }
                        }
                    }
                    assert(self.ds_active == before.ds_active);
                    assert forall|d: JobId| #[trigger] self.pending@.contains(d) implies d < self.next_id
                        && !has_id(self.ds_active@, d) by {
                        assert(before.pending@.contains(d));
                    }
                    assert(self.wf());
                }
                (taken.ids, taken.deps)
            },
            None => {
                let ghost before = *self;
                let close_id = self.next_id();
                let repair_id = self.next_id();
                let noop_id = self.next_id();
                let reopen_id = self.next_id();
                let ids = ExtentRepairIDs { close_id, repair_id, noop_id, reopen_id };
                let empty: Vec<Reservation> = Vec::new();
                let es = self.geometry.extent_size;
                let deps = deps_for(&self.ds_active, &empty, NewJob::Repair(eid), es);
                proof {
                    let e = NewJob::Repair(eid);
                    crate::deps::lemma_repair_no_reopens(empty@, eid, es);
                    crate::deps::lemma_repair_no_reopens(before.reservations(), eid, es);
                    let p = |j: DownstairsIO| must_follow(j.work, e, es);
                    lemma_ids_where(self.ds_active@, p);
                    assert(deps@ == crate::deps::ids_where(self.ds_active@, p));
                    assert(deps@ == deps_spec(before.ds_active@, before.reservations(), e, es));
                    assert forall|m: int| 0 <= m < deps@.len() implies #[trigger] deps@[m] < close_id
                        && known(self.ds_active@, self.retired@, self.pending@.insert(close_id).insert(repair_id).insert(noop_id).insert(reopen_id), deps@[m]) by {
                        let d = deps@[m];
                        assert(crate::deps::ids_where(self.ds_active@, p).contains(d));
                        let q = choose|q: int|
                            0 <= q < self.ds_active@.len() && self.ds_active@[q].ds_id == d && p(self.ds_active@[q]);
                        assert(self.ds_active@[q].ds_id < close_id);
                    }
                    let old_pending = self.pending@;
                    self.pending@ = self.pending@.insert(close_id).insert(repair_id).insert(noop_id).insert(reopen_id);
                    let rs = self.reservations();
                    assert forall|k: int| 0 <= k < rs.len() implies reservation_ok(#[trigger] rs[k], self.ds_active@, self.retired@, self.pending@) by {
                        assert(reservation_ok(rs[k], self.ds_active@, self.retired@, old_pending));
                        let r = rs[k];
                        assert forall|m: int| 0 <= m < r.deps@.len() implies #[trigger] r.deps@[m]
                            < r.ids.close_id && known(self.ds_active@, self.retired@, self.pending@, r.deps@[m]) by {
                            assert(known(self.ds_active@, self.retired@, old_pending, r.deps@[m]));
                        }
                    }
                    assert forall|k: int| 0 <= k < rs.len() implies outside_res(close_id, #[trigger] rs[k])
                        && outside_res(repair_id, rs[k]) && outside_res(noop_id, rs[k]) && outside_res(reopen_id, rs[k]) by {
                        assert(reservation_ok(rs[k], self.ds_active@, self.retired@, old_pending));
                        assert(old_pending.contains(rs[k].ids.reopen_id));
                    }
                    assert forall|i: int, k: int|
                        0 <= i < self.ds_active@.len() && 0 <= k < self.ds_active@[i].work.deps().len() implies {
                        &&& #[trigger] self.ds_active@[i].work.deps()[k] < self.ds_active@[i].ds_id
                        &&& known(self.ds_active@, self.retired@, self.pending@, self.ds_active@[i].work.deps()[k])
                    } by {
                        assert(known(self.ds_active@, self.retired@, old_pending, self.ds_active@[i].work.deps()[k]));
                    }
                    assert forall|d: JobId| #[trigger] self.pending@.contains(d) implies d < self.next_id
                        && !has_id(self.ds_active@, d) by {
                        if !old_pending.contains(d) {
                            if has_id(self.ds_active@, d) {
                                let q = choose|q: int| 0 <= q < self.ds_active@.len() && self.ds_active@[q].ds_id == d;
                                assert(self.ds_active@[q].ds_id < close_id);
                            }
                        }
                    }
                    if self.repair is Some {
                        assert(state_ok(self.repair->0.state, rs, old_pending));
                    }
                    assert(self.wf());
                }
                (ids, deps)
            },
        }
    }
}

impl Downstairs {
    /// Replaces the live repair state.
    fn set_repair_state(&mut self, st: LiveRepairState)
        requires
            old(self).wf(),
            old(self).repair is Some,
            state_ok(st, old(self).reservations(), old(self).pending@),
            crate::downstairs::state_known_in(st, old(self).ds_active@, old(self).retired@, old(self).pending@),
        ensures
            final(self).wf(),
            final(self).same_jobs(*old(self)),
            final(self).repair is Some,
            final(self).repair->0.state == st,
            final(self).repair->0.repair_job_ids == old(self).repair->0.repair_job_ids,
            final(self).repair->0.active_extent == old(self).repair->0.active_extent,
            final(self).repair->0.extent_count == old(self).repair->0.extent_count,
            final(self).repair->0.aborting_repair == old(self).repair->0.aborting_repair,
            final(self).repair->0.source_downstairs == old(self).repair->0.source_downstairs,
            final(self).repair->0.repair_downstairs == old(self).repair->0.repair_downstairs,
            final(self).repair->0.min_id == old(self).repair->0.min_id,
            final(self).next_id == old(self).next_id,
            final(self).pending == old(self).pending,
            final(self).next_gw_id == old(self).next_gw_id,
            final(self).upstairs_id == old(self).upstairs_id,
            final(self).session_id == old(self).session_id,
    {
        let ghost before = *self;
        match &mut self.repair {
            Some(rep) => {
                rep.state = st;
            },
            None => {},
        }
        proof {
            assert(self.reservations() == before.reservations());
            assert(self.ds_active == before.ds_active);
        }
    }

    /// Sets the extent limit of every client under repair.
    fn set_extent_limits(&mut self, extent: u64)
        requires
            old(self).wf(),
            old(self).repair is Some,
        ensures
            final(self).wf(),
            final(self).ds_active == old(self).ds_active,
            final(self).repair == old(self).repair,
            final(self).completed == old(self).completed,
            final(self).write_bytes_outstanding == old(self).write_bytes_outstanding,
            final(self).ackable_work == old(self).ackable_work,
            final(self).geometry == old(self).geometry,
            final(self).retired == old(self).retired,
            final(self).pending == old(self).pending,
            final(self).next_id == old(self).next_id,
            final(self).next_flush == old(self).next_flush,
            final(self).next_gw_id == old(self).next_gw_id,
            final(self).upstairs_id == old(self).upstairs_id,
            final(self).session_id == old(self).session_id,
            forall|c: int| 0 <= c < 3 ==> (#[trigger] final(self).clients@[c]).state == old(self).clients@[c].state,
            forall|k: int| 0 <= k < old(self).repair->0.repair_downstairs@.len()
                ==> final(self).clients@[#[trigger] old(self).repair->0.repair_downstairs@[k] as int].extent_limit == Some(extent),
    {
        let n = match &self.repair {
            Some(rep) => rep.repair_downstairs.len(),
            None => 0,
        };
        let mut k: usize = 0;
        while k < n
            invariant
                old(self).wf(),
                old(self).repair is Some,
                n == old(self).repair->0.repair_downstairs@.len(),
                k <= n,
                self.clients@.len() == 3,
                self.ds_active == old(self).ds_active,
                self.repair == old(self).repair,
                self.completed == old(self).completed,
                self.write_bytes_outstanding == old(self).write_bytes_outstanding,
                self.ackable_work == old(self).ackable_work,
                self.geometry == old(self).geometry,
                self.retired == old(self).retired,
                self.pending == old(self).pending,
                self.next_id == old(self).next_id,
                self.next_flush == old(self).next_flush,
                self.next_gw_id == old(self).next_gw_id,
                self.upstairs_id == old(self).upstairs_id,
                self.session_id == old(self).session_id,
                forall|c: int| 0 <= c < 3 ==> (#[trigger] self.clients@[c]).state == old(self).clients@[c].state,
                forall|q: int| 0 <= q < k ==> self.clients@[#[trigger] old(self).repair->0.repair_downstairs@[q] as int].extent_limit == Some(extent),
            decreases n - k,
        {
            let c = match &self.repair {
                Some(rep) => rep.repair_downstairs[k],
                None => 0,
            };
            proof {
                assert(c < 3);
            }
            self.clients[c].extent_limit = Some(extent);
            k = k + 1;
        }
        proof {
            self.lemma_wf_clients_only(*old(self));
        }
    }

    /// Starts the repair of `extent`: the clients under repair get it as
    /// their extent limit, its four ids are taken (reserved or new), and the
    /// reopen job (after the no-op) and the close job (after the jobs on the
    /// extent) are enqueued; the repair then waits for the close.  When
    /// aborting, both jobs are no-ops.
    #[verifier::rlimit(50)]
    pub fn begin_repair_for(&mut self, extent: u64, aborting: bool, generation: u64)
        requires
            old(self).wf(),
            old(self).repair is Some,
            !(old(self).repair->0.state is Closing),
            !(old(self).repair->0.state is Repairing),
            old(self).next_id + 4 <= u64::MAX,
            old(self).next_flush < u64::MAX,
            old(self).next_gw_id + 4 <= u64::MAX,
        ensures
            final(self).wf(),
            final(self).repair is Some,
            final(self).repair->0.state is Closing,
            final(self).repair->0.active_extent == old(self).repair->0.active_extent,
            final(self).repair->0.extent_count == old(self).repair->0.extent_count,
            final(self).repair->0.aborting_repair == old(self).repair->0.aborting_repair,
            final(self).repair->0.source_downstairs == old(self).repair->0.source_downstairs,
            final(self).repair->0.repair_downstairs == old(self).repair->0.repair_downstairs,
            final(self).repair->0.min_id == old(self).repair->0.min_id,
            !has_reservation(old(self).reservations(), extent) ==> final(self).repair->0.state->Closing_close_id == old(self).next_id,
            has_reservation(old(self).reservations(), extent) ==> exists|k: int| 0 <= k < old(self).reservations().len()
                && (#[trigger] old(self).reservations()[k]).extent == extent
                && final(self).repair->0.state->Closing_close_id == old(self).reservations()[k].ids.close_id
                && final(self).repair->0.state->Closing_reopen_id == old(self).reservations()[k].ids.reopen_id
                && final(self).reservations() == old(self).reservations().remove(k)
                && final(self).job(final(self).repair->0.state->Closing_close_id).work.deps() == old(self).reservations()[k].deps@,
            !has_reservation(old(self).reservations(), extent) ==> final(self).reservations() == old(self).reservations()
                && final(self).job(final(self).repair->0.state->Closing_close_id).work.deps() == deps_spec(
                    old(self).ds_active@,
                    old(self).reservations(),
                    NewJob::Repair(extent),
                    old(self).geometry.extent_size,
                ),
            ({
                let st = final(self).repair->0.state;
                &&& st->Closing_repair_id == st->Closing_close_id + 1
                &&& st->Closing_noop_id == st->Closing_close_id + 2
                &&& st->Closing_reopen_id == st->Closing_close_id + 3
                &&& final(self).job(st->Closing_reopen_id).work.deps() == seq![st->Closing_noop_id]
                &&& final(self).ds_active@.len() == old(self).ds_active@.len() + 2
                &&& forall|d: JobId| has_id(old(self).ds_active@, d) ==> has_id(final(self).ds_active@, d)
                    && #[trigger] final(self).job(d) == old(self).job(d)
                &&& forall|d: JobId| #[trigger] has_id(final(self).ds_active@, d) ==> has_id(old(self).ds_active@, d)
                    || d == st->Closing_close_id || d == st->Closing_reopen_id
            }),
            forall|k: int| 0 <= k < old(self).repair->0.repair_downstairs@.len()
                ==> final(self).clients@[#[trigger] old(self).repair->0.repair_downstairs@[k] as int].extent_limit == Some(extent),
            has_id(final(self).ds_active@, final(self).repair->0.state->Closing_close_id),
            has_id(final(self).ds_active@, final(self).repair->0.state->Closing_reopen_id),
            aborting ==> final(self).job(final(self).repair->0.state->Closing_close_id).work is ExtentLiveNoOp
                && final(self).job(final(self).repair->0.state->Closing_reopen_id).work is ExtentLiveNoOp,
            !aborting ==> final(self).job(final(self).repair->0.state->Closing_close_id).work is ExtentFlushClose
                && final(self).job(final(self).repair->0.state->Closing_reopen_id).work is ExtentLiveReopen,
            final(self).next_id <= old(self).next_id + 4,
            final(self).next_flush <= old(self).next_flush + 1,
            final(self).next_gw_id == old(self).next_gw_id + 4,
            final(self).geometry == old(self).geometry,
            final(self).upstairs_id == old(self).upstairs_id,
            final(self).session_id == old(self).session_id,
            forall|c: int| 0 <= c < 3 ==> (#[trigger] final(self).clients@[c]).state == old(self).clients@[c].state,
    {
        self.set_extent_limits(extent);
        let (ids, close_deps) = self.get_repair_ids(extent);
        let gw_close_id = self.next_gw_id;
        let gw_reopen_id = self.next_gw_id + 3;
        self.next_gw_id = self.next_gw_id + 4;
        let ghost mid = *self;
        proof {
            self.lemma_wf_clients_only(mid);
            assert(self.reservations() == mid.reservations());
        }
        let reopen_work = if aborting {
            IOop::ExtentLiveNoOp { dependencies: vec![ids.noop_id] }
        } else {
            IOop::ExtentLiveReopen { dependencies: vec![ids.noop_id], extent }
        };
        proof {
            assert(reopen_work.deps() == seq![ids.noop_id]);
        }
        let reopen = DownstairsIO::new(ids.reopen_id, gw_reopen_id, reopen_work);
        self.enqueue(reopen);
        let ghost after_reopen = *self;
        let (source, repair_clients) = match &self.repair {
            Some(rep) => (rep.source_downstairs, copy_clients(&rep.repair_downstairs)),
            None => (0, Vec::new()),
        };
        let close_work = if aborting {
            IOop::ExtentLiveNoOp { dependencies: close_deps }
        } else {
            let flush_number = self.next_flush_id();
            IOop::ExtentFlushClose {
                dependencies: close_deps,
                extent,
                flush_number,
                gen_number: generation,
                source_downstairs: source,
                repair_downstairs: repair_clients,
            }
        };
        proof {
            assert forall|m: int| 0 <= m < close_work.deps().len() implies #[trigger] close_work.deps()[m] < ids.close_id
                && known(self.ds_active@, self.retired@, self.pending@, close_work.deps()[m]) by {
                let d = close_work.deps()[m];
                assert(known(mid.ds_active@, mid.retired@, mid.pending@, d));
                if has_id(mid.ds_active@, d) || d == ids.reopen_id {
                    let p = choose|p: int| 0 <= p <= mid.ds_active@.len() && (forall|k: int|
                        0 <= k < p ==> mid.ds_active@[k].ds_id < ids.reopen_id) && (forall|k: int|
                        p <= k < mid.ds_active@.len() ==> mid.ds_active@[k].ds_id
                            > ids.reopen_id) && after_reopen.ds_active@ == mid.ds_active@.insert(
                        p,
                        after_reopen.ds_active@[p],
                    ) && after_reopen.ds_active@[p].ds_id == ids.reopen_id;
                    crate::downstairs::lemma_insert_has_id(mid.ds_active@, p, after_reopen.ds_active@[p], d);
                }
            }
        }
        let close = DownstairsIO::new(ids.close_id, gw_close_id, close_work);
        self.enqueue(close);
        let ghost after_close = *self;
        proof {
            assert(self.pending@.contains(ids.repair_id));
            assert(self.pending@.contains(ids.noop_id));
            assert(has_id(after_close.ds_active@, ids.close_id));
        }
        self.set_repair_state(LiveRepairState::Closing {
            close_id: ids.close_id,
            repair_id: ids.repair_id,
            noop_id: ids.noop_id,
            reopen_id: ids.reopen_id,
        });
        proof {
            assert(has_id(after_close.ds_active@, ids.close_id));
            assert(has_id(after_reopen.ds_active@, ids.reopen_id));
            assert(after_reopen.job(ids.reopen_id).work == reopen_work);
            assert(after_close.job(ids.reopen_id) == after_reopen.job(ids.reopen_id));
            assert(after_close.job(ids.close_id).work == close_work);
            assert(self.ds_active == after_close.ds_active);
            assert(self.job(ids.reopen_id) == after_close.job(ids.reopen_id));
            assert(self.job(ids.close_id) == after_close.job(ids.close_id));
            assert(self.job(ids.reopen_id).work.deps() == seq![ids.noop_id]);
            let p1 = choose|p: int| 0 <= p <= mid.ds_active@.len() && after_reopen.ds_active@ == mid.ds_active@.insert(
                p,
                after_reopen.ds_active@[p],
            ) && after_reopen.ds_active@[p].ds_id == ids.reopen_id;
            let p2 = choose|p: int| 0 <= p <= after_reopen.ds_active@.len() && after_close.ds_active@ == after_reopen.ds_active@.insert(
                p,
                after_close.ds_active@[p],
            ) && after_close.ds_active@[p].ds_id == ids.close_id;
            assert(mid.ds_active == old(self).ds_active);
            assert forall|d: JobId| has_id(old(self).ds_active@, d) implies has_id(self.ds_active@, d)
                && #[trigger] self.job(d) == old(self).job(d) by {
                assert(has_id(mid.ds_active@, d));
                assert(mid.job(d) == old(self).job(d));
                assert(after_reopen.job(d) == mid.job(d));
                assert(has_id(after_reopen.ds_active@, d));
                assert(after_close.job(d) == after_reopen.job(d));
            }
            assert forall|d: JobId| #[trigger] has_id(self.ds_active@, d) implies has_id(old(self).ds_active@, d)
                || d == ids.close_id || d == ids.reopen_id by {
                crate::downstairs::lemma_insert_has_id_back(after_reopen.ds_active@, p2, after_close.ds_active@[p2], d);
                if has_id(after_reopen.ds_active@, d) {
                    crate::downstairs::lemma_insert_has_id_back(mid.ds_active@, p1, after_reopen.ds_active@[p1], d);
                }
            }
        }
    }
}

/// The clients of `list` whose extent must be rebuilt from `good`, in order.
pub open spec fn needing(list: Seq<ClientId>, good: Option<ExtentInfo>, clients: Seq<crate::downstairs::DownstairsClient>) -> Seq<ClientId>
    decreases list.len(),
{
    if list.len() == 0 {
        Seq::empty()
    } else {
        let rest = needing(list.drop_last(), good, clients);
        if client_needs_repair(good, clients[list.last() as int].repair_info) {
            rest.push(list.last())
        } else {
            rest
        }
    }
}

/// Whether a repaired client must be rebuilt, given the source's extent
/// metadata and its own; missing metadata counts as a difference.
pub open spec fn client_needs_repair(good: Option<ExtentInfo>, other: Option<ExtentInfo>) -> bool {
    match (good, other) {
        (Some(g), Some(o)) => extent_differs(g, o),
        _ => true,
    }
}

impl Downstairs {
    /// The repair job for the current extent: an `ExtentLiveRepair` for the
    /// clients under repair whose extent differs from the source's, or a
    /// no-op when none differs.  The extent metadata of every client is used
    /// up.
    fn repair_or_noop(&mut self, extent: u64, deps: Vec<JobId>) -> (r: IOop)
        requires
            old(self).wf(),
            old(self).repair is Some,
        ensures
            final(self).wf(),
            r.deps() == deps@,
            final(self).ds_active == old(self).ds_active,
            final(self).repair == old(self).repair,
            final(self).completed == old(self).completed,
            final(self).write_bytes_outstanding == old(self).write_bytes_outstanding,
            final(self).ackable_work == old(self).ackable_work,
            final(self).geometry == old(self).geometry,
            final(self).retired == old(self).retired,
            final(self).pending == old(self).pending,
            final(self).next_id == old(self).next_id,
            final(self).next_flush == old(self).next_flush,
            final(self).next_gw_id == old(self).next_gw_id,
            final(self).upstairs_id == old(self).upstairs_id,
            final(self).session_id == old(self).session_id,
            forall|c: int| 0 <= c < 3 ==> (#[trigger] final(self).clients@[c]).state == old(self).clients@[c].state,
            forall|c: int| 0 <= c < 3 ==> (#[trigger] final(self).clients@[c]).repair_info is None,
            ({
                let rep = old(self).repair->0;
                let good = old(self).clients@[rep.source_downstairs as int].repair_info;
                let needs = |c: ClientId| client_needs_repair(good, old(self).clients@[c as int].repair_info);
                &&& (r is ExtentLiveNoOp) <==> (forall|k: int| 0 <= k < rep.repair_downstairs@.len() ==> !needs(#[trigger] rep.repair_downstairs@[k]))
                &&& r is ExtentLiveNoOp || r is ExtentLiveRepair
                &&& r is ExtentLiveRepair ==> {
                    &&& r->ExtentLiveRepair_extent == extent
                    &&& r->ExtentLiveRepair_source_downstairs == rep.source_downstairs
                    &&& forall|x: ClientId| r->ExtentLiveRepair_repair_downstairs@.contains(x) <==> (rep.repair_downstairs@.contains(x) && needs(x))
                    &&& r->ExtentLiveRepair_repair_downstairs@ == needing(rep.repair_downstairs@, good, old(self).clients@)
                    &&& r->ExtentLiveRepair_source_repair_address == old(self).clients@[rep.source_downstairs as int].repair_addr
                }
            }),
    {
        let (source, repair_clients) = match &self.repair {
            Some(rep) => (rep.source_downstairs, copy_clients(&rep.repair_downstairs)),
            None => (0, Vec::new()),
        };
        let ghost rep = self.repair->0;
        proof {
            assert(old(self).repair->0.source_downstairs < 3);
        }
        let good = self.clients[source].repair_info;
        let addr = self.clients[source].repair_addr;
        let ghost needs = |c: ClientId| client_needs_repair(good, self.clients@[c as int].repair_info);
        let mut need: Vec<ClientId> = Vec::new();
        let mut k: usize = 0;
        while k < repair_clients.len()
            invariant
                old(self).wf(),
                old(self).repair is Some,
                *self == *old(self),
                repair_clients@ == rep.repair_downstairs@,
                rep == old(self).repair->0,
                k <= repair_clients@.len(),
                good == old(self).clients@[rep.source_downstairs as int].repair_info,
                forall|x: ClientId| need@.contains(x) <==> (repair_clients@.subrange(0, k as int).contains(x)
                    && client_needs_repair(good, old(self).clients@[x as int].repair_info)),
                forall|x: int| 0 <= x < need@.len() ==> #[trigger] need@[x] < 3,
                need@ == needing(repair_clients@.subrange(0, k as int), good, old(self).clients@),
            decreases repair_clients@.len() - k,
        {
            let c = repair_clients[k];
            proof {
                assert(old(self).repair is Some);
                assert(old(self).repair->0.repair_downstairs@[k as int] < 3);
            }
            let other = self.clients[c].repair_info;
            let differs = match (&good, &other) {
                (Some(g), Some(o)) => needs_repair(g, o),
                _ => true,
            };
            let ghost old_need = need@;
            proof {
                assert(repair_clients@.subrange(0, k + 1).drop_last() == repair_clients@.subrange(0, k as int));
                assert(repair_clients@.subrange(0, k + 1).last() == c);
            }
            if differs {
                need.push(c);
            }
            proof {
                let pre = repair_clients@.subrange(0, k as int);
                let nxt = repair_clients@.subrange(0, k + 1);
                assert(nxt == pre.push(c));
                assert forall|x: ClientId| need@.contains(x) <==> (nxt.contains(x)
                    && client_needs_repair(good, old(self).clients@[x as int].repair_info)) by {
                    if need@.contains(x) && x != c {
                        let i = choose|i: int| 0 <= i < need@.len() && #[trigger] need@[i] == x;
                        if i < old_need.len() {
                            assert(old_need[i] == x);
                        }
                    }
                    if x != c && old_need.contains(x) {
                        let i = choose|i: int| 0 <= i < old_need.len() && #[trigger] old_need[i] == x;
                        assert(need@[i] == x);
                    }
                    if x == c && differs {
                        assert(need@[need@.len() - 1] == x);
                    }
                    if nxt.contains(x) && x != c {
                        let i = choose|i: int| 0 <= i < nxt.len() && #[trigger] nxt[i] == x;
                        assert(pre[i] == x);
                    }
                    if pre.contains(x) {
                        let i = choose|i: int| 0 <= i < pre.len() && #[trigger] pre[i] == x;
                        assert(nxt[i] == x);
                    }
                    if x == c {
                        assert(nxt[k as int] == c);
                    }
                }
            }
            k = k + 1;
        }
        proof {
            assert(repair_clients@.subrange(0, repair_clients@.len() as int) == repair_clients@);
        }
        let ghost before = *self;
        let mut c: usize = 0;
        while c < 3
            invariant
                before.wf(),
                c <= 3,
                self.clients@.len() == 3,
                self.ds_active == before.ds_active,
                self.repair == before.repair,
                self.completed == before.completed,
                self.write_bytes_outstanding == before.write_bytes_outstanding,
                self.ackable_work == before.ackable_work,
                self.geometry == before.geometry,
                self.retired == before.retired,
                self.pending == before.pending,
                self.next_id == before.next_id,
                self.next_flush == before.next_flush,
                self.next_gw_id == before.next_gw_id,
                self.upstairs_id == before.upstairs_id,
                self.session_id == before.session_id,
                forall|q: int| 0 <= q < 3 ==> (#[trigger] self.clients@[q]).state == before.clients@[q].state,
                forall|q: int| 0 <= q < c ==> (#[trigger] self.clients@[q]).repair_info is None,
            decreases 3 - c,
        {
            self.clients[c].repair_info = None;
            c = c + 1;
        }
        proof {
            self.lemma_wf_clients_only(before);
        }
        if need.len() == 0 {
            proof {
                assert forall|k: int| 0 <= k < rep.repair_downstairs@.len() implies !client_needs_repair(good, old(self).clients@[(#[trigger] rep.repair_downstairs@[k]) as int].repair_info) by {
                    let x = rep.repair_downstairs@[k];
                    assert(repair_clients@.contains(x));
                    if client_needs_repair(good, old(self).clients@[x as int].repair_info) {
                        assert(need@.contains(x));
                    }
                }
            }
            IOop::ExtentLiveNoOp { dependencies: deps }
        } else {
            proof {
                let x = need@[0];
                assert(need@.contains(x));
                let k = choose|k: int| 0 <= k < repair_clients@.len() && #[trigger] repair_clients@[k] == x;
                assert(rep.repair_downstairs@[k] == x);
            }
            IOop::ExtentLiveRepair {
                dependencies: deps,
                extent,
                source_downstairs: source,
                source_repair_address: addr,
                repair_downstairs: need,
            }
        }
    }
}

impl Downstairs {
    /// Room left in the id counters for one step of live repair.
    pub open spec fn has_room(self) -> bool {
        &&& self.next_id + 8 <= u64::MAX
        &&& self.next_flush + 2 <= u64::MAX
        &&& self.next_gw_id + 8 <= u64::MAX
    }

    /// Whether client `c` is a target of the live repair: under live
    /// repair, or listed as one being repaired.
    pub open spec fn repair_target(self, c: int) -> bool {
        self.clients@[c].state == DsState::LiveRepair || (self.repair is Some
            && self.repair->0.repair_downstairs@.contains(c as usize))
    }

    /// Ends an in-progress live repair: every target of the repair has its
    /// jobs skipped, loses its extent limit and becomes `Faulted`.
    pub fn abort_repair(&mut self)
        requires
            old(self).wf(),
        ensures
            final(self).wf(),
            final(self).repair is None,
            forall|c: int| 0 <= c < 3 ==> (#[trigger] final(self).clients@[c]).state == if old(self).repair_target(c) {
                DsState::Faulted
            } else {
                old(self).clients@[c].state
            },
            forall|c: int| 0 <= c < 3 && old(self).repair_target(c) ==> {
                &&& (#[trigger] final(self).clients@[c]).extent_limit is None
                &&& forall|k: int| 0 <= k < final(self).ds_active@.len()
                    ==> !(#[trigger] final(self).ds_active@[k].state@[c] is New)
                        && !(final(self).ds_active@[k].state@[c] is InProgress)
            },
            final(self).next_id == old(self).next_id,
            final(self).next_flush == old(self).next_flush,
            final(self).next_gw_id == old(self).next_gw_id,
            final(self).geometry == old(self).geometry,
            final(self).upstairs_id == old(self).upstairs_id,
            final(self).session_id == old(self).session_id,
    {
        let targets = match &self.repair {
            Some(rep) => copy_clients(&rep.repair_downstairs),
            None => Vec::new(),
        };
        let ghost before = *self;
        self.repair = None;
        proof {
            assert(self.reservations().len() == 0);
            assert(self.ds_active == before.ds_active);
            assert forall|i: int, k: int|
                0 <= i < self.ds_active@.len() && 0 <= k < self.ds_active@[i].work.deps().len() implies {
                &&& #[trigger] self.ds_active@[i].work.deps()[k] < self.ds_active@[i].ds_id
                &&& known(self.ds_active@, self.retired@, self.pending@, self.ds_active@[i].work.deps()[k])
            } by {
                assert(known(before.ds_active@, before.retired@, before.pending@, self.ds_active@[i].work.deps()[k]));
            }
        }
        let mut c: usize = 0;
        while c < 3
            invariant
                self.wf(),
                self.repair is None,
                c <= 3,
                old(self).repair is Some ==> targets@ == old(self).repair->0.repair_downstairs@,
                old(self).repair is None ==> targets@.len() == 0,
                forall|q: int| 0 <= q < 3 ==> (#[trigger] self.clients@[q]).state == if q < c && old(self).repair_target(q) {
                    DsState::Faulted
                } else {
                    old(self).clients@[q].state
                },
                forall|q: int| 0 <= q < c && old(self).repair_target(q) ==> {
                    &&& (#[trigger] self.clients@[q]).extent_limit is None
                    &&& forall|k: int| 0 <= k < self.ds_active@.len()
                        ==> !(#[trigger] self.ds_active@[k].state@[q] is New)
                            && !(self.ds_active@[k].state@[q] is InProgress)
                },
                self.next_id == old(self).next_id,
                self.next_flush == old(self).next_flush,
                self.next_gw_id == old(self).next_gw_id,
                self.geometry == old(self).geometry,
                self.upstairs_id == old(self).upstairs_id,
                self.session_id == old(self).session_id,
            decreases 3 - c,
        {
            let listed = contains_listed(&targets, c);
            if self.clients[c].state == DsState::LiveRepair || listed {
                let ghost pre = *self;
                self.skip_all_jobs(c);
                let ghost mid = *self;
                self.clients[c].state = DsState::Faulted;
                proof {
                    self.lemma_wf_clients_only(mid);
                    assert forall|q: int| 0 <= q < c && old(self).repair_target(q) implies {
                        &&& (#[trigger] self.clients@[q]).extent_limit is None
                        &&& forall|k: int| 0 <= k < self.ds_active@.len()
                            ==> !(#[trigger] self.ds_active@[k].state@[q] is New)
                                && !(self.ds_active@[k].state@[q] is InProgress)
                    } by {
                        assert forall|k: int| 0 <= k < self.ds_active@.len() implies !(#[trigger] self.ds_active@[k].state@[q] is New)
                            && !(self.ds_active@[k].state@[q] is InProgress) by {
                            let d = self.ds_active@[k].ds_id;
                            assert(has_id(self.ds_active@, d));
                            self.lemma_job_unique(k);
                            assert(has_id(pre.ds_active@, d));
                            let m = choose|m: int| 0 <= m < pre.ds_active@.len() && pre.ds_active@[m].ds_id == d;
                            pre.lemma_job_unique(m);
                            assert(pre.ds_active@[m].state@[q] == pre.job(d).state@[q]);
                        }
                    }
                }
            }
            c = c + 1;
        }
    }

    /// Ends a live repair that succeeded: the repaired clients become
    /// `Active` with no extent limit.
    fn finish_repair(&mut self)
        requires
            old(self).wf(),
            old(self).repair is Some,
        ensures
            final(self).wf(),
            final(self).repair is None,
            forall|k: int| 0 <= k < old(self).repair->0.repair_downstairs@.len()
                ==> final(self).clients@[#[trigger] old(self).repair->0.repair_downstairs@[k] as int].state == DsState::Active,
            final(self).next_id == old(self).next_id,
            final(self).next_flush == old(self).next_flush,
            final(self).next_gw_id == old(self).next_gw_id,
            final(self).geometry == old(self).geometry,
            final(self).upstairs_id == old(self).upstairs_id,
            final(self).session_id == old(self).session_id,
    {
        let list = match &self.repair {
            Some(rep) => copy_clients(&rep.repair_downstairs),
            None => Vec::new(),
        };
        let ghost rep = old(self).repair->0;
        let ghost before = *self;
        self.repair = None;
        proof {
            assert(self.reservations().len() == 0);
            assert forall|i: int, k: int|
                0 <= i < self.ds_active@.len() && 0 <= k < self.ds_active@[i].work.deps().len() implies {
                &&& #[trigger] self.ds_active@[i].work.deps()[k] < self.ds_active@[i].ds_id
                &&& known(self.ds_active@, self.retired@, self.pending@, self.ds_active@[i].work.deps()[k])
            } by {
                assert(known(before.ds_active@, before.retired@, before.pending@, self.ds_active@[i].work.deps()[k]));
            }
        }
        let mut k: usize = 0;
        while k < list.len()
            invariant
                self.wf(),
                self.repair is None,
                old(self).wf(),
                old(self).repair is Some,
                list@ == old(self).repair->0.repair_downstairs@,
                k <= list@.len(),
                forall|q: int| 0 <= q < k ==> self.clients@[#[trigger] list@[q] as int].state == DsState::Active,
                self.next_id == old(self).next_id,
                self.next_flush == old(self).next_flush,
                self.next_gw_id == old(self).next_gw_id,
                self.geometry == old(self).geometry,
                self.upstairs_id == old(self).upstairs_id,
                self.session_id == old(self).session_id,
            decreases list@.len() - k,
        {
            let c = list[k];
            proof {
                assert(old(self).repair->0.repair_downstairs@[k as int] < 3);
            }
            let ghost mid = *self;
            self.clients[c].state = DsState::Active;
            self.clients[c].extent_limit = None;
            proof {
                self.lemma_wf_clients_only(mid);
                assert forall|q: int| 0 <= q < k + 1 implies self.clients@[#[trigger] list@[q] as int].state == DsState::Active by {
                    if list@[q] != c {
                        assert(self.clients@[list@[q] as int] == mid.clients@[list@[q] as int]);
                    }
                }
            }
            k = k + 1;
        }
    }

    /// The job id the live repair waits for, if a repair is in progress.
    pub fn repair_waiting_on(&self) -> (r: Option<JobId>)
        ensures
            self.repair is None ==> r is None,
            self.repair is Some ==> r == Some(match self.repair->0.state {
                LiveRepairState::Closing { close_id, .. } => close_id,
                LiveRepairState::Repairing { repair_id, .. } => repair_id,
                LiveRepairState::Noop { noop_id, .. } => noop_id,
                LiveRepairState::Reopening { reopen_id } => reopen_id,
                LiveRepairState::FinalFlush { flush_id } => flush_id,
            }),
    {
        match &self.repair {
            None => None,
            Some(rep) => Some(match rep.state {
                LiveRepairState::Closing { close_id, .. } => close_id,
                LiveRepairState::Repairing { repair_id, .. } => repair_id,
                LiveRepairState::Noop { noop_id, .. } => noop_id,
                LiveRepairState::Reopening { reopen_id } => reopen_id,
                LiveRepairState::FinalFlush { flush_id } => flush_id,
            }),
        }
    }

    fn set_aborting(&mut self)
        requires
            old(self).wf(),
            old(self).repair is Some,
        ensures
            final(self).wf(),
            final(self).same_jobs(*old(self)),
            final(self).repair is Some,
            final(self).repair->0.aborting_repair,
            final(self).repair->0.state == old(self).repair->0.state,
            final(self).repair->0.repair_job_ids == old(self).repair->0.repair_job_ids,
            final(self).repair->0.active_extent == old(self).repair->0.active_extent,
            final(self).repair->0.extent_count == old(self).repair->0.extent_count,
            final(self).repair->0.source_downstairs == old(self).repair->0.source_downstairs,
            final(self).repair->0.repair_downstairs == old(self).repair->0.repair_downstairs,
            final(self).next_id == old(self).next_id,
            final(self).pending == old(self).pending,
            final(self).next_gw_id == old(self).next_gw_id,
            final(self).upstairs_id == old(self).upstairs_id,
            final(self).session_id == old(self).session_id,
    {
        let ghost before = *self;
        match &mut self.repair {
            Some(rep) => {
                rep.aborting_repair = true;
            },
            None => {},
        }
        proof {
            assert(self.reservations() == before.reservations());
            assert(self.ds_active == before.ds_active);
        }
    }

    fn advance_extent(&mut self) -> (r: u64)
        requires
            old(self).wf(),
            old(self).repair is Some,
            old(self).repair->0.active_extent < u64::MAX,
        ensures
            final(self).wf(),
            final(self).same_jobs(*old(self)),
            final(self).repair is Some,
            r == old(self).repair->0.active_extent + 1,
            final(self).repair->0.active_extent == r,
            final(self).repair->0.aborting_repair == old(self).repair->0.aborting_repair,
            final(self).repair->0.state == old(self).repair->0.state,
            final(self).repair->0.repair_job_ids == old(self).repair->0.repair_job_ids,
            final(self).repair->0.extent_count == old(self).repair->0.extent_count,
            final(self).repair->0.source_downstairs == old(self).repair->0.source_downstairs,
            final(self).repair->0.repair_downstairs == old(self).repair->0.repair_downstairs,
            final(self).next_id == old(self).next_id,
            final(self).pending == old(self).pending,
            final(self).next_gw_id == old(self).next_gw_id,
            final(self).upstairs_id == old(self).upstairs_id,
            final(self).session_id == old(self).session_id,
    {
        let ghost before = *self;
        let mut r: u64 = 0;
        match &mut self.repair {
            Some(rep) => {
                rep.active_extent = rep.active_extent + 1;
                r = rep.active_extent;
            },
            None => {},
        }
        proof {
            assert(self.reservations() == before.reservations());
            assert(self.ds_active == before.ds_active);
        }
        r
    }

    /// Moves live repair on once the job it waited for has finished with
    /// result `r`.  An error makes the repair abort: the rest of the current
    /// extent is done with no-ops, and so are extents whose ids are already
    /// reserved, before the final flush.
    ///
    /// - Closing: enqueue the repair job (a no-op when aborting or when no
    ///   repaired extent differs from the source's), after the close.
    /// - Repairing: enqueue the no-op, after the repair job.
    /// - Noop: wait for the reopen enqueued at the start of the extent.
    /// - Reopening: go to the next extent; after the last one, or when
    ///   aborting with no ids reserved for it, submit the final flush.
    /// - FinalFlush: finish (repaired clients become `Active`), or when
    ///   aborting fault the clients still under repair.
    #[verifier::rlimit(50)]
    pub fn on_live_repair(&mut self, r: Result<(), CrucibleError>, generation: u64)
        requires
            old(self).wf(),
            old(self).has_room(),
            old(self).repair is Some ==> old(self).repair->0.active_extent < u64::MAX,
        ensures
            final(self).wf(),
            old(self).repair is None ==> final(self).repair is None,
            old(self).repair is Some ==> {
                let rep = old(self).repair->0;
                let aborting = rep.aborting_repair || r is Err;
                match rep.state {
                    LiveRepairState::Closing { repair_id, noop_id, reopen_id, .. } =>
                        final(self).repair is Some && final(self).repair->0.state == (LiveRepairState::Repairing { repair_id, noop_id, reopen_id })
                        && has_id(final(self).ds_active@, repair_id)
                        && final(self).repair->0.aborting_repair == aborting
                        && (aborting ==> final(self).job(repair_id).work is ExtentLiveNoOp)
                        && (!aborting ==> {
                            let good = old(self).clients@[rep.source_downstairs as int].repair_info;
                            &&& (final(self).job(repair_id).work is ExtentLiveNoOp) <==> (forall|k: int|
                                0 <= k < rep.repair_downstairs@.len() ==> !client_needs_repair(
                                    good,
                                    old(self).clients@[(#[trigger] rep.repair_downstairs@[k]) as int].repair_info,
                                ))
                            &&& !(final(self).job(repair_id).work is ExtentLiveNoOp) ==> {
                                &&& final(self).job(repair_id).work is ExtentLiveRepair
                                &&& final(self).job(repair_id).work->ExtentLiveRepair_repair_downstairs@
                                    == needing(rep.repair_downstairs@, good, old(self).clients@)
                                &&& final(self).job(repair_id).work->ExtentLiveRepair_source_downstairs == rep.source_downstairs
                            }
                        }),
                    LiveRepairState::Repairing { noop_id, reopen_id, .. } =>
                        final(self).repair is Some && final(self).repair->0.state == (LiveRepairState::Noop { noop_id, reopen_id })
                        && has_id(final(self).ds_active@, noop_id)
                        && final(self).job(noop_id).work is ExtentLiveNoOp
                        && final(self).repair->0.aborting_repair == aborting,
                    LiveRepairState::Noop { reopen_id, .. } =>
                        final(self).repair is Some && final(self).repair->0.state == (LiveRepairState::Reopening { reopen_id })
                        && final(self).repair->0.aborting_repair == aborting
                        && final(self).repair->0.active_extent == rep.active_extent
                        && final(self).ds_active == old(self).ds_active
                        && final(self).next_id == old(self).next_id,
                    LiveRepairState::Reopening { .. } =>
                        final(self).repair is Some && final(self).repair->0.active_extent == rep.active_extent + 1
                        && final(self).repair->0.aborting_repair == aborting
                        && if rep.active_extent + 1 == rep.extent_count
                            || (aborting && !has_reservation(rep.repair_job_ids@, (rep.active_extent + 1) as u64)) {
                            &&& final(self).repair->0.state == (LiveRepairState::FinalFlush { flush_id: old(self).next_id })
                            &&& has_id(final(self).ds_active@, old(self).next_id)
                            &&& final(self).job(old(self).next_id).work is Flush
                            &&& final(self).job(old(self).next_id).work->Flush_flush_number == old(self).next_flush
                            &&& final(self).job(old(self).next_id).work->Flush_snapshot_details is None
                            &&& final(self).ds_active@.len() == old(self).ds_active@.len() + 1
                            &&& forall|d: JobId| has_id(old(self).ds_active@, d) ==> has_id(final(self).ds_active@, d)
                                && #[trigger] final(self).job(d) == old(self).job(d)
                        } else {
                            &&& final(self).repair->0.state is Closing
                            &&& !has_reservation(rep.repair_job_ids@, (rep.active_extent + 1) as u64)
                                ==> final(self).repair->0.state->Closing_close_id == old(self).next_id
                            &&& has_reservation(rep.repair_job_ids@, (rep.active_extent + 1) as u64)
                                ==> exists|k: int| 0 <= k < rep.repair_job_ids@.len()
                                    && (#[trigger] rep.repair_job_ids@[k]).extent == rep.active_extent + 1
                                    && final(self).repair->0.state->Closing_close_id == rep.repair_job_ids@[k].ids.close_id
                                    && final(self).repair->0.repair_job_ids@ == rep.repair_job_ids@.remove(k)
                            &&& (aborting ==> final(self).job(final(self).repair->0.state->Closing_close_id).work is ExtentLiveNoOp)
                            &&& (aborting ==> final(self).job(final(self).repair->0.state->Closing_reopen_id).work is ExtentLiveNoOp)
                            &&& final(self).job(final(self).repair->0.state->Closing_reopen_id).work.deps()
                                == seq![final(self).repair->0.state->Closing_noop_id]
                        },
                    LiveRepairState::FinalFlush { .. } =>
                        final(self).repair is None
                        && (aborting ==> forall|c: int| 0 <= c < 3 ==> (#[trigger] final(self).clients@[c]).state
                            == if old(self).repair_target(c) {
                            DsState::Faulted
                        } else {
                            old(self).clients@[c].state
                        })
                        && (aborting ==> forall|c: int| 0 <= c < 3 && old(self).repair_target(c) ==> {
                            &&& (#[trigger] final(self).clients@[c]).extent_limit is None
                            &&& forall|k: int| 0 <= k < final(self).ds_active@.len()
                                ==> !(#[trigger] final(self).ds_active@[k].state@[c] is New)
                                    && !(final(self).ds_active@[k].state@[c] is InProgress)
                        })
                        && (!aborting ==> forall|k: int| 0 <= k < rep.repair_downstairs@.len()
                            ==> final(self).clients@[#[trigger] rep.repair_downstairs@[k] as int].state == DsState::Active),
                }
            },
    {
        if self.repair.is_none() {
            return;
        }
        if r.is_err() {
            self.set_aborting();
        }
        let (state, aborting, extent) = match &self.repair {
            Some(rep) => (rep.state, rep.aborting_repair, rep.active_extent),
            None => return,
        };
        match state {
            LiveRepairState::Closing { close_id, repair_id, noop_id, reopen_id } => {
                let gw = self.next_gw_id;
                self.next_gw_id = self.next_gw_id + 1;
                let ghost mid = *self;
                proof {
                    self.lemma_wf_clients_only(mid);
                    assert(self.reservations() == mid.reservations());
                    assert(known(self.ds_active@, self.retired@, self.pending@, close_id));
                }
                let work = if aborting {
                    IOop::ExtentLiveNoOp { dependencies: vec![close_id] }
                } else {
                    self.repair_or_noop(extent, vec![close_id])
                };
                proof {
                    assert(work.deps() == seq![close_id]);
                    assert(known(self.ds_active@, self.retired@, self.pending@, close_id));
                }
                self.set_repair_state(LiveRepairState::Repairing { repair_id, noop_id, reopen_id });
                let ghost before_enqueue = *self;
                proof {
                    assert(self.pending@.contains(repair_id));
                    assert(forall|k: int| 0 <= k < self.reservations().len() ==> outside_res(repair_id, #[trigger] self.reservations()[k]));
                }
                self.enqueue(DownstairsIO::new(repair_id, gw, work));
            },
            LiveRepairState::Repairing { repair_id, noop_id, reopen_id } => {
                let gw = self.next_gw_id;
                self.next_gw_id = self.next_gw_id + 1;
                let ghost mid = *self;
                proof {
                    self.lemma_wf_clients_only(mid);
                    assert(self.reservations() == mid.reservations());
                    assert(known(self.ds_active@, self.retired@, self.pending@, repair_id));
                }
                let work = IOop::ExtentLiveNoOp { dependencies: vec![repair_id] };
                proof {
                    assert(work.deps() == seq![repair_id]);
                }
                self.set_repair_state(LiveRepairState::Noop { noop_id, reopen_id });
                self.enqueue(DownstairsIO::new(noop_id, gw, work));
            },
            LiveRepairState::Noop { noop_id, reopen_id } => {
                self.set_repair_state(LiveRepairState::Reopening { reopen_id });
            },
            LiveRepairState::Reopening { .. } => {
                let next = self.advance_extent();
                let (count, reserved) = match &self.repair {
                    Some(rep) => (rep.extent_count, self.find_reservation(next).is_some()),
                    None => (0, false),
                };
                if next == count || (aborting && !reserved) {
                    let gw = self.next_gw_id;
                    self.next_gw_id = self.next_gw_id + 1;
                    let ghost mid = *self;
                    proof {
                        self.lemma_wf_clients_only(mid);
                    }
                    let ghost before_flush = *self;
                    let flush_id = self.submit_flush(gw, generation, None);
                    let ghost after_flush = *self;
                    self.set_repair_state(LiveRepairState::FinalFlush { flush_id });
                    proof {
                        assert(before_flush.ds_active == old(self).ds_active);
                        assert forall|d: JobId| has_id(old(self).ds_active@, d) implies has_id(self.ds_active@, d)
                            && #[trigger] self.job(d) == old(self).job(d) by {
                            assert(after_flush.job(d) == before_flush.job(d));
                        }
                    }
                } else {
                    self.begin_repair_for(next, aborting, generation);
                }
            },
            LiveRepairState::FinalFlush { .. } => {
                if aborting {
                    self.abort_repair();
                } else {
                    self.finish_repair();
                }
            },
        }
    }

    /// Starts live repair when clients wait for it: those in
    /// `LiveRepairReady` move to `LiveRepair`, an `Active` client is the
    /// source, and the repair of extent 0 begins.  Returns false, changing
    /// nothing, when a repair is already in progress; returns false and
    /// aborts when there is no source or no client to repair.
    pub fn start_live_repair(&mut self, extent_count: u64, generation: u64) -> (r: bool)
        requires
            old(self).wf(),
            old(self).has_room(),
        ensures
            final(self).wf(),
            old(self).repair is Some ==> !r && *final(self) == *old(self),
            old(self).repair is None ==> r == (old(self).has_target() && old(self).has_source()),
            old(self).repair is None ==> forall|c: int| 0 <= c < 3 ==> (#[trigger] final(self).clients@[c]).state == if r {
                if old(self).clients@[c].state == DsState::LiveRepairReady {
                    DsState::LiveRepair
                } else {
                    old(self).clients@[c].state
                }
            } else if is_target(old(self).clients@[c].state) {
                DsState::Faulted
            } else {
                old(self).clients@[c].state
            },
            r ==> {
                let rep = final(self).repair->0;
                &&& final(self).repair is Some
                &&& rep.active_extent == 0
                &&& rep.extent_count == extent_count
                &&& !rep.aborting_repair
                &&& rep.min_id == old(self).next_id
                &&& rep.state is Closing
                &&& rep.state->Closing_close_id == old(self).next_id
                &&& rep.repair_downstairs@ == old(self).target_list()
                &&& rep.source_downstairs == old(self).last_active()
                &&& rep.repair_job_ids@.len() == 0
                &&& rep.state->Closing_reopen_id == old(self).next_id + 3
                &&& final(self).ds_active@.len() == old(self).ds_active@.len() + 2
                &&& forall|d: JobId| has_id(old(self).ds_active@, d) ==> has_id(final(self).ds_active@, d)
                    && #[trigger] final(self).job(d) == old(self).job(d)
                &&& forall|d: JobId| #[trigger] has_id(final(self).ds_active@, d) ==> has_id(old(self).ds_active@, d)
                    || d == old(self).next_id || d == old(self).next_id + 3
            },
            old(self).repair is None && !r ==> final(self).repair is None,
    {
        if self.repair.is_some() {
            return false;
        }
        let ghost before = *self;
        let mut c: usize = 0;
        while c < 3
            invariant
                before.wf(),
                before.repair is None,
                c <= 3,
                self.clients@.len() == 3,
                self.ds_active == before.ds_active,
                self.repair == before.repair,
                self.completed == before.completed,
                self.write_bytes_outstanding == before.write_bytes_outstanding,
                self.ackable_work == before.ackable_work,
                self.geometry == before.geometry,
                self.retired == before.retired,
                self.pending == before.pending,
                self.next_id == before.next_id,
                self.next_flush == before.next_flush,
                self.next_gw_id == before.next_gw_id,
                self.upstairs_id == before.upstairs_id,
                self.session_id == before.session_id,
                before == *old(self),
                forall|k: int| 0 <= k < 3 ==> (#[trigger] self.clients@[k]).state == if k < c
                    && before.clients@[k].state == DsState::LiveRepairReady {
                    DsState::LiveRepair
                } else {
                    before.clients@[k].state
                },
            decreases 3 - c,
        {
            if self.clients[c].state == DsState::LiveRepairReady {
                self.clients[c].state = DsState::LiveRepair;
            }
            c = c + 1;
        }
        proof {
            self.lemma_wf_clients_only(before);
        }
        let mut repair_downstairs: Vec<ClientId> = Vec::new();
        let mut source: Option<ClientId> = None;
        let mut c: usize = 0;
        while c < 3
            invariant
                c <= 3,
                self.clients@.len() == 3,
                forall|k: int| 0 <= k < repair_downstairs@.len() ==> #[trigger] repair_downstairs@[k] < 3,
                source is Some ==> source->0 < 3,
                forall|k: int| 0 <= k < 3 ==> ((#[trigger] self.clients@[k]).state == DsState::LiveRepair) == is_target(old(self).clients@[k].state),
                forall|k: int| 0 <= k < 3 ==> ((#[trigger] self.clients@[k]).state == DsState::Active) == (old(self).clients@[k].state == DsState::Active),
                repair_downstairs@ == old(self).target_prefix(c as int),
                source == old(self).active_prefix(c as int),
            decreases 3 - c,
        {
            if self.clients[c].state == DsState::LiveRepair {
                repair_downstairs.push(c);
            } else if self.clients[c].state == DsState::Active {
                source = Some(c);
            }
            c = c + 1;
        }
        proof {
            old(self).lemma_prefixes();
        }
        let source = match source {
            None => {
                self.abort_repair();
                return false;
            },
            Some(s) => s,
        };
        if repair_downstairs.len() == 0 {
            self.abort_repair();
            return false;
        }
        let ghost mid = *self;
        self.repair = Some(LiveRepairData {
            extent_count,
            active_extent: 0,
            min_id: self.next_id,
            repair_job_ids: Vec::new(),
            source_downstairs: source,
            repair_downstairs,
            aborting_repair: false,
            state: LiveRepairState::Reopening { reopen_id: 0 },
        });
        proof {
            assert(self.reservations().len() == 0);
            assert(self.ds_active == mid.ds_active);
        }
        self.begin_repair_for(0, false, generation);
        true
    }

    /// Whether some client waits for or is under live repair.
    pub open spec fn has_target(self) -> bool {
        is_target(self.clients@[0].state) || is_target(self.clients@[1].state) || is_target(self.clients@[2].state)
    }

    /// Whether some client is `Active` and can be a repair source.
    pub open spec fn has_source(self) -> bool {
        self.clients@[0].state == DsState::Active || self.clients@[1].state == DsState::Active
            || self.clients@[2].state == DsState::Active
    }

    /// The clients among the first `n` that wait for or are under repair.
    pub open spec fn target_prefix(self, n: int) -> Seq<ClientId>
        decreases n,
    {
        if n <= 0 {
            Seq::empty()
        } else if is_target(self.clients@[n - 1].state) {
            self.target_prefix(n - 1).push((n - 1) as usize)
        } else {
            self.target_prefix(n - 1)
        }
    }

    pub proof fn lemma_prefixes(self)
        ensures
            (self.target_prefix(3).len() > 0) == self.has_target(),
            (self.active_prefix(3) is Some) == self.has_source(),
    {
        assert(self.target_prefix(0).len() == 0);
        assert(self.target_prefix(1).len() > 0 <==> is_target(self.clients@[0].state));
        assert(self.target_prefix(2).len() > 0 <==> (is_target(self.clients@[0].state) || is_target(self.clients@[1].state)));
        assert(self.target_prefix(3).len() > 0 <==> self.has_target());
        assert(self.active_prefix(0) is None);
        assert(self.active_prefix(1) is Some <==> self.clients@[0].state == DsState::Active);
        assert(self.active_prefix(2) is Some <==> (self.clients@[0].state == DsState::Active || self.clients@[1].state == DsState::Active));
    }

    /// The clients that wait for or are under repair, in order.
    pub open spec fn target_list(self) -> Seq<ClientId> {
        self.target_prefix(3)
    }

    /// The last `Active` client among the first `n`.
    pub open spec fn active_prefix(self, n: int) -> Option<ClientId>
        decreases n,
    {
        if n <= 0 {
            None
        } else if self.clients@[n - 1].state == DsState::Active {
            Some((n - 1) as usize)
        } else {
            self.active_prefix(n - 1)
        }
    }

    /// The last `Active` client: the repair source.
    pub open spec fn last_active(self) -> ClientId {
        match self.active_prefix(3) {
            Some(c) => c,
            None => 0,
        }
    }

    /// Whether live repair should start, and starting it when so: a repair
    /// in progress gives `RepairInProgress`; no client in `LiveRepairReady`
    /// gives `NoRepairNeeded`; an upstairs that is not active gives
    /// `InvalidState`; otherwise the repair starts (`RepairStarted`, or
    /// `InvalidState` when it could not).
    pub fn repair_check(&mut self, upstairs_active: bool, extent_count: u64, generation: u64) -> (r: RepairCheck)
        requires
            old(self).wf(),
            old(self).has_room(),
        ensures
            final(self).wf(),
            r == if old(self).repair is Some {
                RepairCheck::RepairInProgress
            } else if !(old(self).clients@[0].state == DsState::LiveRepairReady
                || old(self).clients@[1].state == DsState::LiveRepairReady
                || old(self).clients@[2].state == DsState::LiveRepairReady) {
                RepairCheck::NoRepairNeeded
            } else if !upstairs_active {
                RepairCheck::InvalidState
            } else if old(self).has_source() {
                RepairCheck::RepairStarted
            } else {
                RepairCheck::InvalidState
            },
            r != RepairCheck::RepairStarted ==> final(self).repair == old(self).repair || (old(self).repair is None && final(self).repair is None),
            r == RepairCheck::RepairStarted ==> final(self).repair is Some && final(self).repair->0.state is Closing
                && final(self).repair->0.min_id == old(self).next_id,
    {
        if self.repair.is_some() {
            return RepairCheck::RepairInProgress;
        }
        let ready = self.clients[0].state == DsState::LiveRepairReady
            || self.clients[1].state == DsState::LiveRepairReady
            || self.clients[2].state == DsState::LiveRepairReady;
        if !ready {
            return RepairCheck::NoRepairNeeded;
        }
        if !upstairs_active {
            return RepairCheck::InvalidState;
        }
        if self.start_live_repair(extent_count, generation) {
            RepairCheck::RepairStarted
        } else {
            RepairCheck::InvalidState
        }
    }
}

} // verus!
