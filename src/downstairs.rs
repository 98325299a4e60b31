//! The coordinator of the three downstairs clients: job submission,
//! completion, acknowledgement, retirement, skipping and replay.
use vstd::prelude::*;
use ringbuffer::AllocRingBuffer;
use crate::ack::{ack_ready, all_terminal, is_ack_ready, is_all_terminal, job_result, result, IOStateCount};
use crate::deps::{deps_for, deps_for_flush, deps_spec, flush_deps_spec, lemma_flush_deps,
    lemma_ids_where, lemma_reserved_reopens, must_follow, NewJob, Reservation};
use crate::ring::{ring_capacity, ring_contains, ring_contents, ring_new, ring_push, ring_to_vec};
use crate::reconcile::ReconcileIO;
use crate::types::{
    Address, ReplaceResult, ClientId, CrucibleError, DownstairsIO, DsState, ExtentInfo, IOState, IOop, ImpactedBlocks,
    JobId, ReadResponse, RegionGeometry, SnapshotDetails, COMPLETED_CAPACITY, FIRST_JOB_ID,
};

verus! {

/// What the coordinator keeps about one downstairs client.
#[derive(Clone, Debug)]
pub struct DownstairsClient {
    pub state: DsState,
    /// The most recent flush that this client finished.
    pub last_flush: JobId,
    /// Jobs skipped on this client, at or after the last retiring flush.
    pub skipped_jobs: Vec<JobId>,
    /// While under live repair: the extent being repaired.
    pub extent_limit: Option<u64>,
    /// Extent metadata returned by the last close of a repair.
    pub repair_info: Option<ExtentInfo>,
    /// Where the client serves extents to repair others from.
    pub repair_addr: Option<Address>,
    /// The downstairs this client connects to.
    pub target_addr: Option<Address>,
}

impl DownstairsClient {
    pub fn new() -> (r: DownstairsClient)
        ensures
            r.state == DsState::New,
            r.last_flush == 0,
            r.skipped_jobs@.len() == 0,
            r.extent_limit is None,
            r.repair_info is None,
            r.repair_addr is None,
            r.target_addr is None,
    {
        DownstairsClient {
            state: DsState::New,
            last_flush: 0,
            skipped_jobs: Vec::new(),
            extent_limit: None,
            repair_info: None,
            repair_addr: None,
            target_addr: None,
        }
    }
}

/// Whether some job of `jobs` has id `d`.
pub open spec fn has_id(jobs: Seq<DownstairsIO>, d: JobId) -> bool {
    exists|k: int| 0 <= k < jobs.len() && #[trigger] jobs[k].ds_id == d
}

/// Job ids strictly increase along the sequence.
pub open spec fn ids_increasing(jobs: Seq<DownstairsIO>) -> bool {
    forall|i: int, j: int| 0 <= i < j < jobs.len() ==> jobs[i].ds_id < jobs[j].ds_id
}

/// A dependency is accounted for: active, retired, or allocated to a
/// repair job that is not yet enqueued.
pub open spec fn known(
    jobs: Seq<DownstairsIO>,
    retired: Set<JobId>,
    pending: Set<JobId>,
    d: JobId,
) -> bool {
    has_id(jobs, d) || retired.contains(d) || pending.contains(d)
}

/// Every dependency of every job is smaller than the job's id and is
/// accounted for.
pub open spec fn deps_ok(jobs: Seq<DownstairsIO>, retired: Set<JobId>, pending: Set<JobId>) -> bool {
    forall|i: int, k: int|
        0 <= i < jobs.len() && 0 <= k < jobs[i].work.deps().len() ==> {
            &&& #[trigger] jobs[i].work.deps()[k] < jobs[i].ds_id
            &&& known(jobs, retired, pending, jobs[i].work.deps()[k])
        }
}

/// Payload bytes of the writes among `jobs`.
pub open spec fn sum_write_bytes(jobs: Seq<DownstairsIO>) -> int
    decreases jobs.len(),
{
    if jobs.len() == 0 {
        0
    } else {
        sum_write_bytes(jobs.drop_last()) + jobs.last().work.write_bytes()
    }
}

/// The jobs of `jobs` that stay when those satisfying `p` are retired.
pub open spec fn jobs_without(jobs: Seq<DownstairsIO>, p: spec_fn(DownstairsIO) -> bool) -> Seq<
    DownstairsIO,
>
    decreases jobs.len(),
{
    if jobs.len() == 0 {
        Seq::empty()
    } else {
        let rest = jobs_without(jobs.drop_last(), p);
        if p(jobs.last()) {
            rest
        } else {
            rest.push(jobs.last())
        }
    }
}

/// Whether a retire check at flush `flush_id` retires `j`: it is at or
/// before the flush, every client has finished it, and it was acked.
pub open spec fn retirable(j: DownstairsIO, flush_id: JobId) -> bool {
    j.ds_id <= flush_id && all_terminal(j.state@) && j.acked
}

/// Whether a client in this state is sent a job that touches extents up to
/// `last_extent` (`None` for a flush or repair job), given the repair
/// horizon `limit`: a client that is faulted or being replaced skips every
/// job, and one under live repair skips guest reads and writes beyond the
/// horizon.
pub open spec fn client_takes(state: DsState, limit: Option<u64>, last_extent: Option<u64>) -> bool {
    match state {
        DsState::Faulted | DsState::Replacing | DsState::Replaced | DsState::LiveRepairReady => false,
        DsState::LiveRepair => match last_extent {
            None => true,
            Some(e) => limit is Some && e <= limit->0,
        },
        _ => true,
    }
}

/// The highest extent a guest job touches, or `None` for a flush.
pub open spec fn job_last_extent(work: IOop, extent_size: u64) -> Option<u64> {
    match work {
        IOop::Read { blocks, .. } => Some(blocks.last_extent_spec(extent_size) as u64),
        IOop::Write { blocks, .. } => Some(blocks.last_extent_spec(extent_size) as u64),
        IOop::WriteUnwritten { blocks, .. } => Some(blocks.last_extent_spec(extent_size) as u64),
        _ => None,
    }
}

/// Data of an in-progress live repair.
pub struct LiveRepairData {
    pub extent_count: u64,
    pub active_extent: u64,
    /// Smallest job id that the repaired clients consider for dependencies.
    pub min_id: JobId,
    /// Ids reserved for future extents, in increasing extent order.
    pub repair_job_ids: Vec<Reservation>,
    pub source_downstairs: ClientId,
    pub repair_downstairs: Vec<ClientId>,
    pub aborting_repair: bool,
    pub state: LiveRepairState,
}

/// The job a live repair is waiting for, per phase of the current extent.
#[derive(Clone, Copy, Debug, PartialEq, Eq, Structural)]
pub enum LiveRepairState {
    Closing { close_id: JobId, repair_id: JobId, noop_id: JobId, reopen_id: JobId },
    Repairing { repair_id: JobId, noop_id: JobId, reopen_id: JobId },
    Noop { noop_id: JobId, reopen_id: JobId },
    Reopening { reopen_id: JobId },
    FinalFlush { flush_id: JobId },
}

/// The three downstairs clients and the work they share.
pub struct Downstairs {
    pub clients: Vec<DownstairsClient>,
    /// Active jobs, in increasing id order.
    pub ds_active: Vec<DownstairsIO>,
    pub write_bytes_outstanding: u64,
    pub next_id: JobId,
    pub next_flush: u64,
    /// Recently retired job ids, oldest first.
    pub completed: AllocRingBuffer<u64>,
    /// Jobs ready to be acknowledged to the guest.
    pub ackable_work: Vec<JobId>,
    pub repair: Option<LiveRepairData>,
    pub geometry: RegionGeometry,
    pub upstairs_id: u128,
    pub session_id: u128,
    /// Next guest work id for jobs that live repair creates.
    pub next_gw_id: u64,
    /// Every job id ever retired.
    pub retired: Ghost<Set<JobId>>,
    /// Ids allocated to repair jobs that are not yet enqueued.
    pub pending: Ghost<Set<JobId>>,
    /// Reconciliation work still to send, in order.
    pub reconcile_task_list: Vec<ReconcileIO>,
    /// The reconciliation work the clients are doing now.
    pub reconcile_current_work: Option<ReconcileIO>,
    /// Number of reconciliation tasks found necessary at activation.
    pub reconcile_repair_needed: usize,
}

impl Downstairs {
    pub open spec fn reservations(self) -> Seq<Reservation> {
        match self.repair {
            Some(r) => r.repair_job_ids@,
            None => Seq::empty(),
        }
    }

    pub open spec fn wf(self) -> bool {
        &&& self.clients@.len() == 3
        &&& self.geometry.extent_size > 0
        &&& ring_capacity(self.completed) == COMPLETED_CAPACITY
        &&& ids_increasing(self.ds_active@)
        &&& forall|i: int|
            0 <= i < self.ds_active@.len() ==> (#[trigger] self.ds_active@[i]).wf()
                && self.ds_active@[i].ds_id < self.next_id
        &&& deps_ok(self.ds_active@, self.retired@, self.pending@)
        &&& self.write_bytes_outstanding == sum_write_bytes(self.ds_active@)
        &&& forall|d: JobId| #[trigger] self.pending@.contains(d) ==> d < self.next_id
                && !has_id(self.ds_active@, d)
        &&& forall|k: int|
            0 <= k < self.reservations().len() ==> reservation_ok(
                #[trigger] self.reservations()[k],
                self.ds_active@,
                self.retired@,
                self.pending@,
            )
        &&& forall|k: int, m: int|
            0 <= k < self.reservations().len() && 0 <= m < self.reservations().len() && k != m
                ==> outside_res(#[trigger] self.reservations()[k].ids.close_id, #[trigger] self.reservations()[m])
        &&& self.repair is Some ==> state_ok(self.repair->0.state, self.reservations(), self.pending@)
        &&& self.state_known()
        &&& forall|x: JobId| #[trigger] ring_contents(self.completed).contains(x) ==> self.retired@.contains(x)
        &&& self.repair is Some ==> self.repair->0.source_downstairs < 3 && forall|k: int|
            0 <= k < self.repair->0.repair_downstairs@.len() ==> #[trigger] self.repair->0.repair_downstairs@[k] < 3
    }

    /// The job that the next repair job will follow is accounted for.
    pub open spec fn state_known(self) -> bool {
        match self.repair {
            None => true,
            Some(r) => state_known_in(r.state, self.ds_active@, self.retired@, self.pending@),
        }
    }

    /// Whether `d` is one of the ids the live repair state still has to
    /// enqueue.
    pub open spec fn state_holds(self, d: JobId) -> bool {
        match self.repair {
            None => false,
            Some(r) => match r.state {
                LiveRepairState::Closing { repair_id, noop_id, .. } => d == repair_id || d == noop_id,
                LiveRepairState::Repairing { noop_id, .. } => d == noop_id,
                _ => false,
            },
        }
    }

    pub open spec fn job(self, d: JobId) -> DownstairsIO {
        self.ds_active@[choose|k: int| 0 <= k < self.ds_active@.len() && self.ds_active@[k].ds_id == d]
    }

    /// A coordinator with no jobs; job ids start at 1000.
    pub fn new(geometry: RegionGeometry, upstairs_id: u128, session_id: u128) -> (r: Downstairs)
        requires
            geometry.extent_size > 0,
        ensures
            r.wf(),
            r.ds_active@.len() == 0,
            r.next_id == FIRST_JOB_ID,
            r.next_flush == 0,
            r.write_bytes_outstanding == 0,
            r.ackable_work@.len() == 0,
            ring_contents(r.completed).len() == 0,
            r.repair is None,
            r.geometry == geometry,
            r.upstairs_id == upstairs_id,
            r.session_id == session_id,
            forall|c: int| 0 <= c < 3 ==> (#[trigger] r.clients@[c]).state == DsState::New,
    {
        let clients = vec![DownstairsClient::new(), DownstairsClient::new(), DownstairsClient::new()];
        Downstairs {
            clients,
            ds_active: Vec::new(),
            write_bytes_outstanding: 0,
            next_id: FIRST_JOB_ID,
            next_flush: 0,
            completed: ring_new(COMPLETED_CAPACITY),
            ackable_work: Vec::new(),
            repair: None,
            geometry,
            upstairs_id,
            session_id,
            next_gw_id: 1,
            retired: Ghost(Set::empty()),
            pending: Ghost(Set::empty()),
            reconcile_task_list: Vec::new(),
            reconcile_current_work: None,
            reconcile_repair_needed: 0,
        }
    }

    /// Hands out the next job id.
    pub fn next_id(&mut self) -> (r: JobId)
        requires
            old(self).next_id < u64::MAX,
        ensures
            r == old(self).next_id,
            final(self).next_id == r + 1,
            old(self).wf() ==> final(self).wf(),
            final(self).ds_active == old(self).ds_active,
            final(self).clients == old(self).clients,
            final(self).write_bytes_outstanding == old(self).write_bytes_outstanding,
            final(self).completed == old(self).completed,
            final(self).geometry == old(self).geometry,
            final(self).retired == old(self).retired,
            final(self).pending == old(self).pending,
            final(self).repair == old(self).repair,
            final(self).next_flush == old(self).next_flush,
            final(self).ackable_work == old(self).ackable_work,
            final(self).upstairs_id == old(self).upstairs_id,
            final(self).session_id == old(self).session_id,
            final(self).next_gw_id == old(self).next_gw_id,
            final(self).same_reconcile(*old(self)),
    {
        let id = self.next_id;
        self.next_id = self.next_id + 1;
        proof {
            if old(self).wf() {
                assert(forall|i: int|
                    0 <= i < self.ds_active@.len() ==> (#[trigger] self.ds_active@[i]).wf()
                        && self.ds_active@[i].ds_id < self.next_id);
                assert(forall|d: JobId| #[trigger] self.pending@.contains(d) ==> d < self.next_id
                    && !has_id(self.ds_active@, d));
                assert(self.reservations() == old(self).reservations());
            }
        }
        id
    }

    /// Hands out the next flush number.
    pub fn next_flush_id(&mut self) -> (r: u64)
        requires
            old(self).next_flush < u64::MAX,
        ensures
            r == old(self).next_flush,
            final(self).next_flush == r + 1,
            old(self).wf() ==> final(self).wf(),
            final(self).next_id == old(self).next_id,
            final(self).ds_active == old(self).ds_active,
            final(self).clients == old(self).clients,
            final(self).write_bytes_outstanding == old(self).write_bytes_outstanding,
            final(self).completed == old(self).completed,
            final(self).geometry == old(self).geometry,
            final(self).retired == old(self).retired,
            final(self).pending == old(self).pending,
            final(self).repair == old(self).repair,
            final(self).ackable_work == old(self).ackable_work,
            final(self).upstairs_id == old(self).upstairs_id,
            final(self).session_id == old(self).session_id,
            final(self).next_gw_id == old(self).next_gw_id,
            final(self).same_reconcile(*old(self)),
    {
        let f = self.next_flush;
        self.next_flush = self.next_flush + 1;
        proof {
            if old(self).wf() {
                assert(self.reservations() == old(self).reservations());
            }
        }
        f
    }

    /// Position of the active job with id `ds_id`.
    pub fn find_job(&self, ds_id: JobId) -> (r: Option<usize>)
        ensures
            match r {
                Some(i) => i < self.ds_active@.len() && self.ds_active@[i as int].ds_id == ds_id,
                None => !has_id(self.ds_active@, ds_id),
            },
    {
        let mut i: usize = 0;
        while i < self.ds_active.len()
            invariant
                i <= self.ds_active@.len(),
                forall|k: int| 0 <= k < i ==> self.ds_active@[k].ds_id != ds_id,
            decreases self.ds_active@.len() - i,
        {
            if self.ds_active[i].ds_id == ds_id {
                return Some(i);
            }
            i = i + 1;
        }
        None
    }

    /// The ids of the active jobs, in order.
    pub fn active_ids(&self) -> (r: Vec<JobId>)
        ensures
            r@ == self.ds_active@.map_values(|j: DownstairsIO| j.ds_id),
    {
        let mut r: Vec<JobId> = Vec::new();
        let mut i: usize = 0;
        while i < self.ds_active.len()
            invariant
                i <= self.ds_active@.len(),
                r@ == self.ds_active@.subrange(0, i as int).map_values(|j: DownstairsIO| j.ds_id),
            decreases self.ds_active@.len() - i,
        {
            assert(self.ds_active@.subrange(0, i + 1) == self.ds_active@.subrange(0, i as int).push(
                self.ds_active@[i as int],
            ));
            r.push(self.ds_active[i].ds_id);
            i = i + 1;
        }
        assert(self.ds_active@.subrange(0, self.ds_active@.len() as int) == self.ds_active@);
        r
    }

    /// Number of active jobs.
    pub fn active_count(&self) -> (r: usize)
        ensures
            r == self.ds_active@.len(),
    {
        self.ds_active.len()
    }

    /// Recently retired job ids, oldest first.
    pub fn completed_ids(&self) -> (r: Vec<JobId>)
        ensures
            r@ == ring_contents(self.completed),
    {
        ring_to_vec(&self.completed)
    }

    /// Whether `ds_id` is among the recently retired job ids.
    pub fn is_completed(&self, ds_id: JobId) -> (r: bool)
        ensures
            r == ring_contents(self.completed).contains(ds_id),
    {
        ring_contains(&self.completed, ds_id)
    }

    /// Whether `ds_id` waits to be acknowledged.
    pub fn is_ackable(&self, ds_id: JobId) -> (r: bool)
        ensures
            r == self.ackable_work@.contains(ds_id),
    {
        contains_id(&self.ackable_work, ds_id)
    }

    /// Payload bytes of writes not yet retired.
    pub fn write_bytes_outstanding(&self) -> (r: u64)
        ensures
            r == self.write_bytes_outstanding,
    {
        self.write_bytes_outstanding
    }
}


impl Downstairs {
    /// The repair horizon of client `c`: its extent limit, raised to the
    /// highest extent with reserved repair ids.
    pub open spec fn horizon(self, c: int) -> Option<u64> {
        match self.clients@[c].extent_limit {
            None => None,
            Some(l) => Some(max_reserved_extent(self.reservations(), l)),
        }
    }

    /// Whether client `c` is sent job work `w` (else it is skipped there).
    pub open spec fn takes(self, c: int, w: IOop) -> bool {
        client_takes(self.clients@[c].state, self.horizon(c), job_last_extent(w, self.geometry.extent_size))
    }

    /// Highest extent with reserved ids, or `l` when that is higher.
    fn horizon_exec(&self, c: usize) -> (r: Option<u64>)
        requires
            self.wf(),
            c < 3,
        ensures
            r == self.horizon(c as int),
    {
        match self.clients[c].extent_limit {
            None => None,
            Some(l) => {
                let mut m = l;
                match &self.repair {
                    None => {},
                    Some(r) => {
                        let mut k: usize = 0;
                        while k < r.repair_job_ids.len()
                            invariant
                                k <= r.repair_job_ids@.len(),
                                m == max_reserved_extent(r.repair_job_ids@.subrange(0, k as int), l),
                            decreases r.repair_job_ids@.len() - k,
                        {
                            assert(r.repair_job_ids@.subrange(0, k + 1).drop_last()
                                == r.repair_job_ids@.subrange(0, k as int));
                            if r.repair_job_ids[k].extent > m {
                                m = r.repair_job_ids[k].extent;
                            }
                            k = k + 1;
                        }
                        assert(r.repair_job_ids@.subrange(0, r.repair_job_ids@.len() as int)
                            == r.repair_job_ids@);
                    },
                }
                Some(m)
            },
        }
    }

    fn takes_exec(&self, c: usize, w: &IOop) -> (r: bool)
        requires
            self.wf(),
            c < 3,
        ensures
            r == self.takes(c as int, *w),
    {
        let last = match w {
            IOop::Read { blocks, .. } => Some(blocks.last_extent(self.geometry.extent_size)),
            IOop::Write { blocks, .. } => Some(blocks.last_extent(self.geometry.extent_size)),
            IOop::WriteUnwritten { blocks, .. } => Some(blocks.last_extent(self.geometry.extent_size)),
            _ => None,
        };
        match self.clients[c].state {
            DsState::Faulted | DsState::Replacing | DsState::Replaced | DsState::LiveRepairReady => false,
            DsState::LiveRepair => match last {
                None => true,
                Some(e) => match self.horizon_exec(c) {
                    None => false,
                    Some(l) => e <= l,
                },
            },
            _ => true,
        }
    }

    /// Puts a new job on the active list, `New` on each client that takes
    /// it and `Skipped` on the others.  A write, or a job skipped on all
    /// three clients, is ready to be acknowledged at once.
    pub fn enqueue(&mut self, io: DownstairsIO)
        requires
            old(self).wf(),
            io.state@ == seq![IOState::New, IOState::New, IOState::New],
            !io.acked,
            io.ds_id < old(self).next_id,
            !has_id(old(self).ds_active@, io.ds_id),
            forall|k: int|
                0 <= k < io.work.deps().len() ==> #[trigger] io.work.deps()[k] < io.ds_id && known(
                    old(self).ds_active@,
                    old(self).retired@,
                    old(self).pending@,
                    io.work.deps()[k],
                ),
            old(self).write_bytes_outstanding + io.work.write_bytes() <= u64::MAX,
            forall|k: int|
                0 <= k < old(self).reservations().len() ==> outside_res(io.ds_id, #[trigger] old(self).reservations()[k]),
            !old(self).state_holds(io.ds_id),
        ensures
            final(self).wf(),
            exists|p: int|
                0 <= p <= old(self).ds_active@.len() && (forall|k: int|
                    0 <= k < p ==> old(self).ds_active@[k].ds_id < io.ds_id) && (forall|k: int|
                    p <= k < old(self).ds_active@.len() ==> old(self).ds_active@[k].ds_id
                        > io.ds_id) && final(self).ds_active@ == old(self).ds_active@.insert(
                    p,
                    final(self).ds_active@[p],
                ) && final(self).ds_active@[p].ds_id == io.ds_id,
            has_id(final(self).ds_active@, io.ds_id),
            forall|d: JobId| has_id(old(self).ds_active@, d) ==> has_id(final(self).ds_active@, d)
                && #[trigger] final(self).job(d) == old(self).job(d),
            ({
                let j = final(self).job(io.ds_id);
                &&& j.ds_id == io.ds_id
                &&& j.guest_id == io.guest_id
                &&& j.work == io.work
                &&& !j.acked
                &&& j.state@.len() == 3
                &&& j.replay == io.replay
                &&& j.data == io.data
                &&& j.read_response_hashes == io.read_response_hashes
                &&& forall|c: int|
                    0 <= c < 3 ==> #[trigger] j.state@[c] == if old(self).takes(c, io.work) {
                        IOState::New
                    } else {
                        IOState::Skipped
                    }
            }),
            final(self).write_bytes_outstanding == old(self).write_bytes_outstanding
                + io.work.write_bytes(),
            final(self).ackable_work@ == if io.work.is_write() || (!old(self).takes(0, io.work)
                && !old(self).takes(1, io.work) && !old(self).takes(2, io.work)) {
                old(self).ackable_work@.push(io.ds_id)
            } else {
                old(self).ackable_work@
            },
            final(self).pending@ == old(self).pending@.remove(io.ds_id),
            final(self).upstairs_id == old(self).upstairs_id,
            final(self).session_id == old(self).session_id,
            final(self).next_gw_id == old(self).next_gw_id,
            final(self).retired == old(self).retired,
            final(self).next_id == old(self).next_id,
            final(self).next_flush == old(self).next_flush,
            final(self).completed == old(self).completed,
            final(self).repair == old(self).repair,
            final(self).geometry == old(self).geometry,
            forall|c: int|
                0 <= c < 3 ==> {
                    &&& (#[trigger] final(self).clients@[c]).state == old(self).clients@[c].state
                    &&& final(self).clients@[c].last_flush == old(self).clients@[c].last_flush
                    &&& final(self).clients@[c].extent_limit == old(self).clients@[c].extent_limit
                    &&& final(self).clients@[c].repair_info == old(self).clients@[c].repair_info
                    &&& final(self).clients@[c].skipped_jobs@ == if old(self).takes(c, io.work) {
                        old(self).clients@[c].skipped_jobs@
                    } else {
                        old(self).clients@[c].skipped_jobs@.push(io.ds_id)
                    }
                },
    {
        let ghost io0 = io;
        let mut io = io;
        let mut skipped: usize = 0;
        let mut c: usize = 0;
        while c < 3
            invariant
                old(self).wf(),
                c <= 3,
                self.clients@.len() == 3,
                io.state@.len() == 3,
                io.work == io0.work,
                io.ds_id == io0.ds_id,
                io.guest_id == io0.guest_id,
                io.acked == io0.acked,
                io.replay == io0.replay,
                io.data == io0.data,
                io.read_response_hashes == io0.read_response_hashes,
                skipped <= c,
                (skipped == 3) == (!old(self).takes(0, io.work) && !old(self).takes(1, io.work)
                    && !old(self).takes(2, io.work) && c == 3),
                skipped == (if c > 0 && !old(self).takes(0, io.work) { 1int } else { 0 }) + (if c
                    > 1 && !old(self).takes(1, io.work) {
                    1int
                } else {
                    0
                }) + (if c > 2 && !old(self).takes(2, io.work) { 1int } else { 0 }),
                forall|k: int|
                    0 <= k < c ==> #[trigger] io.state@[k] == if old(self).takes(k, io.work) {
                        IOState::New
                    } else {
                        IOState::Skipped
                    },
                forall|k: int| c <= k < 3 ==> #[trigger] io.state@[k] == IOState::New,
                forall|k: int|
                    0 <= k < 3 ==> {
                        &&& (#[trigger] self.clients@[k]).state == old(self).clients@[k].state
                        &&& self.clients@[k].last_flush == old(self).clients@[k].last_flush
                        &&& self.clients@[k].extent_limit == old(self).clients@[k].extent_limit
                        &&& self.clients@[k].repair_info == old(self).clients@[k].repair_info
                        &&& self.clients@[k].skipped_jobs@ == if k < c && !old(self).takes(
                            k,
                            io.work,
                        ) {
                            old(self).clients@[k].skipped_jobs@.push(io.ds_id)
                        } else {
                            old(self).clients@[k].skipped_jobs@
                        }
                    },
                self.ds_active == old(self).ds_active,
                self.repair == old(self).repair,
                self.geometry == old(self).geometry,
                self.completed == old(self).completed,
                self.write_bytes_outstanding == old(self).write_bytes_outstanding,
                self.next_id == old(self).next_id,
                self.next_flush == old(self).next_flush,
                self.ackable_work == old(self).ackable_work,
                self.retired == old(self).retired,
                self.pending == old(self).pending,
                self.upstairs_id == old(self).upstairs_id,
                self.session_id == old(self).session_id,
                self.next_gw_id == old(self).next_gw_id,
            decreases 3 - c,
        {
            if !self.takes_exec(c, &io.work) {
                io.state.set(c, IOState::Skipped);
                self.clients[c].skipped_jobs.push(io.ds_id);
                skipped = skipped + 1;
            }
            c = c + 1;
        }
        let is_write = match &io.work {
            IOop::Write { .. } | IOop::WriteUnwritten { .. } => true,
            _ => false,
        };
        let ds_id = io.ds_id;
        let bytes = io.work.write_len();
        self.write_bytes_outstanding = self.write_bytes_outstanding + bytes;
        // Find the sorted position.
        let mut p: usize = 0;
        while p < self.ds_active.len() && self.ds_active[p].ds_id < ds_id
            invariant
                p <= self.ds_active@.len(),
                forall|k: int| 0 <= k < p ==> self.ds_active@[k].ds_id < ds_id,
            decreases self.ds_active@.len() - p,
        {
            p = p + 1;
        }
        let ghost old_active = self.ds_active@;
        proof {
            assert forall|k: int| p <= k < old_active.len() implies old_active[k].ds_id > ds_id by {
                if old_active[k].ds_id <= ds_id {
                    assert(old_active[p as int].ds_id <= old_active[k].ds_id);
                    assert(old_active[p as int].ds_id >= ds_id);
                    if old_active[k].ds_id == ds_id {
                        assert(has_id(old_active, ds_id));
                    }
                }
            }
            lemma_sum_insert(old_active, p as int, io);
        }
        self.ds_active.insert(p, io);
        proof {
            lemma_insert_facts(old_active, p as int, self.ds_active@[p as int]);
            self.pending@ = self.pending@.remove(ds_id);
        }
        if is_write || skipped == 3 {
            self.ackable_work.push(ds_id);
        }
        proof {
            let s = self.ds_active@;
            assert(s[p as int].ds_id == ds_id);
            assert(has_id(s, ds_id));
            assert forall|d: JobId| #[trigger] self.pending@.contains(d) implies d < self.next_id
                && !has_id(self.ds_active@, d) by {
                assert(old(self).pending@.contains(d));
                if has_id(s, d) {
                    let k = choose|k: int| 0 <= k < s.len() && s[k].ds_id == d;
                    if k < p {
                        assert(old_active[k] == s[k]);
                    } else if k > p {
                        assert(old_active[k - 1] == s[k]);
                    }
                }
            }
            lemma_insert_keeps_deps(old_active, p as int, s[p as int], old(self).retired@, old(self).pending@);
            if self.repair is Some {
                lemma_state_known_insert(self.repair->0.state, old_active, p as int, s[p as int], old(self).retired@, old(self).pending@);
            }
            assert(self.ds_active@[p as int] == s[p as int]);
            assert(ids_increasing(s));
            assert(forall|i: int| 0 <= i < s.len() ==> (#[trigger] s[i]).wf() && s[i].ds_id < self.next_id);
            assert(deps_ok(s, self.retired@, self.pending@));
            assert(self.write_bytes_outstanding == sum_write_bytes(s));
            assert forall|k: int| 0 <= k < self.reservations().len() implies reservation_ok(
                #[trigger] self.reservations()[k],
                s,
                self.retired@,
                self.pending@,
            ) by {
                lemma_insert_keeps_reservation(self.reservations()[k], old_active, p as int, s[p as int], old(self).retired@, old(self).pending@);
            }
            assert(self.wf());
            assert forall|d: JobId| has_id(old(self).ds_active@, d) implies has_id(self.ds_active@, d)
                && #[trigger] self.job(d) == old(self).job(d) by {
                let k = choose|k: int| 0 <= k < old_active.len() && old_active[k].ds_id == d;
                old(self).lemma_job_unique(k);
                let k2 = if k < p { k } else { k + 1 };
                assert(s[k2] == old_active[k]);
                self.lemma_job_unique(k2);
            }
            let cho = choose|k: int| 0 <= k < s.len() && s[k].ds_id == ds_id;
            if cho != p {
                if cho < p {
                    assert(s[cho].ds_id < ds_id);
                } else {
                    assert(s[cho] == old_active[cho - 1]);
                }
            }
        }
    }
}

pub proof fn lemma_insert_has_id(s: Seq<DownstairsIO>, p: int, j: DownstairsIO, d: JobId)
    requires
        0 <= p <= s.len(),
        has_id(s, d) || d == j.ds_id,
    ensures
        has_id(s.insert(p, j), d),
{
    let t = s.insert(p, j);
    if d == j.ds_id {
        assert(t[p].ds_id == d);
    } else {
        let q = choose|q: int| 0 <= q < s.len() && s[q].ds_id == d;
        if q < p {
            assert(t[q] == s[q]);
        } else {
            assert(t[q + 1] == s[q]);
        }
    }
}

pub proof fn lemma_insert_has_id_back(s: Seq<DownstairsIO>, p: int, j: DownstairsIO, d: JobId)
    requires
        0 <= p <= s.len(),
        has_id(s.insert(p, j), d),
    ensures
        has_id(s, d) || d == j.ds_id,
{
    let t = s.insert(p, j);
    let q = choose|q: int| 0 <= q < t.len() && t[q].ds_id == d;
    if q < p {
        assert(s[q] == t[q]);
    } else if q > p {
        assert(s[q - 1] == t[q]);
    }
}

pub proof fn lemma_insert_keeps_deps(
    s: Seq<DownstairsIO>,
    p: int,
    j: DownstairsIO,
    retired: Set<JobId>,
    pending: Set<JobId>,
)
    requires
        0 <= p <= s.len(),
        deps_ok(s, retired, pending),
        forall|k: int|
            0 <= k < j.work.deps().len() ==> #[trigger] j.work.deps()[k] < j.ds_id && known(
                s,
                retired,
                pending,
                j.work.deps()[k],
            ),
    ensures
        deps_ok(s.insert(p, j), retired, pending.remove(j.ds_id)),
{
    let t = s.insert(p, j);
    let pend = pending.remove(j.ds_id);
    assert forall|i: int, k: int| 0 <= i < t.len() && 0 <= k < t[i].work.deps().len() implies {
        &&& #[trigger] t[i].work.deps()[k] < t[i].ds_id
        &&& known(t, retired, pend, t[i].work.deps()[k])
    } by {
        let d = t[i].work.deps()[k];
        if i < p {
            assert(t[i] == s[i]);
            assert(s[i].work.deps()[k] < s[i].ds_id);
        } else if i > p {
            assert(t[i] == s[i - 1]);
            assert(s[i - 1].work.deps()[k] < s[i - 1].ds_id);
        }
        assert(known(s, retired, pending, d));
        if has_id(s, d) || d == j.ds_id {
            lemma_insert_has_id(s, p, j, d);
        }
    }
}

pub proof fn lemma_insert_keeps_reservation(
    r: Reservation,
    s: Seq<DownstairsIO>,
    p: int,
    j: DownstairsIO,
    retired: Set<JobId>,
    pending: Set<JobId>,
)
    requires
        0 <= p <= s.len(),
        reservation_ok(r, s, retired, pending),
        r.ids.close_id != j.ds_id,
        r.ids.repair_id != j.ds_id,
        r.ids.noop_id != j.ds_id,
        r.ids.reopen_id != j.ds_id,
    ensures
        reservation_ok(r, s.insert(p, j), retired, pending.remove(j.ds_id)),
{
    assert forall|m: int| 0 <= m < r.deps@.len() implies #[trigger] r.deps@[m] < r.ids.close_id
        && known(s.insert(p, j), retired, pending.remove(j.ds_id), r.deps@[m]) by {
        let d = r.deps@[m];
        if has_id(s, d) || d == j.ds_id {
            lemma_insert_has_id(s, p, j, d);
        }
    }
}

/// The job that the next repair job of state `st` follows is accounted for.
pub open spec fn state_known_in(st: LiveRepairState, jobs: Seq<DownstairsIO>, retired: Set<JobId>, pending: Set<JobId>) -> bool {
    match st {
        LiveRepairState::Closing { close_id, .. } => known(jobs, retired, pending, close_id),
        LiveRepairState::Repairing { repair_id, .. } => known(jobs, retired, pending, repair_id),
        _ => true,
    }
}

pub proof fn lemma_state_known_insert(
    st: LiveRepairState,
    s: Seq<DownstairsIO>,
    p: int,
    j: DownstairsIO,
    retired: Set<JobId>,
    pending: Set<JobId>,
)
    requires
        0 <= p <= s.len(),
        state_known_in(st, s, retired, pending),
    ensures
        state_known_in(st, s.insert(p, j), retired, pending.remove(j.ds_id)),
{
    match st {
        LiveRepairState::Closing { close_id, .. } => {
            if has_id(s, close_id) || close_id == j.ds_id {
                lemma_insert_has_id(s, p, j, close_id);
            }
        },
        LiveRepairState::Repairing { repair_id, .. } => {
            if has_id(s, repair_id) || repair_id == j.ds_id {
                lemma_insert_has_id(s, p, j, repair_id);
            }
        },
        _ => {},
    }
}

/// `x` is none of the four ids of reservation `r`.
pub open spec fn outside_res(x: JobId, r: Reservation) -> bool {
    x < r.ids.close_id || x > r.ids.reopen_id
}

/// The ids a live repair state still has to enqueue are allocated, not
/// enqueued, and belong to no reservation.
pub open spec fn state_ok(s: LiveRepairState, res: Seq<Reservation>, pending: Set<JobId>) -> bool {
    match s {
        LiveRepairState::Closing { close_id, repair_id, noop_id, .. } => {
            &&& noop_id == repair_id + 1
            &&& repair_id == close_id + 1
            &&& pending.contains(repair_id)
            &&& pending.contains(noop_id)
            &&& forall|k: int| 0 <= k < res.len() ==> outside_res(repair_id, #[trigger] res[k]) && outside_res(noop_id, res[k])
        },
        LiveRepairState::Repairing { repair_id, noop_id, .. } => {
            &&& noop_id == repair_id + 1
            &&& pending.contains(noop_id)
            &&& forall|k: int| 0 <= k < res.len() ==> outside_res(noop_id, #[trigger] res[k])
        },
        _ => true,
    }
}

/// A reservation's four ids are consecutive and not yet enqueued, and the
/// dependencies of its close job are smaller and accounted for.
pub open spec fn reservation_ok(
    r: Reservation,
    jobs: Seq<DownstairsIO>,
    retired: Set<JobId>,
    pending: Set<JobId>,
) -> bool {
    &&& r.ids.repair_id == r.ids.close_id + 1
    &&& r.ids.noop_id == r.ids.close_id + 2
    &&& r.ids.reopen_id == r.ids.close_id + 3
    &&& pending.contains(r.ids.close_id)
    &&& pending.contains(r.ids.repair_id)
    &&& pending.contains(r.ids.noop_id)
    &&& pending.contains(r.ids.reopen_id)
    &&& forall|m: int|
        0 <= m < r.deps@.len() ==> #[trigger] r.deps@[m] < r.ids.close_id && known(
            jobs,
            retired,
            pending,
            r.deps@[m],
        )
}

impl Downstairs {
    /// The reconciliation fields are those of `other`.
    pub open spec fn same_reconcile(self, other: Downstairs) -> bool {
        &&& self.reconcile_task_list == other.reconcile_task_list
        &&& self.reconcile_current_work == other.reconcile_current_work
        &&& self.reconcile_repair_needed == other.reconcile_repair_needed
    }

    /// Fields that reserving repair ids leaves alone.
    pub open spec fn same_jobs(self, other: Downstairs) -> bool {
        &&& self.ds_active == other.ds_active
        &&& self.clients == other.clients
        &&& self.completed == other.completed
        &&& self.write_bytes_outstanding == other.write_bytes_outstanding
        &&& self.ackable_work == other.ackable_work
        &&& self.geometry == other.geometry
        &&& self.retired == other.retired
        &&& self.next_flush == other.next_flush
    }

    /// The extent limit of the first client that has one.
    pub open spec fn extent_limit_spec(self) -> Option<u64> {
        if self.clients@[0].extent_limit is Some {
            self.clients@[0].extent_limit
        } else if self.clients@[1].extent_limit is Some {
            self.clients@[1].extent_limit
        } else {
            self.clients@[2].extent_limit
        }
    }

    /// The extents under repair: from the extent limit up to the highest
    /// extent with reserved ids.
    pub open spec fn under_repair(self) -> Option<(u64, u64)> {
        match self.extent_limit_spec() {
            None => None,
            Some(l) => Some((l, max_reserved_extent(self.reservations(), l))),
        }
    }

    /// Whether a guest job on `blocks` reserves repair ids for extent `eid`:
    /// it touches `eid`, which lies above the extent limit, and it starts at
    /// or below the highest extent under repair.
    pub open spec fn should_reserve(self, blocks: ImpactedBlocks, eid: int) -> bool {
        let es = self.geometry.extent_size;
        match self.under_repair() {
            None => false,
            Some((lo, hi)) => {
                &&& self.repair is Some
                &&& blocks.first_extent_spec(es) <= hi
                &&& blocks.touches_extent(es, eid)
                &&& eid > lo
            },
        }
    }

    fn extent_limit_exec(&self) -> (r: Option<u64>)
        requires
            self.wf(),
        ensures
            r == self.extent_limit_spec(),
    {
        if self.clients[0].extent_limit.is_some() {
            self.clients[0].extent_limit
        } else if self.clients[1].extent_limit.is_some() {
            self.clients[1].extent_limit
        } else {
            self.clients[2].extent_limit
        }
    }

    fn max_reserved_exec(&self, l: u64) -> (r: u64)
        ensures
            r == max_reserved_extent(self.reservations(), l),
    {
        let mut m = l;
        match &self.repair {
            None => {},
            Some(r) => {
                let mut k: usize = 0;
                while k < r.repair_job_ids.len()
                    invariant
                        k <= r.repair_job_ids@.len(),
                        m == max_reserved_extent(r.repair_job_ids@.subrange(0, k as int), l),
                    decreases r.repair_job_ids@.len() - k,
                {
                    assert(r.repair_job_ids@.subrange(0, k + 1).drop_last()
                        == r.repair_job_ids@.subrange(0, k as int));
                    if r.repair_job_ids[k].extent > m {
                        m = r.repair_job_ids[k].extent;
                    }
                    k = k + 1;
                }
                assert(r.repair_job_ids@.subrange(0, r.repair_job_ids@.len() as int)
                    == r.repair_job_ids@);
            },
        }
        m
    }

    /// The extents under repair (see `under_repair`).
    pub fn get_extent_under_repair(&self) -> (r: Option<(u64, u64)>)
        requires
            self.wf(),
        ensures
            r == self.under_repair(),
    {
        match self.extent_limit_exec() {
            None => None,
            Some(l) => Some((l, self.max_reserved_exec(l))),
        }
    }

    /// Position of the reservation for extent `eid`.
    pub(crate) fn find_reservation(&self, eid: u64) -> (r: Option<usize>)
        ensures
            match r {
                Some(k) => k < self.reservations().len() && self.reservations()[k as int].extent
                    == eid,
                None => !has_reservation(self.reservations(), eid),
            },
    {
        match &self.repair {
            None => None,
            Some(r) => {
                assert(self.reservations() == r.repair_job_ids@);
                let mut k: usize = 0;
                while k < r.repair_job_ids.len()
                    invariant
                        self.reservations() == r.repair_job_ids@,
                        k <= r.repair_job_ids@.len(),
                        forall|q: int| 0 <= q < k ==> r.repair_job_ids@[q].extent != eid,
                    decreases r.repair_job_ids@.len() - k,
                {
                    if r.repair_job_ids[k].extent == eid {
                        return Some(k);
                    }
                    k = k + 1;
                }
                None
            },
        }
    }

    /// Reserves the four repair job ids of extent `eid`, unless they are
    /// reserved already.  The close job will follow every active job that
    /// touches the extent.
    pub fn reserve_repair_ids_for_extent(&mut self, eid: u64)
        requires
            old(self).wf(),
            old(self).repair is Some,
            old(self).next_id + 4 <= u64::MAX,
        ensures
            final(self).wf(),
            final(self).same_jobs(*old(self)),
            final(self).repair is Some,
            has_reservation(final(self).reservations(), eid),
            if has_reservation(old(self).reservations(), eid) {
                &&& final(self).reservations() == old(self).reservations()
                &&& final(self).next_id == old(self).next_id
                &&& final(self).pending == old(self).pending
            } else {
                let n = old(self).next_id;
                &&& final(self).next_id == n + 4
                &&& final(self).reservations().drop_last() == old(self).reservations()
                &&& final(self).reservations().len() == old(self).reservations().len() + 1
                &&& final(self).reservations().last().extent == eid
                &&& final(self).reservations().last().ids == crate::types::ExtentRepairIDs {
                    close_id: n,
                    repair_id: (n + 1) as u64,
                    noop_id: (n + 2) as u64,
                    reopen_id: (n + 3) as u64,
                }
                &&& final(self).reservations().last().deps@ == deps_spec(
                    old(self).ds_active@,
                    old(self).reservations(),
                    NewJob::Repair(eid),
                    old(self).geometry.extent_size,
                )
                &&& final(self).pending@ == old(self).pending@.insert(n).insert(
                    (n + 1) as u64,
                ).insert((n + 2) as u64).insert((n + 3) as u64)
            },
            final(self).repair->0.extent_count == old(self).repair->0.extent_count,
            final(self).repair->0.active_extent == old(self).repair->0.active_extent,
            final(self).repair->0.min_id == old(self).repair->0.min_id,
            final(self).repair->0.source_downstairs == old(self).repair->0.source_downstairs,
            final(self).repair->0.repair_downstairs == old(self).repair->0.repair_downstairs,
            final(self).repair->0.aborting_repair == old(self).repair->0.aborting_repair,
            final(self).repair->0.state == old(self).repair->0.state,
    {
        if self.find_reservation(eid).is_some() {
            return;
        }
        let n = self.next_id;
        let close_id = self.next_id();
        let repair_id = self.next_id();
        let noop_id = self.next_id();
        let reopen_id = self.next_id();
        let ids = crate::types::ExtentRepairIDs { close_id, repair_id, noop_id, reopen_id };
        let empty: Vec<Reservation> = Vec::new();
        let deps = deps_for(&self.ds_active, &empty, NewJob::Repair(eid), self.geometry.extent_size);
        proof {
            let e = NewJob::Repair(eid);
            let es = self.geometry.extent_size;
            crate::deps::lemma_repair_no_reopens(empty@, eid, es);
            crate::deps::lemma_repair_no_reopens(self.reservations(), eid, es);
            assert(reserved_reopens_empty(empty@, self.reservations(), e, es));
            assert(deps@ == crate::deps::ids_where(self.ds_active@, |j: DownstairsIO| must_follow(j.work, e, es)) + Seq::<JobId>::empty());
            let p = |j: DownstairsIO| must_follow(j.work, e, es);
            lemma_ids_where(self.ds_active@, p);
            assert(deps@ == crate::deps::ids_where(self.ds_active@, p));
            assert forall|m: int| 0 <= m < deps@.len() implies #[trigger] deps@[m] < close_id
                && known(self.ds_active@, self.retired@, self.pending@, deps@[m]) by {
                let d = deps@[m];
                assert(crate::deps::ids_where(self.ds_active@, p).contains(d));
                let q = choose|q: int|
                    0 <= q < self.ds_active@.len() && self.ds_active@[q].ds_id == d && p(
                        self.ds_active@[q],
                    );
                assert(self.ds_active@[q].ds_id < close_id);
            }
        }
        let res = Reservation { extent: eid, ids, deps };
        let ghost old_pending = self.pending@;
        proof {
            self.pending@ = self.pending@.insert(close_id).insert(repair_id).insert(noop_id).insert(
                reopen_id,
            );
        }
        let ghost before = self.reservations();
        match &mut self.repair {
            Some(r) => {
                r.repair_job_ids.push(res);
            },
            None => {},
        }
        proof {
            let rs = self.reservations();
            assert(rs == before.push(res));
            assert(rs.drop_last() == before);
            assert(rs[rs.len() - 1] == res);
            assert forall|d: JobId| #[trigger] self.pending@.contains(d) implies d < self.next_id
                && !has_id(self.ds_active@, d) by {
                if old_pending.contains(d) {
                } else {
                    if has_id(self.ds_active@, d) {
                        let q = choose|q: int|
                            0 <= q < self.ds_active@.len() && self.ds_active@[q].ds_id == d;
                        assert(self.ds_active@[q].ds_id < n);
                    }
                }
            }
            assert forall|k: int| 0 <= k < rs.len() implies reservation_ok(
                #[trigger] rs[k],
                self.ds_active@,
                self.retired@,
                self.pending@,
            ) by {
                if k < before.len() {
                    assert(rs[k] == before[k]);
                    assert(reservation_ok(before[k], self.ds_active@, self.retired@, old_pending));
                    let r = rs[k];
                    assert forall|m: int| 0 <= m < r.deps@.len() implies #[trigger] r.deps@[m]
                        < r.ids.close_id && known(
                        self.ds_active@,
                        self.retired@,
                        self.pending@,
                        r.deps@[m],
                    ) by {
                        assert(known(self.ds_active@, self.retired@, old_pending, r.deps@[m]));
                    }
                } else {
                    assert(rs[k] == res);
                }
            }
            assert forall|i: int, k: int|
                0 <= i < self.ds_active@.len() && 0 <= k < self.ds_active@[i].work.deps().len()
                    implies {
                &&& #[trigger] self.ds_active@[i].work.deps()[k] < self.ds_active@[i].ds_id
                &&& known(self.ds_active@, self.retired@, self.pending@, self.ds_active@[i].work.deps()[k])
            } by {
                assert(known(self.ds_active@, self.retired@, old_pending, self.ds_active@[i].work.deps()[k]));
            }
            assert(has_reservation(rs, eid)) by {
                assert(rs[rs.len() - 1].extent == eid);
            }
        }
    }
}

impl Downstairs {
    /// Reserves repair ids for every extent of `blocks` that needs them
    /// (see `should_reserve`).
    pub fn check_repair_ids_for_range(&mut self, blocks: ImpactedBlocks)
        requires
            old(self).wf(),
            blocks.valid(),
            old(self).next_id + 4 * (blocks.last_extent_spec(old(self).geometry.extent_size)
                - blocks.first_extent_spec(old(self).geometry.extent_size) + 1) <= u64::MAX,
        ensures
            final(self).wf(),
            final(self).same_jobs(*old(self)),
            old(self).next_id <= final(self).next_id <= old(self).next_id + 4 * (
            blocks.last_extent_spec(old(self).geometry.extent_size)
                - blocks.first_extent_spec(old(self).geometry.extent_size) + 1),
            forall|eid: u64|
                old(self).should_reserve(blocks, eid as int) ==> has_reservation(
                    final(self).reservations(),
                    eid,
                ),
            final(self).reservations().len() >= old(self).reservations().len(),
            forall|k: int|
                0 <= k < old(self).reservations().len() ==> #[trigger] final(self).reservations()[k] == old(self).reservations()[k],
            forall|k: int|
                old(self).reservations().len() <= k < final(self).reservations().len()
                    ==> old(self).should_reserve(blocks, (#[trigger] final(self).reservations()[k]).extent as int),
            forall|k: int|
                old(self).reservations().len() <= k < final(self).reservations().len()
                    ==> (#[trigger] final(self).reservations()[k]).ids.close_id == old(self).next_id + 4 * (k - old(self).reservations().len()),
            final(self).next_id == old(self).next_id + 4 * (final(self).reservations().len() - old(self).reservations().len()),
            old(self).repair is None ==> final(self).repair is None && final(self).next_id == old(self).next_id,
            old(self).repair is Some ==> final(self).repair is Some && final(self).repair->0.state
                == old(self).repair->0.state && final(self).repair->0.active_extent == old(self).repair->0.active_extent && final(self).repair->0.aborting_repair == old(self).repair->0.aborting_repair && final(self).repair->0.extent_count == old(self).repair->0.extent_count && final(self).repair->0.source_downstairs == old(self).repair->0.source_downstairs && final(self).repair->0.repair_downstairs == old(self).repair->0.repair_downstairs && final(self).repair->0.min_id == old(self).repair->0.min_id,
    {
        let es = self.geometry.extent_size;
        let first = blocks.first_extent(es);
        let last = blocks.last_extent(es);
        proof {
            assert(first <= last) by (nonlinear_arith)
                requires
                    first == blocks.first_block as int / es as int,
                    last == blocks.last_block as int / es as int,
                    blocks.first_block <= blocks.last_block,
                    es > 0,
            ;
        }
        let eur = self.get_extent_under_repair();
        let (lo, hi) = match eur {
            None => return,
            Some(x) => x,
        };
        if self.repair.is_none() {
            return;
        }
        proof {
            lemma_max_reserved_ge(self.reservations(), lo);
        }
        let mut future = false;
        let mut eid = first;
        loop
            invariant_except_break
                future == (first <= hi && eid > lo && eid > first),
                old(self).next_id <= self.next_id <= old(self).next_id + 4 * (eid - first),
            invariant
                self.wf(),
                self.same_jobs(*old(self)),
                self.repair is Some,
                first <= eid <= last,
                first == blocks.first_extent_spec(es),
                last == blocks.last_extent_spec(es),
                es == old(self).geometry.extent_size,
                old(self).under_repair() == Some((lo, hi)),
                old(self).repair is Some,
                lo <= hi,
                old(self).next_id + 4 * (last - first + 1) <= u64::MAX,
                forall|e: u64|
                    first <= e < eid && old(self).should_reserve(blocks, e as int)
                        ==> has_reservation(self.reservations(), e),
                self.reservations().len() >= old(self).reservations().len(),
                forall|k: int|
                    0 <= k < old(self).reservations().len() ==> #[trigger] self.reservations()[k]
                        == old(self).reservations()[k],
                forall|k: int|
                    old(self).reservations().len() <= k < self.reservations().len()
                        ==> old(self).should_reserve(blocks, (#[trigger] self.reservations()[k]).extent as int),
                forall|k: int|
                    old(self).reservations().len() <= k < self.reservations().len()
                        ==> (#[trigger] self.reservations()[k]).ids.close_id == old(self).next_id + 4 * (k - old(self).reservations().len()),
                self.next_id == old(self).next_id + 4 * (self.reservations().len() - old(self).reservations().len()),
                self.repair->0.state == old(self).repair->0.state,
                self.repair->0.active_extent == old(self).repair->0.active_extent,
                self.repair->0.aborting_repair == old(self).repair->0.aborting_repair,
                self.repair->0.extent_count == old(self).repair->0.extent_count,
                self.repair->0.source_downstairs == old(self).repair->0.source_downstairs,
                self.repair->0.repair_downstairs == old(self).repair->0.repair_downstairs,
                self.repair->0.min_id == old(self).repair->0.min_id,
            ensures
                self.wf(),
                self.same_jobs(*old(self)),
                self.repair is Some,
                old(self).next_id <= self.next_id <= old(self).next_id + 4 * (last - first + 1),
                forall|e: u64|
                    old(self).should_reserve(blocks, e as int) ==> has_reservation(
                        self.reservations(),
                        e,
                    ),
                self.reservations().len() >= old(self).reservations().len(),
                forall|k: int|
                    0 <= k < old(self).reservations().len() ==> #[trigger] self.reservations()[k]
                        == old(self).reservations()[k],
                forall|k: int|
                    old(self).reservations().len() <= k < self.reservations().len()
                        ==> old(self).should_reserve(blocks, (#[trigger] self.reservations()[k]).extent as int),
                forall|k: int|
                    old(self).reservations().len() <= k < self.reservations().len()
                        ==> (#[trigger] self.reservations()[k]).ids.close_id == old(self).next_id + 4 * (k - old(self).reservations().len()),
                self.next_id == old(self).next_id + 4 * (self.reservations().len() - old(self).reservations().len()),
                self.repair->0.state == old(self).repair->0.state,
                self.repair->0.active_extent == old(self).repair->0.active_extent,
                self.repair->0.aborting_repair == old(self).repair->0.aborting_repair,
                self.repair->0.extent_count == old(self).repair->0.extent_count,
                self.repair->0.source_downstairs == old(self).repair->0.source_downstairs,
                self.repair->0.repair_downstairs == old(self).repair->0.repair_downstairs,
                self.repair->0.min_id == old(self).repair->0.min_id,
            decreases last - eid,
        {
            let ghost before = self.reservations();
            if eid == lo {
                future = true;
            } else if eid > lo && (eid <= hi || future) {
                self.reserve_repair_ids_for_extent(eid);
                future = true;
                proof {
                    let now = self.reservations();
                    assert forall|e: u64|
                        first <= e < eid && old(self).should_reserve(blocks, e as int)
                            implies has_reservation(now, e) by {
                        let k = choose|k: int| 0 <= k < before.len() && before[k].extent == e;
                        if now.len() > before.len() {
                            assert(now.drop_last()[k] == now[k]);
                        }
                        assert(now[k].extent == e);
                    }
                    assert forall|k: int|
                        old(self).reservations().len() <= k < now.len() implies old(self).should_reserve(blocks, (#[trigger] now[k]).extent as int) by {
                        if k < before.len() {
                            if now.len() > before.len() {
                                assert(now.drop_last()[k] == now[k]);
                            }
                        } else {
                            assert(now[k] == now.last());
                        }
                    }
                    assert forall|k: int| old(self).reservations().len() <= k < now.len() implies
                        (#[trigger] now[k]).ids.close_id == old(self).next_id + 4 * (k - old(self).reservations().len()) by {
                        if k < before.len() {
                            if now.len() > before.len() {
                                assert(now.drop_last()[k] == now[k]);
                            }
                        } else {
                            assert(now[k] == now.last());
                        }
                    }
                    assert forall|k: int| 0 <= k < old(self).reservations().len() implies #[trigger] now[k]
                        == old(self).reservations()[k] by {
                        if now.len() > before.len() {
                            assert(now.drop_last()[k] == now[k]);
                        }
                    }
                }
            }
            proof {
                if old(self).should_reserve(blocks, eid as int) {
                    assert(has_reservation(self.reservations(), eid));
                }
            }
            if eid == last {
                break;
            }
            eid = eid + 1;
        }
    }
}

pub proof fn lemma_max_reserved_ge(res: Seq<Reservation>, l: u64)
    ensures
        max_reserved_extent(res, l) >= l,
    decreases res.len(),
{
    if res.len() > 0 {
        lemma_max_reserved_ge(res.drop_last(), l);
    }
}

impl Downstairs {
    /// The client states a new job gets: `New` where the client takes it,
    /// `Skipped` elsewhere.
    pub open spec fn enqueued_states(self, j: DownstairsIO) -> bool {
        &&& j.state@.len() == 3
        &&& forall|c: int|
            0 <= c < 3 ==> #[trigger] j.state@[c] == if self.takes(c, j.work) {
                IOState::New
            } else {
                IOState::Skipped
            }
    }

    /// What enqueueing job `id` with work `w` leaves as it was in `old`: the
    /// retired ids, every client's state, last flush, extent limit and
    /// repair info, the other jobs; each client that skips the job records
    /// it among its skipped jobs, and the job is inserted at its place.
    pub open spec fn enqueued_frame(self, old: Downstairs, id: JobId, w: IOop) -> bool {
        &&& self.completed == old.completed
        &&& self.retired == old.retired
        &&& self.clients@.len() == 3
        &&& forall|c: int|
            0 <= c < 3 ==> {
                &&& (#[trigger] self.clients@[c]).state == old.clients@[c].state
                &&& self.clients@[c].last_flush == old.clients@[c].last_flush
                &&& self.clients@[c].extent_limit == old.clients@[c].extent_limit
                &&& self.clients@[c].repair_info == old.clients@[c].repair_info
                &&& self.clients@[c].skipped_jobs@ == if self.takes(c, w) {
                    old.clients@[c].skipped_jobs@
                } else {
                    old.clients@[c].skipped_jobs@.push(id)
                }
            }
        &&& exists|p: int|
            0 <= p <= old.ds_active@.len() && self.ds_active@ == old.ds_active@.insert(p, self.ds_active@[p])
                && self.ds_active@[p].ds_id == id
        &&& forall|d: JobId| has_id(old.ds_active@, d) ==> has_id(self.ds_active@, d) && #[trigger] self.job(d) == old.job(d)
    }

    /// Whether every client skips job work `w`.
    pub open spec fn skipped_everywhere(self, w: IOop) -> bool {
        !self.takes(0, w) && !self.takes(1, w) && !self.takes(2, w)
    }

    proof fn lemma_deps_known(self, new: NewJob)
        requires
            self.wf(),
        ensures
            forall|k: int|
                0 <= k < deps_spec(self.ds_active@, self.reservations(), new, self.geometry.extent_size).len()
                    ==> #[trigger] deps_spec(self.ds_active@, self.reservations(), new, self.geometry.extent_size)[k]
                    < self.next_id && known(
                    self.ds_active@,
                    self.retired@,
                    self.pending@,
                    deps_spec(self.ds_active@, self.reservations(), new, self.geometry.extent_size)[k],
                ),
    {
        let es = self.geometry.extent_size;
        let p = |j: DownstairsIO| must_follow(j.work, new, es);
        let a = crate::deps::ids_where(self.ds_active@, p);
        let b = crate::deps::reserved_reopens(self.reservations(), new, es);
        lemma_ids_where(self.ds_active@, p);
        lemma_reserved_reopens(self.reservations(), new, es);
        let d = deps_spec(self.ds_active@, self.reservations(), new, es);
        assert(d == a + b);
        assert forall|k: int| 0 <= k < d.len() implies #[trigger] d[k] < self.next_id && known(
            self.ds_active@,
            self.retired@,
            self.pending@,
            d[k],
        ) by {
            if k < a.len() {
                assert(a.contains(d[k]));
                let q = choose|q: int|
                    0 <= q < self.ds_active@.len() && self.ds_active@[q].ds_id == d[k] && p(
                        self.ds_active@[q],
                    );
                assert(self.ds_active@[q].wf());
            } else {
                assert(b[k - a.len()] == d[k]);
                assert(b.contains(d[k]));
                let q = choose|q: int|
                    0 <= q < self.reservations().len() && self.reservations()[q].ids.reopen_id
                        == d[k];
                assert(reservation_ok(self.reservations()[q], self.ds_active@, self.retired@, self.pending@));
            }
        }
    }

    /// Submits a guest read of `blocks`: reserves repair ids where the read
    /// reaches past the extent under repair, allocates the next job id,
    /// computes the dependencies and enqueues the job.
    pub fn submit_read(&mut self, guest_id: u64, blocks: ImpactedBlocks) -> (r: JobId)
        requires
            old(self).wf(),
            blocks.valid(),
            old(self).next_id + 4 * (blocks.last_extent_spec(old(self).geometry.extent_size)
                - blocks.first_extent_spec(old(self).geometry.extent_size) + 1) + 1 <= u64::MAX,
        ensures
            final(self).wf(),
            old(self).next_id <= r,
            old(self).repair is None ==> r == old(self).next_id,
            final(self).next_id == r + 1,
            has_id(final(self).ds_active@, r),
            ({
                let j = final(self).job(r);
                &&& j.ds_id == r
                &&& j.guest_id == guest_id
                &&& j.work is Read
                &&& j.work.blocks_of() == Some(blocks)
                &&& j.work.deps() == deps_spec(
                    old(self).ds_active@,
                    final(self).reservations(),
                    NewJob::Read(blocks),
                    old(self).geometry.extent_size,
                )
                &&& !j.acked
                &&& !j.replay
                &&& final(self).enqueued_states(j)
                &&& final(self).ackable_work@ == if final(self).skipped_everywhere(j.work) {
                    old(self).ackable_work@.push(r)
                } else {
                    old(self).ackable_work@
                }
            }),
            forall|eid: u64|
                old(self).should_reserve(blocks, eid as int) ==> has_reservation(
                    final(self).reservations(),
                    eid,
                ),
            final(self).write_bytes_outstanding == old(self).write_bytes_outstanding,
            final(self).retired == old(self).retired,
            final(self).enqueued_frame(*old(self), r, final(self).job(r).work),
            final(self).geometry == old(self).geometry,
            final(self).next_flush == old(self).next_flush,
    {
        self.check_repair_ids_for_range(blocks);
        proof {
            self.lemma_deps_known(NewJob::Read(blocks));
        }
        let ds_id = self.next_id();
        let es = self.geometry.extent_size;
        let empty_res: Vec<Reservation> = Vec::new();
        let dependencies = match &self.repair {
            Some(rep) => deps_for(&self.ds_active, &rep.repair_job_ids, NewJob::Read(blocks), es),
            None => deps_for(&self.ds_active, &empty_res, NewJob::Read(blocks), es),
        };
        assert(dependencies@ == deps_spec(self.ds_active@, self.reservations(), NewJob::Read(blocks), es));
        let io = DownstairsIO::new(ds_id, guest_id, IOop::Read { dependencies, blocks });
        self.enqueue(io);
        ds_id
    }

    /// Submits a guest write (or write-unwritten) of `data` to `blocks`.  The
    /// job is ready to be acknowledged at once.
    pub fn submit_write(
        &mut self,
        guest_id: u64,
        blocks: ImpactedBlocks,
        data: Vec<u8>,
        is_write_unwritten: bool,
    ) -> (r: JobId)
        requires
            old(self).wf(),
            blocks.valid(),
            old(self).next_id + 4 * (blocks.last_extent_spec(old(self).geometry.extent_size)
                - blocks.first_extent_spec(old(self).geometry.extent_size) + 1) + 1 <= u64::MAX,
            old(self).write_bytes_outstanding + data@.len() <= u64::MAX,
        ensures
            final(self).wf(),
            old(self).next_id <= r,
            old(self).repair is None ==> r == old(self).next_id,
            final(self).next_id == r + 1,
            has_id(final(self).ds_active@, r),
            ({
                let j = final(self).job(r);
                &&& j.ds_id == r
                &&& j.guest_id == guest_id
                &&& if is_write_unwritten { j.work is WriteUnwritten } else { j.work is Write }
                &&& j.work.blocks_of() == Some(blocks)
                &&& j.work.write_data() == data@
                &&& j.work.deps() == deps_spec(
                    old(self).ds_active@,
                    final(self).reservations(),
                    NewJob::Write(blocks),
                    old(self).geometry.extent_size,
                )
                &&& !j.acked
                &&& !j.replay
                &&& final(self).enqueued_states(j)
            }),
            final(self).ackable_work@ == old(self).ackable_work@.push(r),
            forall|eid: u64|
                old(self).should_reserve(blocks, eid as int) ==> has_reservation(
                    final(self).reservations(),
                    eid,
                ),
            final(self).write_bytes_outstanding == old(self).write_bytes_outstanding + data@.len(),
            final(self).retired == old(self).retired,
            final(self).enqueued_frame(*old(self), r, final(self).job(r).work),
            final(self).geometry == old(self).geometry,
            final(self).next_flush == old(self).next_flush,
    {
        self.check_repair_ids_for_range(blocks);
        proof {
            self.lemma_deps_known(NewJob::Write(blocks));
        }
        let ds_id = self.next_id();
        let es = self.geometry.extent_size;
        let empty_res: Vec<Reservation> = Vec::new();
        let dependencies = match &self.repair {
            Some(rep) => deps_for(&self.ds_active, &rep.repair_job_ids, NewJob::Write(blocks), es),
            None => deps_for(&self.ds_active, &empty_res, NewJob::Write(blocks), es),
        };
        assert(dependencies@ == deps_spec(self.ds_active@, self.reservations(), NewJob::Write(blocks), es));
        let work = if is_write_unwritten {
            IOop::WriteUnwritten { dependencies, blocks, data }
        } else {
            IOop::Write { dependencies, blocks, data }
        };
        let io = DownstairsIO::new(ds_id, guest_id, work);
        self.enqueue(io);
        ds_id
    }

    /// Submits a flush: it takes the next job id and the next flush number
    /// together, and follows the most recent flush and every job after it.
    pub fn submit_flush(
        &mut self,
        guest_id: u64,
        gen_number: u64,
        snapshot_details: Option<SnapshotDetails>,
    ) -> (r: JobId)
        requires
            old(self).wf(),
            old(self).next_id < u64::MAX,
            old(self).next_flush < u64::MAX,
        ensures
            final(self).wf(),
            r == old(self).next_id,
            final(self).next_id == r + 1,
            final(self).next_flush == old(self).next_flush + 1,
            has_id(final(self).ds_active@, r),
            ({
                let j = final(self).job(r);
                &&& j.ds_id == r
                &&& j.guest_id == guest_id
                &&& j.work is Flush
                &&& j.work->Flush_flush_number == old(self).next_flush
                &&& j.work->Flush_gen_number == gen_number
                &&& j.work->Flush_snapshot_details == snapshot_details
                &&& j.work->Flush_extent_limit == match old(self).under_repair() {
                    Some((_, hi)) => Some(hi),
                    None => None,
                }
                &&& j.work.deps() == flush_deps_spec(old(self).ds_active@)
                &&& !j.acked
                &&& final(self).enqueued_states(j)
                &&& final(self).ackable_work@ == if final(self).skipped_everywhere(j.work) {
                    old(self).ackable_work@.push(r)
                } else {
                    old(self).ackable_work@
                }
            }),
            final(self).write_bytes_outstanding == old(self).write_bytes_outstanding,
            final(self).retired == old(self).retired,
            final(self).enqueued_frame(*old(self), r, final(self).job(r).work),
            final(self).geometry == old(self).geometry,
            final(self).repair == old(self).repair,
    {
        let ds_id = self.next_id();
        let flush_number = self.next_flush_id();
        let dependencies = deps_for_flush(&self.ds_active);
        proof {
            lemma_flush_deps(self.ds_active@);
            assert forall|k: int| 0 <= k < dependencies@.len() implies #[trigger] dependencies@[k] < ds_id
                && known(self.ds_active@, self.retired@, self.pending@, dependencies@[k]) by {
                assert(flush_deps_spec(self.ds_active@).contains(dependencies@[k]));
                let q = choose|q: int| 0 <= q < self.ds_active@.len() && self.ds_active@[q].ds_id == dependencies@[k];
                assert(self.ds_active@[q].wf());
            }
        }
        let extent_limit = match self.get_extent_under_repair() {
            Some((_, hi)) => Some(hi),
            None => None,
        };
        let work = IOop::Flush { dependencies, flush_number, gen_number, snapshot_details, extent_limit };
        let io = DownstairsIO::new(ds_id, guest_id, work);
        self.enqueue(io);
        ds_id
    }
}

/// A ring of capacity `cap` holding `c`, after `ids` are pushed in order:
/// each push onto a full ring drops the oldest id.
pub open spec fn ring_after(c: Seq<u64>, cap: nat, ids: Seq<u64>) -> Seq<u64>
    decreases ids.len(),
{
    if ids.len() == 0 {
        c
    } else {
        let r = ring_after(c, cap, ids.drop_last());
        if r.len() >= cap {
            r.drop_first().push(ids.last())
        } else {
            r.push(ids.last())
        }
    }
}

/// The ids of `s` that are at least `f`, in order.
pub open spec fn ids_at_least(s: Seq<JobId>, f: JobId) -> Seq<JobId>
    decreases s.len(),
{
    if s.len() == 0 {
        Seq::empty()
    } else if s.last() >= f {
        ids_at_least(s.drop_last(), f).push(s.last())
    } else {
        ids_at_least(s.drop_last(), f)
    }
}

/// The ids of the jobs that a retire check at `flush_id` retires.
pub open spec fn retired_ids(jobs: Seq<DownstairsIO>, flush_id: JobId) -> Set<JobId> {
    Set::new(|d: JobId| exists|k: int| 0 <= k < jobs.len() && jobs[k].ds_id == d && retirable(jobs[k], flush_id))
}

pub proof fn lemma_sum_prefix(s: Seq<DownstairsIO>, i: int)
    requires
        0 <= i <= s.len(),
    ensures
        sum_write_bytes(s.subrange(0, i)) <= sum_write_bytes(s),
    decreases s.len(),
{
    if i < s.len() {
        assert(s.drop_last() == s.subrange(0, s.len() - 1));
        assert(s.subrange(0, i) == s.drop_last().subrange(0, i));
        lemma_sum_prefix(s.drop_last(), i);
        let l = s.last();
        assert(l.work.write_bytes() >= 0);
    } else {
        assert(s.subrange(0, i) == s);
    }
}

impl Downstairs {
    /// Whether a retire check at `ds_id` retires anything: `ds_id` is an
    /// active flush that every client has finished and that was acked.
    pub open spec fn retire_fires(self, ds_id: JobId) -> bool {
        has_id(self.ds_active@, ds_id) && self.job(ds_id).work is Flush && all_terminal(
            self.job(ds_id).state@,
        ) && self.job(ds_id).acked
    }

    pub proof fn lemma_job_unique(self, k: int)
        requires
            self.wf(),
            0 <= k < self.ds_active@.len(),
        ensures
            self.job(self.ds_active@[k].ds_id) == self.ds_active@[k],
    {
        let d = self.ds_active@[k].ds_id;
        let c = choose|c: int| 0 <= c < self.ds_active@.len() && self.ds_active@[c].ds_id == d;
        if c < k {
            assert(self.ds_active@[c].ds_id < self.ds_active@[k].ds_id);
        } else if c > k {
            assert(self.ds_active@[k].ds_id < self.ds_active@[c].ds_id);
        }
    }

    /// Each client forgets its skipped ids below `ds_id`.
    fn trim_skipped(&mut self, ds_id: JobId)
        requires
            old(self).clients@.len() == 3,
        ensures
            final(self).clients@.len() == 3,
            forall|k: int|
                0 <= k < 3 ==> {
                    &&& (#[trigger] final(self).clients@[k]).state == old(self).clients@[k].state
                    &&& final(self).clients@[k].last_flush == old(self).clients@[k].last_flush
                    &&& final(self).clients@[k].extent_limit == old(self).clients@[k].extent_limit
                    &&& final(self).clients@[k].repair_info == old(self).clients@[k].repair_info
                    &&& final(self).clients@[k].skipped_jobs@ == ids_at_least(
                        old(self).clients@[k].skipped_jobs@,
                        ds_id,
                    )
                },
            final(self).ds_active == old(self).ds_active,
            final(self).write_bytes_outstanding == old(self).write_bytes_outstanding,
            final(self).next_id == old(self).next_id,
            final(self).next_flush == old(self).next_flush,
            final(self).completed == old(self).completed,
            final(self).ackable_work == old(self).ackable_work,
            final(self).repair == old(self).repair,
            final(self).geometry == old(self).geometry,
            final(self).upstairs_id == old(self).upstairs_id,
            final(self).session_id == old(self).session_id,
            final(self).next_gw_id == old(self).next_gw_id,
            final(self).retired == old(self).retired,
            final(self).pending == old(self).pending,
            final(self).same_reconcile(*old(self)),
    {
        let mut c: usize = 0;
        while c < 3
            invariant
                c <= 3,
                self.clients@.len() == 3,
                forall|k: int|
                    0 <= k < 3 ==> {
                        &&& (#[trigger] self.clients@[k]).state == old(self).clients@[k].state
                        &&& self.clients@[k].last_flush == old(self).clients@[k].last_flush
                        &&& self.clients@[k].extent_limit == old(self).clients@[k].extent_limit
                        &&& self.clients@[k].repair_info == old(self).clients@[k].repair_info
                        &&& self.clients@[k].skipped_jobs@ == if k < c {
                            ids_at_least(old(self).clients@[k].skipped_jobs@, ds_id)
                        } else {
                            old(self).clients@[k].skipped_jobs@
                        }
                    },
                self.ds_active == old(self).ds_active,
                self.write_bytes_outstanding == old(self).write_bytes_outstanding,
                self.next_id == old(self).next_id,
                self.next_flush == old(self).next_flush,
                self.completed == old(self).completed,
                self.ackable_work == old(self).ackable_work,
                self.repair == old(self).repair,
                self.geometry == old(self).geometry,
                self.upstairs_id == old(self).upstairs_id,
                self.session_id == old(self).session_id,
                self.next_gw_id == old(self).next_gw_id,
                self.retired == old(self).retired,
                self.pending == old(self).pending,
                self.same_reconcile(*old(self)),
            decreases 3 - c,
        {
            let mut trimmed: Vec<JobId> = Vec::new();
            let mut m: usize = 0;
            while m < self.clients[c].skipped_jobs.len()
                invariant
                    c < 3,
                    self.clients@.len() == 3,
                    m <= self.clients@[c as int].skipped_jobs@.len(),
                    trimmed@ == ids_at_least(self.clients@[c as int].skipped_jobs@.subrange(0, m as int), ds_id),
                decreases self.clients@[c as int].skipped_jobs@.len() - m,
            {
                assert(self.clients@[c as int].skipped_jobs@.subrange(0, m + 1).drop_last()
                    == self.clients@[c as int].skipped_jobs@.subrange(0, m as int));
                let x = self.clients[c].skipped_jobs[m];
                if x >= ds_id {
                    trimmed.push(x);
                }
                m = m + 1;
            }
            assert(self.clients@[c as int].skipped_jobs@.subrange(0, m as int)
                == self.clients@[c as int].skipped_jobs@);
            self.clients[c].skipped_jobs = trimmed;
            c = c + 1;
        }
    }

    /// Retires jobs at a flush.  When `ds_id` is a flush that every client
    /// has finished and that was acked, every job up to and including it
    /// that every client has finished and that was acked leaves the active
    /// list and joins the retired ids, its write bytes stop counting as
    /// outstanding, and each client forgets the skipped ids below the flush.
    /// Otherwise nothing changes.
    pub fn retire_check(&mut self, ds_id: JobId)
        requires
            old(self).wf(),
        ensures
            final(self).wf(),
            if old(self).retire_fires(ds_id) {
                &&& final(self).ds_active@ == jobs_without(
                    old(self).ds_active@,
                    |j: DownstairsIO| retirable(j, ds_id),
                )
                &&& final(self).retired@ == old(self).retired@.union(
                    retired_ids(old(self).ds_active@, ds_id),
                )
                &&& forall|c: int|
                    0 <= c < 3 ==> (#[trigger] final(self).clients@[c]).skipped_jobs@
                        == ids_at_least(old(self).clients@[c].skipped_jobs@, ds_id)
                &&& ring_contents(final(self).completed) == ring_after(
                    ring_contents(old(self).completed),
                    COMPLETED_CAPACITY as nat,
                    crate::deps::ids_where(old(self).ds_active@, |j: DownstairsIO| retirable(j, ds_id)),
                )
            } else {
                &&& final(self).ds_active == old(self).ds_active
                &&& final(self).retired == old(self).retired
                &&& final(self).clients == old(self).clients
                &&& final(self).completed == old(self).completed
            },
            forall|c: int|
                0 <= c < 3 ==> {
                    &&& (#[trigger] final(self).clients@[c]).state == old(self).clients@[c].state
                    &&& final(self).clients@[c].last_flush == old(self).clients@[c].last_flush
                    &&& final(self).clients@[c].extent_limit == old(self).clients@[c].extent_limit
                    &&& final(self).clients@[c].repair_info == old(self).clients@[c].repair_info
                },
            final(self).next_id == old(self).next_id,
            final(self).next_flush == old(self).next_flush,
            final(self).pending == old(self).pending,
            final(self).repair == old(self).repair,
            final(self).geometry == old(self).geometry,
            final(self).ackable_work == old(self).ackable_work,
            final(self).upstairs_id == old(self).upstairs_id,
            final(self).session_id == old(self).session_id,
            final(self).next_gw_id == old(self).next_gw_id,
            final(self).same_reconcile(*old(self)),
    {
        let i = match self.find_job(ds_id) {
            None => return,
            Some(i) => i,
        };
        proof {
            self.lemma_job_unique(i as int);
        }
        if !self.ds_active[i].work.is_flush() {
            return;
        }
        if !is_all_terminal(&self.ds_active[i].state) || !self.ds_active[i].acked {
            return;
        }
        let ghost orig = self.ds_active@;
        let mut rest: Vec<DownstairsIO> = Vec::new();
        std::mem::swap(&mut self.ds_active, &mut rest);
        let mut kept: Vec<DownstairsIO> = Vec::new();
        let ghost mut idx: Seq<int> = Seq::empty();
        let ghost mut n: int = 0;
        proof {
            lemma_sum_nonneg(orig);
            assert(orig.subrange(0, 0) =~= Seq::<DownstairsIO>::empty());
            assert(rest@ == orig.subrange(0, orig.len() as int));
            assert(self.retired@ =~= old(self).retired@.union(
                Set::new(|d: JobId| exists|k: int| 0 <= k < n && orig[k].ds_id == d && retirable(orig[k], ds_id))));
        }
        while rest.len() > 0
            invariant
                old(self).wf(),
                orig == old(self).ds_active@,
                0 <= n <= orig.len(),
                rest@ == orig.subrange(n, orig.len() as int),
                kept@ == jobs_without(orig.subrange(0, n), |j: DownstairsIO| retirable(j, ds_id)),
                idx.len() == kept@.len(),
                forall|a: int| 0 <= a < idx.len() ==> 0 <= #[trigger] idx[a] < n && kept@[a] == orig[idx[a]],
                forall|a: int, b: int| 0 <= a < b < idx.len() ==> idx[a] < idx[b],
                ids_increasing(orig),
                forall|q: int| 0 <= q < n ==> (has_id(kept@, #[trigger] orig[q].ds_id)
                    || self.retired@.contains(orig[q].ds_id)),
                self.retired@ == old(self).retired@.union(
                    Set::new(|d: JobId| exists|k: int| 0 <= k < n && orig[k].ds_id == d && retirable(orig[k], ds_id))),
                self.write_bytes_outstanding + sum_write_bytes(orig.subrange(0, n))
                    == sum_write_bytes(orig) + sum_write_bytes(kept@),
                sum_write_bytes(orig) == old(self).write_bytes_outstanding,
                ring_capacity(self.completed) == COMPLETED_CAPACITY,
                forall|x: JobId| #[trigger] ring_contents(self.completed).contains(x) ==> self.retired@.contains(x),
                ring_contents(self.completed) == ring_after(
                    ring_contents(old(self).completed),
                    COMPLETED_CAPACITY as nat,
                    crate::deps::ids_where(orig.subrange(0, n), |j: DownstairsIO| retirable(j, ds_id)),
                ),
                self.same_reconcile(*old(self)),
                self.clients == old(self).clients,
                self.ds_active@.len() == 0,
                self.next_id == old(self).next_id,
                self.next_flush == old(self).next_flush,
                self.pending == old(self).pending,
                self.repair == old(self).repair,
                self.geometry == old(self).geometry,
                self.ackable_work == old(self).ackable_work,
                self.upstairs_id == old(self).upstairs_id,
                self.session_id == old(self).session_id,
                self.next_gw_id == old(self).next_gw_id,
            decreases rest@.len(),
        {
            proof {
                assert(orig.subrange(0, n + 1).drop_last() == orig.subrange(0, n));
                assert(orig.subrange(0, n + 1).last() == orig[n]);
                assert(rest@[0] == orig[n]);
                lemma_sum_prefix(orig, n + 1);
                lemma_sum_nonneg(kept@);
            }
            let ghost old_kept = kept@;
            let ghost old_retired = self.retired@;
            let j = rest.remove(0);
            let retire = j.ds_id <= ds_id && j.acked && j.state.len() == 3 && is_all_terminal(&j.state);
            proof {
                assert(orig[n].wf()) by {
                    assert(old(self).ds_active@[n] == orig[n]);
                }
                assert(retire == retirable(orig[n], ds_id));
            }
            if retire {
                let b = j.work.write_len();
                self.write_bytes_outstanding = self.write_bytes_outstanding - b;
                let ghost ring0 = ring_contents(self.completed);
                ring_push(&mut self.completed, j.ds_id);
                proof {
                    self.retired@ = self.retired@.insert(j.ds_id);
                    lemma_ring_push_contains(ring0, j.ds_id, COMPLETED_CAPACITY as nat, ring_contents(self.completed));
                }
            } else {
                proof {
                    lemma_sum_push(kept@, j);
                    idx = idx.push(n);
                }
                kept.push(j);
            }
            proof {
                assert(rest@ == orig.subrange(n + 1, orig.len() as int));
                let idsn = crate::deps::ids_where(orig.subrange(0, n), |j: DownstairsIO| retirable(j, ds_id));
                let idsn1 = crate::deps::ids_where(orig.subrange(0, n + 1), |j: DownstairsIO| retirable(j, ds_id));
                assert(idsn1 == if retirable(orig[n], ds_id) { idsn.push(orig[n].ds_id) } else { idsn });
                if retire {
                    assert(idsn1.drop_last() == idsn);
                    assert(idsn1.last() == orig[n].ds_id);
                }
                let nn = n + 1;
                assert forall|q: int| 0 <= q < nn implies (has_id(kept@, #[trigger] orig[q].ds_id)
                    || self.retired@.contains(orig[q].ds_id)) by {
                    if q == n {
                        if !retire {
                            assert(kept@[kept@.len() - 1] == orig[q]);
                        }
                    } else {
                        assert(has_id(old_kept, orig[q].ds_id) || old_retired.contains(orig[q].ds_id));
                        if has_id(old_kept, orig[q].ds_id) {
                            let w = choose|w: int| 0 <= w < old_kept.len() && old_kept[w].ds_id == orig[q].ds_id;
                            assert(kept@[w] == old_kept[w]);
                        }
                    }
                }
                assert(self.retired@ =~= old(self).retired@.union(
                    Set::new(|d: JobId| exists|k: int| 0 <= k < nn && orig[k].ds_id == d && retirable(orig[k], ds_id)))) by {
                    assert forall|d: JobId| self.retired@.contains(d) <==> old(self).retired@.union(
                        Set::new(|d: JobId| exists|k: int| 0 <= k < nn && orig[k].ds_id == d && retirable(orig[k], ds_id))).contains(d) by {
                        if exists|k: int| 0 <= k < nn && orig[k].ds_id == d && retirable(orig[k], ds_id) {
                            let k = choose|k: int| 0 <= k < nn && orig[k].ds_id == d && retirable(orig[k], ds_id);
                            if k < n {
                            } else {
                                assert(retire);
                            }
                        }
                    }
                }
                n = nn;
            }
        }
        proof {
            assert(orig.subrange(0, n) == orig);
        }
        self.ds_active = kept;
        self.trim_skipped(ds_id);
        proof {
            let s = self.ds_active@;
            assert(ids_increasing(s)) by {
                assert forall|a: int, b: int| 0 <= a < b < s.len() implies s[a].ds_id < s[b].ds_id by {
                    assert(idx[a] < idx[b]);
                }
            }
            assert forall|a: int| 0 <= a < s.len() implies (#[trigger] s[a]).wf() && s[a].ds_id < self.next_id by {
                assert(old(self).ds_active@[idx[a]] == s[a]);
            }
            assert forall|a: int, k: int| 0 <= a < s.len() && 0 <= k < s[a].work.deps().len() implies {
                &&& #[trigger] s[a].work.deps()[k] < s[a].ds_id
                &&& known(s, self.retired@, self.pending@, s[a].work.deps()[k])
            } by {
                let d = s[a].work.deps()[k];
                assert(old(self).ds_active@[idx[a]] == s[a]);
                assert(known(orig, old(self).retired@, old(self).pending@, d));
                if has_id(orig, d) {
                    let q = choose|q: int| 0 <= q < orig.len() && orig[q].ds_id == d;
                    assert(has_id(s, orig[q].ds_id) || self.retired@.contains(orig[q].ds_id));
                }
            }
            assert forall|d: JobId| #[trigger] self.pending@.contains(d) implies d < self.next_id
                && !has_id(self.ds_active@, d) by {
                if has_id(s, d) {
                    let w = choose|w: int| 0 <= w < s.len() && s[w].ds_id == d;
                    assert(orig[idx[w]].ds_id == d);
                }
            }
            assert forall|k: int| 0 <= k < self.reservations().len() implies reservation_ok(
                #[trigger] self.reservations()[k],
                s,
                self.retired@,
                self.pending@,
            ) by {
                let r = self.reservations()[k];
                assert(self.reservations() == old(self).reservations());
                assert(reservation_ok(old(self).reservations()[k], orig, old(self).retired@, old(self).pending@));
                assert forall|m: int| 0 <= m < r.deps@.len() implies #[trigger] r.deps@[m]
                    < r.ids.close_id && known(s, self.retired@, self.pending@, r.deps@[m]) by {
                    let d = r.deps@[m];
                    if has_id(orig, d) {
                        let q = choose|q: int| 0 <= q < orig.len() && orig[q].ds_id == d;
                        assert(has_id(s, orig[q].ds_id) || self.retired@.contains(orig[q].ds_id));
                    }
                }
            }
            assert(self.retired@ =~= old(self).retired@.union(retired_ids(orig, ds_id)));
        }
    }
}

/// Two job sequences that differ only in per-job bookkeeping: the same ids
/// and work at every place.
pub open spec fn same_shape(s: Seq<DownstairsIO>, t: Seq<DownstairsIO>) -> bool {
    &&& s.len() == t.len()
    &&& forall|k: int|
        0 <= k < s.len() ==> (#[trigger] t[k]).ds_id == s[k].ds_id && t[k].work == s[k].work
            && t[k].wf()
}

pub proof fn lemma_same_shape(s: Seq<DownstairsIO>, t: Seq<DownstairsIO>, retired: Set<JobId>, pending: Set<JobId>)
    requires
        same_shape(s, t),
    ensures
        forall|d: JobId| has_id(s, d) <==> has_id(t, d),
        ids_increasing(s) ==> ids_increasing(t),
        deps_ok(s, retired, pending) ==> deps_ok(t, retired, pending),
        sum_write_bytes(s) == sum_write_bytes(t),
    decreases s.len(),
{
    assert forall|d: JobId| has_id(s, d) <==> has_id(t, d) by {
        if has_id(s, d) {
            let k = choose|k: int| 0 <= k < s.len() && s[k].ds_id == d;
            assert(t[k].ds_id == d);
        }
        if has_id(t, d) {
            let k = choose|k: int| 0 <= k < t.len() && t[k].ds_id == d;
            assert(s[k].ds_id == d);
        }
    }
    if deps_ok(s, retired, pending) {
        assert forall|i: int, k: int| 0 <= i < t.len() && 0 <= k < t[i].work.deps().len() implies {
            &&& #[trigger] t[i].work.deps()[k] < t[i].ds_id
            &&& known(t, retired, pending, t[i].work.deps()[k])
        } by {
            assert(s[i].work.deps()[k] < s[i].ds_id);
        }
    }
    if s.len() > 0 {
        assert(same_shape(s.drop_last(), t.drop_last())) by {
            assert forall|k: int| 0 <= k < s.drop_last().len() implies (#[trigger] t.drop_last()[k]).ds_id
                == s.drop_last()[k].ds_id && t.drop_last()[k].work == s.drop_last()[k].work
                && t.drop_last()[k].wf() by {
                assert(t.drop_last()[k] == t[k]);
                assert(s.drop_last()[k] == s[k]);
            }
        }
        lemma_same_shape(s.drop_last(), t.drop_last(), retired, pending);
        assert(t.last() == t[t.len() - 1]);
    }
}

/// The content hashes of a read response.
pub open spec fn response_hashes(r: Seq<ReadResponse>) -> Seq<u64> {
    r.map_values(|x: ReadResponse| x.hash)
}

/// The state a reply leaves a job in on the replying client.
pub open spec fn reply_state(responses: Result<Vec<ReadResponse>, CrucibleError>) -> IOState {
    match responses {
        Ok(_) => IOState::Done,
        Err(e) => IOState::Error(e),
    }
}

impl Downstairs {
    /// Whether a reply from client `c` for job `ds_id` would be a read whose
    /// content contradicts an earlier reply: a fatal condition that callers
    /// test before recording the reply.
    pub open spec fn mismatched_reply(self, ds_id: JobId, c: ClientId, responses: Result<Vec<ReadResponse>, CrucibleError>) -> bool {
        has_id(self.ds_active@, ds_id) && !(self.job(ds_id).state@[c as int] is Skipped) && hash_mismatch(
            self.job(ds_id),
            responses,
        )
    }

    /// Tests a reply for a content mismatch (see `mismatched_reply`).
    pub fn read_hash_mismatch(&self, ds_id: JobId, c: ClientId, responses: &Result<Vec<ReadResponse>, CrucibleError>) -> (r: bool)
        requires
            self.wf(),
            c < 3,
        ensures
            r == self.mismatched_reply(ds_id, c, *responses),
    {
        let i = match self.find_job(ds_id) {
            None => return false,
            Some(i) => i,
        };
        proof {
            self.lemma_job_unique(i as int);
            assert(self.ds_active@[i as int].wf());
        }
        if matches!(self.ds_active[i].state[c], IOState::Skipped) {
            return false;
        }
        match responses {
            Err(_) => false,
            Ok(rs) => {
                if !matches!(self.ds_active[i].work, IOop::Read { .. }) || self.ds_active[i].replay
                    || self.ds_active[i].read_response_hashes.len() == 0 {
                    return false;
                }
                let hashes = hashes_of(rs);
                !same_ids(&self.ds_active[i].read_response_hashes, &hashes)
            },
        }
    }
}

/// Whether a successful read reply contradicts the content recorded from an
/// earlier one (a replayed job is exempt: its data may have changed).
pub open spec fn hash_mismatch(j: DownstairsIO, responses: Result<Vec<ReadResponse>, CrucibleError>) -> bool {
    &&& responses is Ok
    &&& j.work is Read
    &&& !j.replay
    &&& j.read_response_hashes@.len() > 0
    &&& j.read_response_hashes@ != response_hashes(responses->Ok_0@)
}

fn hashes_of(r: &Vec<ReadResponse>) -> (h: Vec<u64>)
    ensures
        h@ == response_hashes(r@),
{
    let mut h: Vec<u64> = Vec::new();
    let mut i: usize = 0;
    while i < r.len()
        invariant
            i <= r@.len(),
            h@ == response_hashes(r@.subrange(0, i as int)),
        decreases r@.len() - i,
    {
        assert(r@.subrange(0, i + 1) == r@.subrange(0, i as int).push(r@[i as int]));
        h.push(r[i].hash);
        i = i + 1;
    }
    assert(r@.subrange(0, r@.len() as int) == r@);
    h
}

fn same_ids(a: &Vec<u64>, b: &Vec<u64>) -> (r: bool)
    ensures
        r == (a@ == b@),
{
    if a.len() != b.len() {
        return false;
    }
    let mut i: usize = 0;
    while i < a.len()
        invariant
            a@.len() == b@.len(),
            i <= a@.len(),
            forall|k: int| 0 <= k < i ==> a@[k] == b@[k],
        decreases a@.len() - i,
    {
        if a[i] != b[i] {
            return false;
        }
        i = i + 1;
    }
    assert(a@ =~= b@);
    true
}

impl Downstairs {
    /// Everything but the active jobs' bookkeeping is as in `other`.
    pub open spec fn same_but_job_states(self, other: Downstairs) -> bool {
        &&& same_shape(other.ds_active@, self.ds_active@)
        &&& self.clients@.len() == 3
        &&& self.geometry == other.geometry
        &&& self.completed == other.completed
        &&& self.next_id == other.next_id
        &&& self.retired == other.retired
        &&& self.pending == other.pending
        &&& self.repair == other.repair
        &&& self.write_bytes_outstanding == other.write_bytes_outstanding
    }

    /// Changing only the clients' bookkeeping keeps well-formedness.
    pub proof fn lemma_wf_clients_only(self, other: Downstairs)
        requires
            other.wf(),
            self.clients@.len() == 3,
            self.ds_active == other.ds_active,
            self.geometry == other.geometry,
            self.completed == other.completed,
            self.next_id == other.next_id,
            self.retired == other.retired,
            self.pending == other.pending,
            self.repair == other.repair,
            self.write_bytes_outstanding == other.write_bytes_outstanding,
        ensures
            self.wf(),
    {
        assert(self.reservations() == other.reservations());
    }

    pub proof fn lemma_wf_same_shape(self, other: Downstairs)
        requires
            other.wf(),
            self.same_but_job_states(other),
        ensures
            self.wf(),
    {
        lemma_same_shape(other.ds_active@, self.ds_active@, self.retired@, self.pending@);
        assert forall|i: int| 0 <= i < self.ds_active@.len() implies (#[trigger] self.ds_active@[i]).wf()
            && self.ds_active@[i].ds_id < self.next_id by {
            assert(other.ds_active@[i].ds_id < other.next_id);
        }
        assert(self.reservations() == other.reservations());
        assert forall|k: int| 0 <= k < self.reservations().len() implies reservation_ok(
            #[trigger] self.reservations()[k],
            self.ds_active@,
            self.retired@,
            self.pending@,
        ) by {
            let r = self.reservations()[k];
            assert(reservation_ok(other.reservations()[k], other.ds_active@, other.retired@, other.pending@));
            assert forall|m: int| 0 <= m < r.deps@.len() implies #[trigger] r.deps@[m]
                < r.ids.close_id && known(self.ds_active@, self.retired@, self.pending@, r.deps@[m]) by {
                assert(known(other.ds_active@, other.retired@, other.pending@, r.deps@[m]));
            }
        }
        assert forall|d: JobId| #[trigger] self.pending@.contains(d) implies d < self.next_id
            && !has_id(self.ds_active@, d) by {
            assert(other.pending@.contains(d));
        }
    }

    /// Records a client's reply to job `ds_id`.
    ///
    /// An unknown job gives `UnknownJob`, and a reply for a job the client
    /// skipped is ignored (`Ok(false)`); nothing changes then.  A successful
    /// read reply whose content contradicts an earlier one is fatal and is
    /// left out (callers test `read_hash_mismatch` first).  Otherwise the
    /// client's state becomes `Done` or `Error`, the first successful read
    /// reply is kept for the guest, a finished flush becomes the client's
    /// last flush, and the extent metadata of a repair close is kept.  The
    /// result says whether the job just became ready to acknowledge; an
    /// acked job is then checked for retirement.
    pub fn process_ds_completion(
        &mut self,
        ds_id: JobId,
        client_id: ClientId,
        responses: Result<Vec<ReadResponse>, CrucibleError>,
        extent_info: Option<ExtentInfo>,
    ) -> (r: Result<bool, CrucibleError>)
        requires
            old(self).wf(),
            client_id < 3,
            !old(self).mismatched_reply(ds_id, client_id, responses),
        ensures
            final(self).wf(),
            !has_id(old(self).ds_active@, ds_id) ==> r == Err::<bool, CrucibleError>(CrucibleError::UnknownJob),
            has_id(old(self).ds_active@, ds_id) ==> {
                let j = old(self).job(ds_id);
                let st = j.state@.update(client_id as int, reply_state(responses));
                if j.state@[client_id as int] is Skipped {
                    r == Ok::<bool, CrucibleError>(false)
                } else {
                    &&& r == Ok::<bool, CrucibleError>(!j.acked && !old(self).ackable_work@.contains(ds_id)
                        && ack_ready(j.work, st))
                    &&& final(self).ackable_work@ == if r == Ok::<bool, CrucibleError>(true) {
                        old(self).ackable_work@.push(ds_id)
                    } else {
                        old(self).ackable_work@
                    }
                    &&& !(j.acked && j.work is Flush && all_terminal(st)) ==> {
                        &&& has_id(final(self).ds_active@, ds_id)
                        &&& final(self).job(ds_id).state@ == st
                        &&& final(self).job(ds_id).work == j.work
                        &&& final(self).job(ds_id).acked == j.acked
                        &&& final(self).job(ds_id).replay == j.replay
                        &&& (j.data is Some ==> final(self).job(ds_id).data == j.data)
                        &&& (j.work is Read && responses is Ok && j.read_response_hashes@.len() == 0)
                            ==> final(self).job(ds_id).read_response_hashes@ == response_hashes(
                            responses->Ok_0@,
                        )
                        &&& (!(j.work is Read && responses is Ok && j.read_response_hashes@.len() == 0))
                            ==> final(self).job(ds_id).read_response_hashes == j.read_response_hashes
                        &&& forall|d: JobId| d != ds_id && has_id(old(self).ds_active@, d) ==> has_id(final(self).ds_active@, d)
                            && #[trigger] final(self).job(d) == old(self).job(d)
                        &&& final(self).ds_active@.len() == old(self).ds_active@.len()
                        &&& forall|d: JobId| #[trigger] has_id(final(self).ds_active@, d) ==> has_id(old(self).ds_active@, d)
                        &&& final(self).completed == old(self).completed
                        &&& final(self).retired == old(self).retired
                        &&& forall|c: int| 0 <= c < 3 && c != client_id ==> #[trigger] final(self).clients@[c] == old(self).clients@[c]
                        &&& final(self).clients@[client_id as int].skipped_jobs == old(self).clients@[client_id as int].skipped_jobs
                    }
                    &&& (j.acked && j.work is Flush && all_terminal(st)) ==> {
                        &&& final(self).retired@.contains(ds_id)
                        &&& final(self).ds_active@ == jobs_without(
                            old(self).ds_active@,
                            |x: DownstairsIO| retirable_with(x, ds_id, st),
                        )
                        &&& ring_contents(final(self).completed) == ring_after(
                            ring_contents(old(self).completed),
                            COMPLETED_CAPACITY as nat,
                            crate::deps::ids_where(old(self).ds_active@, |x: DownstairsIO| retirable_with(x, ds_id, st)),
                        )
                    }
                    &&& final(self).clients@[client_id as int].last_flush == if j.work is Flush && responses is Ok {
                        ds_id
                    } else {
                        old(self).clients@[client_id as int].last_flush
                    }
                    &&& final(self).clients@[client_id as int].repair_info == if j.work is ExtentFlushClose && responses is Ok && extent_info is Some {
                        extent_info
                    } else {
                        old(self).clients@[client_id as int].repair_info
                    }
                }
            },
            (!has_id(old(self).ds_active@, ds_id) || old(self).job(ds_id).state@[client_id as int] is Skipped)
                ==> *final(self) == *old(self),
            forall|c: int| 0 <= c < 3 ==> (#[trigger] final(self).clients@[c]).state == old(self).clients@[c].state,
            forall|c: int| 0 <= c < 3 ==> (#[trigger] final(self).clients@[c]).extent_limit == old(self).clients@[c].extent_limit,
            forall|c: int| 0 <= c < 3 && c != client_id ==> (#[trigger] final(self).clients@[c]).last_flush == old(self).clients@[c].last_flush,
            final(self).next_id == old(self).next_id,
            final(self).next_flush == old(self).next_flush,
            final(self).repair == old(self).repair,
            final(self).geometry == old(self).geometry,
            final(self).pending == old(self).pending,
            final(self).upstairs_id == old(self).upstairs_id,
            final(self).session_id == old(self).session_id,
            final(self).next_gw_id == old(self).next_gw_id,
            final(self).same_reconcile(*old(self)),
    {
        let i = match self.find_job(ds_id) {
            None => return Err(CrucibleError::UnknownJob),
            Some(i) => i,
        };
        proof {
            self.lemma_job_unique(i as int);
            assert(self.ds_active@[i as int].wf());
        }
        if matches!(self.ds_active[i].state[client_id], IOState::Skipped) {
            return Ok(false);
        }
        let is_read = matches!(self.ds_active[i].work, IOop::Read { .. });
        let is_flush = self.ds_active[i].work.is_flush();
        let is_close = matches!(self.ds_active[i].work, IOop::ExtentFlushClose { .. });
        let ghost old_self = *self;
        let new_state = match &responses {
            Ok(_) => IOState::Done,
            Err(e) => IOState::Error(*e),
        };
        if let Ok(rs) = &responses {
            if is_read {
                let hashes = hashes_of(rs);
                if self.ds_active[i].read_response_hashes.len() == 0 {
                    self.ds_active[i].read_response_hashes = hashes;
                }
            }
        }
        self.ds_active[i].state.set(client_id, new_state);
        let acked = self.ds_active[i].acked;
        match responses {
            Ok(rs) => {
                if is_read && self.ds_active[i].data.is_none() && !acked {
                    self.ds_active[i].data = Some(rs);
                }
                if is_flush {
                    self.clients[client_id].last_flush = ds_id;
                }
                if is_close && extent_info.is_some() {
                    self.clients[client_id].repair_info = extent_info;
                }
            },
            Err(_) => {},
        }
        proof {
            assert(self.same_but_job_states(old_self)) by {
                assert forall|k: int| 0 <= k < old_self.ds_active@.len() implies (#[trigger] self.ds_active@[k]).ds_id
                    == old_self.ds_active@[k].ds_id && self.ds_active@[k].work == old_self.ds_active@[k].work
                    && self.ds_active@[k].wf() by {
                    if k != i {
                        assert(self.ds_active@[k] == old_self.ds_active@[k]);
                    }
                }
            }
            self.lemma_wf_same_shape(old_self);
            self.lemma_job_unique(i as int);
            assert(self.wf());
        }
        assert(self.wf());
        let newly = if !acked && !contains_id(&self.ackable_work, ds_id) {
            is_ack_ready(&self.ds_active[i])
        } else {
            false
        };
        let ghost before_push = *self;
        if newly {
            self.ackable_work.push(ds_id);
        }
        proof {
            assert(self.ds_active == before_push.ds_active);
            assert(self.completed == before_push.completed);
            assert(self.clients == before_push.clients);
            assert(self.repair == before_push.repair);
            assert(self.retired == before_push.retired);
            assert(self.pending == before_push.pending);
            assert(self.reservations() == before_push.reservations());
        }
        assert(self.wf());
        proof {
            if acked {
                assert(self.ds_active@[i as int].ds_id == ds_id);
                if self.ds_active@[i as int].work is Flush && all_terminal(self.ds_active@[i as int].state@) {
                    assert(retirable(self.ds_active@[i as int], ds_id));
                    assert(retired_ids(self.ds_active@, ds_id).contains(ds_id));
                    assert(self.retire_fires(ds_id));
                }
            }
            {
                assert forall|d: JobId| d != ds_id && has_id(old(self).ds_active@, d) implies has_id(self.ds_active@, d)
                    && #[trigger] self.job(d) == old(self).job(d) by {
                    let k = choose|k: int| 0 <= k < old(self).ds_active@.len() && old(self).ds_active@[k].ds_id == d;
                    old(self).lemma_job_unique(k);
                    assert(self.ds_active@[k] == old(self).ds_active@[k]);
                    self.lemma_job_unique(k);
                }
            }
        }
        let ghost mid = self.ds_active@;
        proof {
            assert forall|k: int| 0 <= k < mid.len() && k != i implies mid[k] == old(self).ds_active@[k] by {}
            lemma_same_shape(old(self).ds_active@, mid, self.retired@, self.pending@);
        }
        if acked {
            self.retire_check(ds_id);
            proof {
                let st = mid[i as int].state@;
                if mid[i as int].work is Flush && all_terminal(st) {
                    let p1 = |x: DownstairsIO| retirable(x, ds_id);
                    let p2 = |x: DownstairsIO| retirable_with(x, ds_id, st);
                    assert forall|k: int| 0 <= k < mid.len() implies p1(mid[k]) == p2(old(self).ds_active@[k])
                        && (!p1(mid[k]) ==> mid[k] == old(self).ds_active@[k])
                        && mid[k].ds_id == old(self).ds_active@[k].ds_id by {
                        if k != i {
                            if old(self).ds_active@[k].ds_id == ds_id {
                                assert(old(self).ds_active@[k].ds_id == old(self).ds_active@[i as int].ds_id);
                            }
                        }
                    }
                    lemma_jobs_without_congruent(mid, old(self).ds_active@, p1, p2);
                    lemma_ids_where_congruent(mid, old(self).ds_active@, p1, p2);
                }
            }
        }
        Ok(newly)
    }

    /// Marks job `ds_id` acknowledged, if it was waiting for that; returns
    /// whether it was.
    pub fn ack(&mut self, ds_id: JobId) -> (r: bool)
        requires
            old(self).wf(),
        ensures
            final(self).wf(),
            r == (old(self).ackable_work@.contains(ds_id) && has_id(old(self).ds_active@, ds_id)
                && !old(self).job(ds_id).acked),
            r ==> has_id(final(self).ds_active@, ds_id) && final(self).job(ds_id).acked
                && !final(self).ackable_work@.contains(ds_id) && final(self).job(ds_id).state
                == old(self).job(ds_id).state && final(self).job(ds_id).work == old(self).job(ds_id).work
                && final(self).job(ds_id).data == old(self).job(ds_id).data,
            r ==> final(self).job(ds_id).replay == old(self).job(ds_id).replay
                && final(self).ds_active@.len() == old(self).ds_active@.len()
                && forall|d: JobId| d != ds_id && has_id(old(self).ds_active@, d) ==> has_id(final(self).ds_active@, d)
                    && #[trigger] final(self).job(d) == old(self).job(d),
            !r ==> final(self).ds_active == old(self).ds_active && final(self).ackable_work
                == old(self).ackable_work,
            final(self).clients == old(self).clients,
            final(self).next_id == old(self).next_id,
            final(self).next_flush == old(self).next_flush,
            final(self).repair == old(self).repair,
            final(self).geometry == old(self).geometry,
            final(self).retired == old(self).retired,
            final(self).pending == old(self).pending,
            final(self).completed == old(self).completed,
            final(self).write_bytes_outstanding == old(self).write_bytes_outstanding,
            final(self).upstairs_id == old(self).upstairs_id,
            final(self).session_id == old(self).session_id,
            final(self).next_gw_id == old(self).next_gw_id,
    {
        if !contains_id(&self.ackable_work, ds_id) {
            return false;
        }
        let i = match self.find_job(ds_id) {
            None => return false,
            Some(i) => i,
        };
        proof {
            self.lemma_job_unique(i as int);
        }
        if self.ds_active[i].acked {
            return false;
        }
        let ghost old_self = *self;
        self.ds_active[i].acked = true;
        remove_id(&mut self.ackable_work, ds_id);
        proof {
            assert(self.same_but_job_states(old_self)) by {
                assert forall|k: int| 0 <= k < old_self.ds_active@.len() implies (#[trigger] self.ds_active@[k]).ds_id
                    == old_self.ds_active@[k].ds_id && self.ds_active@[k].work == old_self.ds_active@[k].work
                    && self.ds_active@[k].wf() by {
                    if k != i {
                        assert(self.ds_active@[k] == old_self.ds_active@[k]);
                    }
                }
            }
            self.lemma_wf_same_shape(old_self);
            self.lemma_job_unique(i as int);
            assert forall|d: JobId| d != ds_id && has_id(old(self).ds_active@, d) implies has_id(self.ds_active@, d)
                && #[trigger] self.job(d) == old(self).job(d) by {
                let k = choose|k: int| 0 <= k < old(self).ds_active@.len() && old(self).ds_active@[k].ds_id == d;
                old(self).lemma_job_unique(k);
                assert(self.ds_active@[k] == old(self).ds_active@[k]);
                self.lemma_job_unique(k);
            }
        }
        true
    }

    /// Acknowledges job `ds_id` to the guest: marks it acked, hands back its
    /// result and any read payload, and checks it for retirement.  `None`
    /// when the job was not waiting to be acknowledged.
    pub fn ack_job(&mut self, ds_id: JobId) -> (r: Option<(Result<(), CrucibleError>, Option<Vec<ReadResponse>>)>)
        requires
            old(self).wf(),
        ensures
            final(self).wf(),
            r is Some == (old(self).ackable_work@.contains(ds_id) && has_id(old(self).ds_active@, ds_id)
                && !old(self).job(ds_id).acked),
            r is Some ==> r->Some_0.0 == job_result(old(self).job(ds_id).work, old(self).job(ds_id).state@),
            r is Some ==> r->Some_0.1 == old(self).job(ds_id).data,
            r is Some ==> !final(self).ackable_work@.contains(ds_id),
            final(self).next_id == old(self).next_id,
            final(self).repair == old(self).repair,
            final(self).geometry == old(self).geometry,
            final(self).pending == old(self).pending,
    {
        if !self.ack(ds_id) {
            return None;
        }
        let i = match self.find_job(ds_id) {
            None => return None,
            Some(i) => i,
        };
        proof {
            self.lemma_job_unique(i as int);
        }
        let res = result(&self.ds_active[i]);
        let ghost old_self = *self;
        let data = self.ds_active[i].data.take();
        proof {
            assert(self.same_but_job_states(old_self)) by {
                assert forall|k: int| 0 <= k < old_self.ds_active@.len() implies (#[trigger] self.ds_active@[k]).ds_id
                    == old_self.ds_active@[k].ds_id && self.ds_active@[k].work == old_self.ds_active@[k].work
                    && self.ds_active@[k].wf() by {
                    if k != i {
                        assert(self.ds_active@[k] == old_self.ds_active@[k]);
                    }
                }
            }
            self.lemma_wf_same_shape(old_self);
        }
        self.retire_check(ds_id);
        Some((res, data))
    }
}

/// Every job that stays after a retirement was there before.
pub proof fn lemma_jobs_without_subset(s: Seq<DownstairsIO>, p: spec_fn(DownstairsIO) -> bool)
    ensures
        forall|k: int|
            0 <= k < jobs_without(s, p).len() ==> exists|q: int|
                0 <= q < s.len() && s[q] == #[trigger] jobs_without(s, p)[k],
    decreases s.len(),
{
    if s.len() > 0 {
        let init = s.drop_last();
        lemma_jobs_without_subset(init, p);
        let r = jobs_without(s, p);
        let ri = jobs_without(init, p);
        assert forall|k: int| 0 <= k < r.len() implies exists|q: int|
            0 <= q < s.len() && s[q] == #[trigger] r[k] by {
            if k < ri.len() {
                assert(r[k] == ri[k]);
                let q = choose|q: int| 0 <= q < init.len() && init[q] == #[trigger] ri[k];
                assert(s[q] == init[q]);
            } else {
                assert(r[k] == s.last());
                assert(s[s.len() - 1] == s.last());
            }
        }
    }
}

/// Client `c`'s state in `s` moved to `Skipped` when it was `New` or
/// `InProgress`.
pub open spec fn skipped_on(s: Seq<IOState>, c: int) -> Seq<IOState> {
    if s[c] is New || s[c] is InProgress {
        s.update(c, IOState::Skipped)
    } else {
        s
    }
}

/// Whether a retire check at flush `f` retires `x`, with the flush's states
/// taken as `st`.
pub open spec fn retirable_with(x: DownstairsIO, f: JobId, st: Seq<IOState>) -> bool {
    x.ds_id <= f && x.acked && all_terminal(if x.ds_id == f { st } else { x.state@ })
}

pub proof fn lemma_jobs_without_congruent(
    a: Seq<DownstairsIO>,
    b: Seq<DownstairsIO>,
    pa: spec_fn(DownstairsIO) -> bool,
    pb: spec_fn(DownstairsIO) -> bool,
)
    requires
        a.len() == b.len(),
        forall|k: int| 0 <= k < a.len() ==> pa(a[k]) == pb(b[k]) && (!pa(a[k]) ==> a[k] == b[k]),
    ensures
        jobs_without(a, pa) == jobs_without(b, pb),
    decreases a.len(),
{
    if a.len() > 0 {
        assert forall|k: int| 0 <= k < a.drop_last().len() implies pa(a.drop_last()[k]) == pb(b.drop_last()[k])
            && (!pa(a.drop_last()[k]) ==> a.drop_last()[k] == b.drop_last()[k]) by {
            assert(a.drop_last()[k] == a[k]);
            assert(b.drop_last()[k] == b[k]);
        }
        lemma_jobs_without_congruent(a.drop_last(), b.drop_last(), pa, pb);
        assert(a.last() == a[a.len() - 1]);
        assert(b.last() == b[b.len() - 1]);
    }
}

pub proof fn lemma_ids_where_congruent(
    a: Seq<DownstairsIO>,
    b: Seq<DownstairsIO>,
    pa: spec_fn(DownstairsIO) -> bool,
    pb: spec_fn(DownstairsIO) -> bool,
)
    requires
        a.len() == b.len(),
        forall|k: int| 0 <= k < a.len() ==> pa(a[k]) == pb(b[k]) && a[k].ds_id == b[k].ds_id,
    ensures
        crate::deps::ids_where(a, pa) == crate::deps::ids_where(b, pb),
    decreases a.len(),
{
    if a.len() > 0 {
        assert forall|k: int| 0 <= k < a.drop_last().len() implies pa(a.drop_last()[k]) == pb(b.drop_last()[k])
            && a.drop_last()[k].ds_id == b.drop_last()[k].ds_id by {
            assert(a.drop_last()[k] == a[k]);
            assert(b.drop_last()[k] == b[k]);
        }
        lemma_ids_where_congruent(a.drop_last(), b.drop_last(), pa, pb);
        assert(a.last() == a[a.len() - 1]);
        assert(b.last() == b[b.len() - 1]);
    }
}

/// A job that is not retired stays among those left.
pub proof fn lemma_jobs_without_keeps(s: Seq<DownstairsIO>, p: spec_fn(DownstairsIO) -> bool, k: int)
    requires
        0 <= k < s.len(),
        !p(s[k]),
    ensures
        exists|m: int| 0 <= m < jobs_without(s, p).len() && jobs_without(s, p)[m] == s[k],
    decreases s.len(),
{
    let init = s.drop_last();
    let r = jobs_without(s, p);
    if k == s.len() - 1 {
        assert(s[k] == s.last());
        assert(r[r.len() - 1] == s[k]);
    } else {
        assert(init[k] == s[k]);
        lemma_jobs_without_keeps(init, p, k);
        let ri = jobs_without(init, p);
        let m = choose|m: int| 0 <= m < ri.len() && ri[m] == init[k];
        if p(s.last()) {
            assert(r == ri);
        } else {
            assert(r[m] == ri[m]);
        }
    }
}

/// A reply from a downstairs client about one job.
#[derive(Debug)]
pub struct Response {
    pub upstairs_id: u128,
    pub session_id: u128,
    pub job_id: JobId,
    pub result: Result<Vec<ReadResponse>, CrucibleError>,
    pub extent_info: Option<ExtentInfo>,
}

impl Downstairs {
    /// Runs a retire check at each of `ids`; jobs that were not acked stay
    /// as they are, and no job becomes `New` or `InProgress` on client `c`.
    #[verifier::rlimit(100)]
    fn retire_listed(&mut self, to_check: &Vec<JobId>, c: ClientId)
        requires
            old(self).wf(),
            c < 3,
            forall|q: int|
                0 <= q < old(self).ds_active@.len() ==> !(#[trigger] old(self).ds_active@[q].state@[c as int] is New)
                    && !(old(self).ds_active@[q].state@[c as int] is InProgress),
        ensures
            final(self).wf(),
            forall|q: int|
                0 <= q < final(self).ds_active@.len() ==> !(#[trigger] final(self).ds_active@[q].state@[c as int] is New)
                    && !(final(self).ds_active@[q].state@[c as int] is InProgress),
            forall|d: JobId| has_id(old(self).ds_active@, d) && !old(self).job(d).acked ==>
                has_id(final(self).ds_active@, d) && #[trigger] final(self).job(d) == old(self).job(d),
            forall|d: JobId| #[trigger] has_id(final(self).ds_active@, d) ==> has_id(old(self).ds_active@, d)
                && final(self).job(d) == old(self).job(d),
            forall|q: int| 0 <= q < 3 ==> (#[trigger] final(self).clients@[q]).state == old(self).clients@[q].state,
            forall|q: int| 0 <= q < 3 ==> (#[trigger] final(self).clients@[q]).extent_limit == old(self).clients@[q].extent_limit,
            final(self).next_id == old(self).next_id,
            final(self).next_flush == old(self).next_flush,
            final(self).repair == old(self).repair,
            final(self).geometry == old(self).geometry,
            final(self).pending == old(self).pending,
            final(self).upstairs_id == old(self).upstairs_id,
            final(self).session_id == old(self).session_id,
            final(self).next_gw_id == old(self).next_gw_id,
            final(self).ackable_work == old(self).ackable_work,
    {
        let mut k: usize = 0;
        while k < to_check.len()
            invariant
                self.wf(),
                c < 3,
                k <= to_check@.len(),
                forall|q: int|
                    0 <= q < self.ds_active@.len() ==> !(#[trigger] self.ds_active@[q].state@[c as int] is New)
                        && !(self.ds_active@[q].state@[c as int] is InProgress),
                forall|q: int| 0 <= q < 3 ==> (#[trigger] self.clients@[q]).state == old(self).clients@[q].state,
                forall|q: int| 0 <= q < 3 ==> (#[trigger] self.clients@[q]).extent_limit == old(self).clients@[q].extent_limit,
                self.next_id == old(self).next_id,
                self.next_flush == old(self).next_flush,
                self.repair == old(self).repair,
                self.geometry == old(self).geometry,
                self.pending == old(self).pending,
                self.upstairs_id == old(self).upstairs_id,
                self.session_id == old(self).session_id,
                self.next_gw_id == old(self).next_gw_id,
                self.ackable_work == old(self).ackable_work,
                forall|d: JobId| has_id(old(self).ds_active@, d) && !old(self).job(d).acked ==>
                    has_id(self.ds_active@, d) && #[trigger] self.job(d) == old(self).job(d),
                forall|d: JobId| #[trigger] has_id(self.ds_active@, d) ==> has_id(old(self).ds_active@, d)
                    && self.job(d) == old(self).job(d),
            decreases to_check@.len() - k,
        {
            let ghost before = self.ds_active@;
            let ghost before_self = *self;
            let id = to_check[k];
            self.retire_check(id);
            proof {
                lemma_jobs_without_subset(before, |j: DownstairsIO| retirable(j, id));
                assert forall|q: int| 0 <= q < self.ds_active@.len() implies !(#[trigger] self.ds_active@[q].state@[c as int] is New)
                    && !(self.ds_active@[q].state@[c as int] is InProgress) by {
                    if self.ds_active@ != before {
                        let jw = jobs_without(before, |j: DownstairsIO| retirable(j, id));
                        assert(self.ds_active@ == jw);
                        assert(0 <= q < jw.len());
                        let t = jw[q];
                        let w = choose|w: int| 0 <= w < before.len() && #[trigger] before[w] == t;
                    }
                }
                assert forall|d: JobId| #[trigger] has_id(self.ds_active@, d) implies has_id(old(self).ds_active@, d)
                    && self.job(d) == old(self).job(d) by {
                    if self.ds_active@ != before {
                        let jw = jobs_without(before, |j: DownstairsIO| retirable(j, id));
                        let q = choose|q: int| 0 <= q < self.ds_active@.len() && self.ds_active@[q].ds_id == d;
                        self.lemma_job_unique(q);
                        let t = jw[q];
                        let w = choose|w: int| 0 <= w < before.len() && #[trigger] before[w] == t;
                        assert(before[w].ds_id == d);
                        assert(has_id(before, d));
                        before_self.lemma_job_unique(w);
                    }
                }
                assert forall|d: JobId| has_id(old(self).ds_active@, d) && !old(self).job(d).acked implies
                    has_id(self.ds_active@, d) && #[trigger] self.job(d) == old(self).job(d) by {
                    if self.ds_active@ != before {
                        let jw = jobs_without(before, |j: DownstairsIO| retirable(j, id));
                        assert(before_self.job(d) == old(self).job(d));
                        assert(has_id(before, d));
                        let m = choose|m: int| 0 <= m < before.len() && before[m].ds_id == d;
                        before_self.lemma_job_unique(m);
                        lemma_jobs_without_keeps(before, |j: DownstairsIO| retirable(j, id), m);
                        let w = choose|w: int| 0 <= w < jw.len() && jw[w] == before[m];
                        assert(self.ds_active@[w] == before[m]);
                        self.lemma_job_unique(w);
                    }
                }
            }
            k = k + 1;
        }
    }

    /// Moves every `New` or `InProgress` job of client `c` to `Skipped`,
    /// remembering it among the client's skipped jobs.  A job that this
    /// completes on every client becomes ready to acknowledge, or is checked
    /// for retirement when already acked.  The client's extent limit is
    /// cleared.
    pub fn skip_all_jobs(&mut self, c: ClientId)
        requires
            old(self).wf(),
            c < 3,
        ensures
            final(self).wf(),
            forall|k: int|
                0 <= k < final(self).ds_active@.len() ==> !(#[trigger] final(self).ds_active@[k].state@[c as int] is New)
                    && !(final(self).ds_active@[k].state@[c as int] is InProgress),
            final(self).clients@[c as int].extent_limit is None,
            forall|x: JobId| old(self).ackable_work@.contains(x) ==> #[trigger] final(self).ackable_work@.contains(x),
            forall|d: JobId|
                has_id(old(self).ds_active@, d) && (old(self).job(d).state@[c as int] is New
                    || old(self).job(d).state@[c as int] is InProgress) && !old(self).job(d).acked
                    && all_terminal(old(self).job(d).state@.update(c as int, IOState::Skipped))
                    ==> #[trigger] final(self).ackable_work@.contains(d),
            forall|d: JobId| has_id(old(self).ds_active@, d) && !old(self).job(d).acked ==> {
                &&& has_id(final(self).ds_active@, d)
                &&& (#[trigger] final(self).job(d)).work == old(self).job(d).work
                &&& !final(self).job(d).acked
                &&& final(self).job(d).state@ == if old(self).job(d).state@[c as int] is New
                    || old(self).job(d).state@[c as int] is InProgress {
                    old(self).job(d).state@.update(c as int, IOState::Skipped)
                } else {
                    old(self).job(d).state@
                }
            },
            forall|d: JobId| #[trigger] has_id(final(self).ds_active@, d) ==> {
                &&& has_id(old(self).ds_active@, d)
                &&& final(self).job(d).work == old(self).job(d).work
                &&& final(self).job(d).acked == old(self).job(d).acked
                &&& final(self).job(d).state@ == skipped_on(old(self).job(d).state@, c as int)
            },
            forall|k: int| 0 <= k < 3 ==> (#[trigger] final(self).clients@[k]).state == old(self).clients@[k].state,
            forall|k: int| 0 <= k < 3 && k != c ==> (#[trigger] final(self).clients@[k]).extent_limit == old(self).clients@[k].extent_limit,
            final(self).next_id == old(self).next_id,
            final(self).next_flush == old(self).next_flush,
            final(self).repair == old(self).repair,
            final(self).geometry == old(self).geometry,
            final(self).pending == old(self).pending,
            final(self).upstairs_id == old(self).upstairs_id,
            final(self).session_id == old(self).session_id,
            final(self).next_gw_id == old(self).next_gw_id,
    {
        let mut to_check: Vec<JobId> = Vec::new();
        let ghost start = *self;
        let mut i: usize = 0;
        while i < self.ds_active.len()
            invariant
                start.wf(),
                c < 3,
                i <= self.ds_active@.len(),
                self.same_but_job_states(start),
                forall|k: int| 0 <= k < i ==> !(#[trigger] self.ds_active@[k].state@[c as int] is New)
                    && !(self.ds_active@[k].state@[c as int] is InProgress),
                forall|k: int| 0 <= k < 3 ==> (#[trigger] self.clients@[k]).state == start.clients@[k].state,
                forall|k: int| 0 <= k < 3 ==> (#[trigger] self.clients@[k]).extent_limit == start.clients@[k].extent_limit,
                self.next_flush == start.next_flush,
                self.upstairs_id == start.upstairs_id,
                self.session_id == start.session_id,
                self.next_gw_id == start.next_gw_id,
                start == *old(self),
                forall|k: int| 0 <= k < self.ds_active@.len() ==> {
                    let o = start.ds_active@[k];
                    let n = #[trigger] self.ds_active@[k];
                    &&& n.acked == o.acked
                    &&& n.state@ == if k < i && (o.state@[c as int] is New || o.state@[c as int] is InProgress) {
                        o.state@.update(c as int, IOState::Skipped)
                    } else {
                        o.state@
                    }
                },
                forall|k: int| 0 <= k < i && (start.ds_active@[k].state@[c as int] is New
                    || start.ds_active@[k].state@[c as int] is InProgress) && !start.ds_active@[k].acked
                    && all_terminal(start.ds_active@[k].state@.update(c as int, IOState::Skipped))
                    ==> self.ackable_work@.contains(#[trigger] start.ds_active@[k].ds_id),
                forall|x: JobId| start.ackable_work@.contains(x) ==> #[trigger] self.ackable_work@.contains(x),
            decreases self.ds_active@.len() - i,
        {
            let ghost before = *self;
            proof {
                assert(self.ds_active@[i as int].wf());
            }
            let st = self.ds_active[i].state[c];
            if matches!(st, IOState::New | IOState::InProgress) {
                self.ds_active[i].state.set(c, IOState::Skipped);
                let id = self.ds_active[i].ds_id;
                if !contains_id(&self.clients[c].skipped_jobs, id) {
                    self.clients[c].skipped_jobs.push(id);
                }
                if self.ds_active[i].acked {
                    to_check.push(id);
                } else if is_all_terminal(&self.ds_active[i].state) && !contains_id(&self.ackable_work, id) {
                    self.ackable_work.push(id);
                }
            }
            proof {
                assert(self.same_but_job_states(start)) by {
                    assert forall|k: int| 0 <= k < start.ds_active@.len() implies (#[trigger] self.ds_active@[k]).ds_id
                        == start.ds_active@[k].ds_id && self.ds_active@[k].work == start.ds_active@[k].work
                        && self.ds_active@[k].wf() by {
                        if k != i {
                            assert(self.ds_active@[k] == before.ds_active@[k]);
                        }
                    }
                }
                assert forall|k: int| 0 <= k < i + 1 implies !(#[trigger] self.ds_active@[k].state@[c as int] is New)
                    && !(self.ds_active@[k].state@[c as int] is InProgress) by {
                    if k != i {
                        assert(self.ds_active@[k] == before.ds_active@[k]);
                    }
                }
                assert forall|k: int| 0 <= k < self.ds_active@.len() implies {
                    let o = start.ds_active@[k];
                    let n = #[trigger] self.ds_active@[k];
                    &&& n.acked == o.acked
                    &&& n.state@ == if k < i + 1 && (o.state@[c as int] is New || o.state@[c as int] is InProgress) {
                        o.state@.update(c as int, IOState::Skipped)
                    } else {
                        o.state@
                    }
                } by {
                    if k != i {
                        assert(self.ds_active@[k] == before.ds_active@[k]);
                    }
                }
                assert forall|x: JobId| start.ackable_work@.contains(x) implies #[trigger] self.ackable_work@.contains(x) by {
                    assert(before.ackable_work@.contains(x));
                    let w = choose|w: int| 0 <= w < before.ackable_work@.len() && before.ackable_work@[w] == x;
                    if self.ackable_work@.len() > before.ackable_work@.len() {
                        assert(self.ackable_work@[w] == before.ackable_work@[w]);
                    } else {
                        assert(self.ackable_work@ == before.ackable_work@);
                    }
                }
                assert forall|k: int| 0 <= k < i + 1 && (start.ds_active@[k].state@[c as int] is New
                    || start.ds_active@[k].state@[c as int] is InProgress) && !start.ds_active@[k].acked
                    && all_terminal(start.ds_active@[k].state@.update(c as int, IOState::Skipped))
                    implies self.ackable_work@.contains(#[trigger] start.ds_active@[k].ds_id) by {
                    if k < i {
                        assert(before.ackable_work@.contains(start.ds_active@[k].ds_id));
                        let w = choose|w: int| 0 <= w < before.ackable_work@.len() && before.ackable_work@[w] == start.ds_active@[k].ds_id;
                        if self.ackable_work@.len() > before.ackable_work@.len() {
                            assert(self.ackable_work@[w] == before.ackable_work@[w]);
                        } else {
                            assert(self.ackable_work@ == before.ackable_work@);
                        }
                    } else {
                        let id = start.ds_active@[k].ds_id;
                        assert(before.ds_active@[k].state@ == start.ds_active@[k].state@);
                        assert(before.ds_active@[k].acked == start.ds_active@[k].acked);
                        assert(self.ds_active@[k].state@ == start.ds_active@[k].state@.update(c as int, IOState::Skipped));
                        if before.ackable_work@.contains(id) {
                            let w = choose|w: int| 0 <= w < before.ackable_work@.len() && before.ackable_work@[w] == id;
                            if self.ackable_work@.len() > before.ackable_work@.len() {
                                assert(self.ackable_work@[w] == before.ackable_work@[w]);
                            } else {
                                assert(self.ackable_work@ == before.ackable_work@);
                            }
                        } else {
                            assert(self.ackable_work@ == before.ackable_work@.push(id));
                            assert(self.ackable_work@[self.ackable_work@.len() - 1] == id);
                        }
                    }
                }
            }
            i = i + 1;
        }
        proof {
            self.lemma_wf_same_shape(start);
        }
        let ghost marked = self.ackable_work@;
        let ghost marked_jobs = self.ds_active@;
        proof {
            assert forall|d: JobId|
                has_id(old(self).ds_active@, d) && (old(self).job(d).state@[c as int] is New
                    || old(self).job(d).state@[c as int] is InProgress) && !old(self).job(d).acked
                    && all_terminal(old(self).job(d).state@.update(c as int, IOState::Skipped))
                    implies #[trigger] marked.contains(d) by {
                let k = choose|k: int| 0 <= k < start.ds_active@.len() && start.ds_active@[k].ds_id == d;
                start.lemma_job_unique(k);
            }
        }
        self.clients[c].extent_limit = None;
        proof {
            self.lemma_wf_same_shape(start);
        }
        let ghost before_retire = *self;
        self.retire_listed(&to_check, c);
        proof {
            assert forall|d: JobId| has_id(old(self).ds_active@, d) && !old(self).job(d).acked implies {
                &&& has_id(self.ds_active@, d)
                &&& (#[trigger] self.job(d)).work == old(self).job(d).work
                &&& !self.job(d).acked
                &&& self.job(d).state@ == if old(self).job(d).state@[c as int] is New
                    || old(self).job(d).state@[c as int] is InProgress {
                    old(self).job(d).state@.update(c as int, IOState::Skipped)
                } else {
                    old(self).job(d).state@
                }
            } by {
                let k = choose|k: int| 0 <= k < old(self).ds_active@.len() && old(self).ds_active@[k].ds_id == d;
                old(self).lemma_job_unique(k);
                assert(marked_jobs[k].ds_id == d);
                assert(!marked_jobs[k].acked);
                before_retire.lemma_job_unique(k);
            }
            assert forall|d: JobId| #[trigger] has_id(self.ds_active@, d) implies {
                &&& has_id(old(self).ds_active@, d)
                &&& self.job(d).work == old(self).job(d).work
                &&& self.job(d).acked == old(self).job(d).acked
                &&& self.job(d).state@ == skipped_on(old(self).job(d).state@, c as int)
            } by {
                assert(has_id(before_retire.ds_active@, d));
                let k = choose|k: int| 0 <= k < marked_jobs.len() && marked_jobs[k].ds_id == d;
                before_retire.lemma_job_unique(k);
                assert(old(self).ds_active@[k].ds_id == d);
                assert(has_id(old(self).ds_active@, d));
                old(self).lemma_job_unique(k);
            }
        }
    }

    /// Replays client `c`'s jobs after its last flush: each becomes `New`
    /// on that client again (an earlier reply from it is forgotten) and is
    /// marked as replayed, which exempts reads from the content check.
    pub fn replay_jobs(&mut self, c: ClientId)
        requires
            old(self).wf(),
            c < 3,
        ensures
            final(self).wf(),
            final(self).ds_active@.len() == old(self).ds_active@.len(),
            forall|k: int|
                0 <= k < final(self).ds_active@.len() ==> {
                    let o = old(self).ds_active@[k];
                    let n = #[trigger] final(self).ds_active@[k];
                    &&& n.ds_id == o.ds_id
                    &&& n.work == o.work
                    &&& n.acked == o.acked
                    &&& if o.ds_id > old(self).clients@[c as int].last_flush {
                        n.state@ == o.state@.update(c as int, IOState::New) && n.replay
                    } else {
                        n.state == o.state && n.replay == o.replay
                    }
                },
            final(self).clients == old(self).clients,
            final(self).ackable_work == old(self).ackable_work,
            final(self).completed == old(self).completed,
            final(self).next_id == old(self).next_id,
            final(self).next_flush == old(self).next_flush,
            final(self).repair == old(self).repair,
            final(self).geometry == old(self).geometry,
            final(self).retired == old(self).retired,
            final(self).pending == old(self).pending,
            final(self).write_bytes_outstanding == old(self).write_bytes_outstanding,
            final(self).upstairs_id == old(self).upstairs_id,
            final(self).session_id == old(self).session_id,
            final(self).next_gw_id == old(self).next_gw_id,
    {
        let lf = self.clients[c].last_flush;
        let mut i: usize = 0;
        while i < self.ds_active.len()
            invariant
                old(self).wf(),
                c < 3,
                lf == old(self).clients@[c as int].last_flush,
                i <= self.ds_active@.len(),
                self.same_but_job_states(*old(self)),
                forall|k: int|
                    0 <= k < self.ds_active@.len() ==> {
                        let o = old(self).ds_active@[k];
                        let n = #[trigger] self.ds_active@[k];
                        &&& n.ds_id == o.ds_id
                        &&& n.work == o.work
                        &&& n.acked == o.acked
                        &&& if k < i && o.ds_id > lf {
                            n.state@ == o.state@.update(c as int, IOState::New) && n.replay
                        } else {
                            n.state == o.state && n.replay == o.replay
                        }
                    },
                self.clients == old(self).clients,
                self.ackable_work == old(self).ackable_work,
                self.next_flush == old(self).next_flush,
                self.upstairs_id == old(self).upstairs_id,
                self.session_id == old(self).session_id,
                self.next_gw_id == old(self).next_gw_id,
            decreases self.ds_active@.len() - i,
        {
            let ghost before = *self;
            proof {
                assert(self.ds_active@[i as int].wf());
            }
            if self.ds_active[i].ds_id > lf {
                self.ds_active[i].state.set(c, IOState::New);
                self.ds_active[i].replay = true;
            }
            proof {
                assert forall|k: int| 0 <= k < self.ds_active@.len() && k != i implies self.ds_active@[k] == before.ds_active@[k] by {}
                assert(self.same_but_job_states(*old(self))) by {
                    assert forall|k: int| 0 <= k < old(self).ds_active@.len() implies (#[trigger] self.ds_active@[k]).ds_id
                        == old(self).ds_active@[k].ds_id && self.ds_active@[k].work == old(self).ds_active@[k].work
                        && self.ds_active@[k].wf() by {
                        if k != i {
                            assert(self.ds_active@[k] == before.ds_active@[k]);
                        }
                    }
                }
            }
            i = i + 1;
        }
        proof {
            self.lemma_wf_same_shape(*old(self));
        }
    }

    /// Restarts client `c`; one that comes back from `Offline` replays its
    /// jobs after its last flush.
    pub fn reinitialize(&mut self, c: ClientId)
        requires
            old(self).wf(),
            c < 3,
        ensures
            final(self).wf(),
            final(self).clients == old(self).clients,
            final(self).ackable_work == old(self).ackable_work,
            final(self).completed == old(self).completed,
            old(self).clients@[c as int].state != DsState::Offline ==> *final(self) == *old(self),
            old(self).clients@[c as int].state == DsState::Offline ==> {
                &&& final(self).ds_active@.len() == old(self).ds_active@.len()
                &&& forall|k: int|
                    0 <= k < final(self).ds_active@.len() ==> {
                        let o = old(self).ds_active@[k];
                        let n = #[trigger] final(self).ds_active@[k];
                        &&& n.ds_id == o.ds_id
                        &&& n.work == o.work
                        &&& n.acked == o.acked
                        &&& if o.ds_id > old(self).clients@[c as int].last_flush {
                            n.state@ == o.state@.update(c as int, IOState::New) && n.replay
                        } else {
                            n.state == o.state && n.replay == o.replay
                        }
                    }
            },
    {
        if self.clients[c].state == DsState::Offline {
            self.replay_jobs(c);
        }
    }

    /// Handles a reply message from client `c`.
    ///
    /// A reply for another upstairs or session gives `UuidMismatch`, and one
    /// from a faulted client gives `NoLongerActive`; neither changes
    /// anything.  Otherwise the reply is recorded (see
    /// `process_ds_completion`, whose errors pass through).  If the client's
    /// state for the job is then an error: `UpstairsInactive` disables the
    /// client, `DecryptionError` is returned (fatal: the caller must stop),
    /// `SnapshotExistsAlready` is ignored, and any other error on a write,
    /// flush or repair job skips all the client's jobs and faults it.
    pub fn process_io_completion(&mut self, c: ClientId, m: Response) -> (r: Result<(), CrucibleError>)
        requires
            old(self).wf(),
            c < 3,
            (m.upstairs_id == old(self).upstairs_id && m.session_id == old(self).session_id
                && old(self).clients@[c as int].state != DsState::Faulted)
                ==> !old(self).mismatched_reply(m.job_id, c, m.result),
        ensures
            final(self).wf(),
            (m.upstairs_id != old(self).upstairs_id || m.session_id != old(self).session_id)
                ==> r == Err::<(), CrucibleError>(CrucibleError::UuidMismatch) && *final(self) == *old(self),
            (m.upstairs_id == old(self).upstairs_id && m.session_id == old(self).session_id
                && old(self).clients@[c as int].state == DsState::Faulted)
                ==> r == Err::<(), CrucibleError>(CrucibleError::NoLongerActive) && *final(self) == *old(self),
            (m.upstairs_id == old(self).upstairs_id && m.session_id == old(self).session_id
                && old(self).clients@[c as int].state != DsState::Faulted
                && !has_id(old(self).ds_active@, m.job_id)) ==> r == Err::<(), CrucibleError>(CrucibleError::UnknownJob)
                && *final(self) == *old(self),
            (m.upstairs_id == old(self).upstairs_id && m.session_id == old(self).session_id
                && old(self).clients@[c as int].state != DsState::Faulted
                && has_id(old(self).ds_active@, m.job_id)
                && old(self).job(m.job_id).state@[c as int] is Skipped) ==> r is Ok && *final(self) == *old(self),
            (m.upstairs_id == old(self).upstairs_id && m.session_id == old(self).session_id
                && old(self).clients@[c as int].state != DsState::Faulted
                && has_id(old(self).ds_active@, m.job_id)
                && !(old(self).job(m.job_id).state@[c as int] is Skipped)) ==> {
                let j = old(self).job(m.job_id);
                let st = j.state@.update(c as int, reply_state(m.result));
                let fires = j.acked && j.work is Flush && all_terminal(st);
                let faults = m.result is Err && m.result->Err_0 != CrucibleError::DecryptionError
                    && m.result->Err_0 != CrucibleError::UpstairsInactive
                    && m.result->Err_0 != CrucibleError::SnapshotExistsAlready && !(j.work is Read);
                &&& (m.result is Ok || m.result->Err_0 != CrucibleError::DecryptionError) ==> r is Ok
                &&& (m.result is Err && m.result->Err_0 == CrucibleError::DecryptionError)
                    ==> r == Err::<(), CrucibleError>(CrucibleError::DecryptionError)
                &&& forall|x: JobId| old(self).ackable_work@.contains(x) ==> #[trigger] final(self).ackable_work@.contains(x)
                &&& (!j.acked && !old(self).ackable_work@.contains(m.job_id) && ack_ready(j.work, st))
                    ==> final(self).ackable_work@.contains(m.job_id)
                &&& final(self).clients@[c as int].state == if faults {
                    DsState::Faulted
                } else if m.result is Err && m.result->Err_0 == CrucibleError::UpstairsInactive {
                    DsState::Disabled
                } else {
                    old(self).clients@[c as int].state
                }
                &&& !faults ==> {
                    &&& !fires ==> has_id(final(self).ds_active@, m.job_id) && final(self).job(m.job_id).state@ == st
                        && final(self).job(m.job_id).acked == j.acked
                        && (j.data is Some ==> final(self).job(m.job_id).data == j.data)
                    &&& final(self).clients@[c as int].last_flush == if j.work is Flush && m.result is Ok {
                        m.job_id
                    } else {
                        old(self).clients@[c as int].last_flush
                    }
                    &&& !j.acked ==> final(self).completed == old(self).completed
                    &&& (j.acked && j.work is Flush && all_terminal(st)) ==> final(self).retired@.contains(m.job_id)
                }
                &&& faults ==> {
                    &&& final(self).clients@[c as int].extent_limit is None
                    &&& forall|k: int| 0 <= k < final(self).ds_active@.len()
                        ==> !(#[trigger] final(self).ds_active@[k].state@[c as int] is New)
                            && !(final(self).ds_active@[k].state@[c as int] is InProgress)
                    &&& (!fires && has_id(final(self).ds_active@, m.job_id)) ==> final(self).job(m.job_id).state@ == st
                    &&& forall|d: JobId| #[trigger] has_id(final(self).ds_active@, d) && d != m.job_id && !fires
                        ==> has_id(old(self).ds_active@, d)
                            && final(self).job(d).state@ == skipped_on(old(self).job(d).state@, c as int)
                }
            },
    {
        if m.upstairs_id != self.upstairs_id || m.session_id != self.session_id {
            return Err(CrucibleError::UuidMismatch);
        }
        if self.clients[c].state == DsState::Faulted {
            return Err(CrucibleError::NoLongerActive);
        }
        let ds_id = m.job_id;
        let err = match &m.result {
            Ok(_) => None,
            Err(e) => Some(*e),
        };
        let was_skipped = match self.find_job(ds_id) {
            None => false,
            Some(i) => {
                proof {
                    self.lemma_job_unique(i as int);
                    assert(self.ds_active@[i as int].wf());
                }
                matches!(self.ds_active[i].state[c], IOState::Skipped)
            },
        };
        let is_read = match self.find_job(ds_id) {
            None => false,
            Some(i) => {
                proof {
                    self.lemma_job_unique(i as int);
                }
                matches!(self.ds_active[i].work, IOop::Read { .. })
            },
        };
        let ghost a0 = self.ackable_work@;
        proof {
            lemma_push_contains(a0, ds_id);
        }
        match self.process_ds_completion(ds_id, c, m.result, m.extent_info) {
            Err(e) => return Err(e),
            Ok(_) => {},
        }
        if was_skipped {
            return Ok(());
        }
        match err {
            None => Ok(()),
            Some(CrucibleError::UpstairsInactive) => {
                let ghost before = *self;
                self.clients[c].state = DsState::Disabled;
                proof {
                    self.lemma_wf_clients_only(before);
                    assert(self.ackable_work == before.ackable_work);
                    assert(self.ds_active == before.ds_active);
                    assert(self.completed == before.completed);
                    assert(self.retired == before.retired);
                }
                Ok(())
            },
            Some(CrucibleError::DecryptionError) => Err(CrucibleError::DecryptionError),
            Some(CrucibleError::SnapshotExistsAlready) => Ok(()),
            Some(_) => {
                if !is_read {
                    self.skip_all_jobs(c);
                    let ghost before = *self;
                    self.clients[c].state = DsState::Faulted;
                    proof {
                        self.lemma_wf_clients_only(before);
                        assert(self.ackable_work == before.ackable_work);
                        assert(self.ds_active == before.ds_active);
                    }
                }
                Ok(())
            },
        }
    }
}

/// Number of jobs of `jobs` that are `New` or `InProgress` on client `c`.
pub open spec fn live_count(jobs: Seq<DownstairsIO>, c: int) -> int
    decreases jobs.len(),
{
    if jobs.len() == 0 {
        0
    } else {
        live_count(jobs.drop_last(), c) + if jobs.last().state@[c] is New || jobs.last().state@[c] is InProgress {
            1int
        } else {
            0
        }
    }
}

/// Whether a client in this state is part of a replacement in progress.
pub open spec fn replacing(s: DsState) -> bool {
    s is Replacing || s is Replaced || s is LiveRepairReady || s is LiveRepair
}

fn replacing_exec(s: DsState) -> (r: bool)
    ensures
        r == replacing(s),
{
    matches!(s, DsState::Replacing | DsState::Replaced | DsState::LiveRepairReady | DsState::LiveRepair)
}

impl Downstairs {
    /// The highest-numbered client whose target is `a`.
    pub open spec fn client_at(self, a: Address) -> Option<int> {
        if self.clients@[2].target_addr == Some(a) {
            Some(2)
        } else if self.clients@[1].target_addr == Some(a) {
            Some(1)
        } else if self.clients@[0].target_addr == Some(a) {
            Some(0)
        } else {
            None
        }
    }

    fn client_at_exec(&self, a: Address) -> (r: Option<usize>)
        requires
            self.clients@.len() == 3,
        ensures
            r == match self.client_at(a) {
                Some(c) => Some(c as usize),
                None => None::<usize>,
            },
    {
        if self.clients[2].target_addr == Some(a) {
            Some(2)
        } else if self.clients[1].target_addr == Some(a) {
            Some(1)
        } else if self.clients[0].target_addr == Some(a) {
            Some(0)
        } else {
            None
        }
    }

    /// Asks to replace the downstairs at `old_addr` with one at `new_addr`.
    ///
    /// When `new_addr` is a target already: with `old_addr` a target too the
    /// request is invalid; else the replacement has started already (the
    /// client is still being replaced) or completed.  When `old_addr` is no
    /// target: `Missing`.  When another client is being replaced: invalid.
    /// Otherwise the old client's jobs are skipped, it takes the new target
    /// and becomes `Replacing`: `Started`.
    pub fn replace(&mut self, old_addr: Address, new_addr: Address) -> (r: Result<ReplaceResult, CrucibleError>)
        requires
            old(self).wf(),
        ensures
            final(self).wf(),
            ({
                let n = old(self).client_at(new_addr);
                let o = old(self).client_at(old_addr);
                if n is Some {
                    if o is Some {
                        r == Err::<ReplaceResult, CrucibleError>(CrucibleError::ReplaceRequestInvalid)
                    } else if replacing(old(self).clients@[n->0].state) {
                        r == Ok::<ReplaceResult, CrucibleError>(ReplaceResult::StartedAlready)
                    } else {
                        r == Ok::<ReplaceResult, CrucibleError>(ReplaceResult::CompletedAlready)
                    }
                } else if o is None {
                    r == Ok::<ReplaceResult, CrucibleError>(ReplaceResult::Missing)
                } else if exists|c: int| 0 <= c < 3 && c != o->0 && replacing(#[trigger] old(self).clients@[c].state) {
                    r == Err::<ReplaceResult, CrucibleError>(CrucibleError::ReplaceRequestInvalid)
                } else {
                    &&& r == Ok::<ReplaceResult, CrucibleError>(ReplaceResult::Started)
                    &&& final(self).clients@[o->0].state == DsState::Replacing
                    &&& final(self).clients@[o->0].target_addr == Some(new_addr)
                    &&& forall|k: int| 0 <= k < final(self).ds_active@.len()
                        ==> !(#[trigger] final(self).ds_active@[k].state@[o->0] is New)
                            && !(final(self).ds_active@[k].state@[o->0] is InProgress)
                    &&& forall|d: JobId| #[trigger] has_id(final(self).ds_active@, d) ==> has_id(old(self).ds_active@, d)
                        && final(self).job(d).work == old(self).job(d).work
                        && final(self).job(d).acked == old(self).job(d).acked
                        && final(self).job(d).state@ == skipped_on(old(self).job(d).state@, o->0)
                }
            }),
            r != Ok::<ReplaceResult, CrucibleError>(ReplaceResult::Started) ==> *final(self) == *old(self),
    {
        let new_c = self.client_at_exec(new_addr);
        let old_c = self.client_at_exec(old_addr);
        if let Some(n) = new_c {
            if old_c.is_some() {
                return Err(CrucibleError::ReplaceRequestInvalid);
            }
            if replacing_exec(self.clients[n].state) {
                return Ok(ReplaceResult::StartedAlready);
            }
            return Ok(ReplaceResult::CompletedAlready);
        }
        let o = match old_c {
            None => return Ok(ReplaceResult::Missing),
            Some(o) => o,
        };
        let mut c: usize = 0;
        while c < 3
            invariant
                old(self).wf(),
                *self == *old(self),
                old(self).client_at(old_addr) == Some(o as int),
                old(self).client_at(new_addr) is None,
                c <= 3,
                self.clients@.len() == 3,
                o < 3,
                forall|q: int| 0 <= q < c && q != o ==> !replacing(#[trigger] self.clients@[q].state),
            decreases 3 - c,
        {
            if c != o && replacing_exec(self.clients[c].state) {
                return Err(CrucibleError::ReplaceRequestInvalid);
            }
            c = c + 1;
        }
        self.skip_all_jobs(o);
        let ghost before = *self;
        self.clients[o].state = DsState::Replacing;
        self.clients[o].target_addr = Some(new_addr);
        proof {
            self.lemma_wf_clients_only(before);
        }
        Ok(ReplaceResult::Started)
    }

    /// Number of jobs that are `New` or `InProgress` on client `c`.
    pub fn total_live_work(&self, c: ClientId) -> (r: usize)
        requires
            self.wf(),
            c < 3,
        ensures
            r == live_count(self.ds_active@, c as int),
    {
        let mut n: usize = 0;
        let mut i: usize = 0;
        while i < self.ds_active.len()
            invariant
                self.wf(),
                c < 3,
                i <= self.ds_active@.len(),
                n == live_count(self.ds_active@.subrange(0, i as int), c as int),
                n <= i,
            decreases self.ds_active@.len() - i,
        {
            proof {
                assert(self.ds_active@[i as int].wf());
                assert(self.ds_active@.subrange(0, i + 1).drop_last() == self.ds_active@.subrange(0, i as int));
            }
            if matches!(self.ds_active[i].state[c], IOState::New | IOState::InProgress) {
                n = n + 1;
            }
            i = i + 1;
        }
        proof {
            assert(self.ds_active@.subrange(0, self.ds_active@.len() as int) == self.ds_active@);
        }
        n
    }

    /// Faults client `c` when more than `limit` jobs wait on it: its jobs
    /// are skipped and it becomes `Faulted`.  Returns whether it did.
    pub fn check_gone_too_long(&mut self, c: ClientId, limit: usize) -> (r: bool)
        requires
            old(self).wf(),
            c < 3,
        ensures
            final(self).wf(),
            r == (live_count(old(self).ds_active@, c as int) > limit),
            r ==> final(self).clients@[c as int].state == DsState::Faulted
                && final(self).clients@[c as int].extent_limit is None
                && forall|k: int| 0 <= k < final(self).ds_active@.len()
                    ==> !(#[trigger] final(self).ds_active@[k].state@[c as int] is New)
                        && !(final(self).ds_active@[k].state@[c as int] is InProgress)
                && forall|d: JobId| #[trigger] has_id(final(self).ds_active@, d) ==> has_id(old(self).ds_active@, d)
                    && final(self).job(d).work == old(self).job(d).work
                    && final(self).job(d).acked == old(self).job(d).acked
                    && final(self).job(d).state@ == skipped_on(old(self).job(d).state@, c as int),
            !r ==> *final(self) == *old(self),
    {
        if self.total_live_work(c) > limit {
            self.skip_all_jobs(c);
            let ghost before = *self;
            self.clients[c].state = DsState::Faulted;
            proof {
                self.lemma_wf_clients_only(before);
            }
            true
        } else {
            false
        }
    }

    /// Tries to deactivate client `c`: it succeeds, and the client becomes
    /// `Deactivated`, when there are no active jobs, or when the last
    /// active job is a flush and no active job is `New` or `InProgress` on
    /// the client.
    pub fn try_deactivate(&mut self, c: ClientId) -> (r: bool)
        requires
            old(self).wf(),
            c < 3,
        ensures
            final(self).wf(),
            r == (old(self).ds_active@.len() == 0 || (old(self).ds_active@.last().work is Flush
                && forall|k: int| 0 <= k < old(self).ds_active@.len() ==> !(#[trigger] old(self).ds_active@[k].state@[c as int] is New)
                    && !(old(self).ds_active@[k].state@[c as int] is InProgress))),
            r ==> final(self).clients@[c as int].state == DsState::Deactivated,
            !r ==> *final(self) == *old(self),
            final(self).ds_active == old(self).ds_active,
    {
        let n = self.ds_active.len();
        if n > 0 {
            if !self.ds_active[n - 1].work.is_flush() {
                return false;
            }
            let mut i: usize = 0;
            while i < n
                invariant
                    self.wf(),
                    c < 3,
                    n == self.ds_active@.len(),
                    i <= n,
                    forall|k: int| 0 <= k < i ==> !(#[trigger] self.ds_active@[k].state@[c as int] is New)
                        && !(self.ds_active@[k].state@[c as int] is InProgress),
                decreases n - i,
            {
                proof {
                    assert(self.ds_active@[i as int].wf());
                }
                if matches!(self.ds_active[i].state[c], IOState::New | IOState::InProgress) {
                    return false;
                }
                i = i + 1;
            }
        }
        let ghost before = *self;
        self.clients[c].state = DsState::Deactivated;
        proof {
            self.lemma_wf_clients_only(before);
        }
        true
    }

    /// Starts deactivating: refused with `OfflineDownstairs` while a client
    /// is `Offline`; otherwise says whether there are no active jobs, in
    /// which case deactivation is complete at once.
    pub fn set_deactivate(&self) -> (r: Result<bool, CrucibleError>)
        requires
            self.wf(),
        ensures
            (exists|c: int| 0 <= c < 3 && #[trigger] self.clients@[c].state == DsState::Offline)
                ==> r == Err::<bool, CrucibleError>(CrucibleError::OfflineDownstairs),
            (forall|c: int| 0 <= c < 3 ==> #[trigger] self.clients@[c].state != DsState::Offline)
                ==> r == Ok::<bool, CrucibleError>(self.ds_active@.len() == 0),
    {
        if self.clients[0].state == DsState::Offline || self.clients[1].state == DsState::Offline
            || self.clients[2].state == DsState::Offline {
            return Err(CrucibleError::OfflineDownstairs);
        }
        Ok(self.ds_active.len() == 0)
    }
}

/// The dependencies a client under repair is sent: those it has not
/// skipped, and all from `min_id` on.
pub open spec fn pruned_deps(deps: Seq<JobId>, skipped: Seq<JobId>, min_id: JobId) -> Seq<JobId>
    decreases deps.len(),
{
    if deps.len() == 0 {
        Seq::empty()
    } else {
        let rest = pruned_deps(deps.drop_last(), skipped, min_id);
        if deps.last() >= min_id || !skipped.contains(deps.last()) {
            rest.push(deps.last())
        } else {
            rest
        }
    }
}

impl Downstairs {
    /// Marks job `ds_id` in progress on client `c` and returns the
    /// dependencies to send with it.  `None`, changing nothing, when the job
    /// is not active or is not `New` on the client.  A client under live
    /// repair is not sent dependencies on jobs it skipped before the repair
    /// began.
    pub fn in_progress(&mut self, ds_id: JobId, c: ClientId) -> (r: Option<Vec<JobId>>)
        requires
            old(self).wf(),
            c < 3,
        ensures
            final(self).wf(),
            (has_id(old(self).ds_active@, ds_id) && old(self).job(ds_id).state@[c as int] is New) == r is Some,
            r is None ==> *final(self) == *old(self),
            r is Some ==> {
                &&& has_id(final(self).ds_active@, ds_id)
                &&& final(self).job(ds_id).work == old(self).job(ds_id).work
                &&& final(self).job(ds_id).acked == old(self).job(ds_id).acked
                &&& final(self).job(ds_id).replay == old(self).job(ds_id).replay
                &&& final(self).ds_active@.len() == old(self).ds_active@.len()
                &&& forall|d: JobId| d != ds_id && has_id(old(self).ds_active@, d) ==> has_id(final(self).ds_active@, d)
                    && #[trigger] final(self).job(d) == old(self).job(d)
                &&& final(self).job(ds_id).state@ == old(self).job(ds_id).state@.update(c as int, IOState::InProgress)
                &&& r->0@ == if old(self).clients@[c as int].state == DsState::LiveRepair && old(self).repair is Some {
                    pruned_deps(old(self).job(ds_id).work.deps(), old(self).clients@[c as int].skipped_jobs@, old(self).repair->0.min_id)
                } else {
                    old(self).job(ds_id).work.deps()
                }
            },
            final(self).clients == old(self).clients,
            final(self).ackable_work == old(self).ackable_work,
            final(self).repair == old(self).repair,
            final(self).next_id == old(self).next_id,
            final(self).completed == old(self).completed,
    {
        let i = match self.find_job(ds_id) {
            None => return None,
            Some(i) => i,
        };
        proof {
            self.lemma_job_unique(i as int);
            assert(self.ds_active@[i as int].wf());
        }
        if !matches!(self.ds_active[i].state[c], IOState::New) {
            return None;
        }
        let ghost before = *self;
        self.ds_active[i].state.set(c, IOState::InProgress);
        proof {
            assert(self.same_but_job_states(before)) by {
                assert forall|k: int| 0 <= k < before.ds_active@.len() implies (#[trigger] self.ds_active@[k]).ds_id
                    == before.ds_active@[k].ds_id && self.ds_active@[k].work == before.ds_active@[k].work
                    && self.ds_active@[k].wf() by {
                    if k != i {
                        assert(self.ds_active@[k] == before.ds_active@[k]);
                    }
                }
            }
            self.lemma_wf_same_shape(before);
            self.lemma_job_unique(i as int);
            assert forall|d: JobId| d != ds_id && has_id(old(self).ds_active@, d) implies has_id(self.ds_active@, d)
                && #[trigger] self.job(d) == old(self).job(d) by {
                let k = choose|k: int| 0 <= k < old(self).ds_active@.len() && old(self).ds_active@[k].ds_id == d;
                old(self).lemma_job_unique(k);
                assert(self.ds_active@[k] == old(self).ds_active@[k]);
                self.lemma_job_unique(k);
            }
        }
        let deps = self.ds_active[i].work.dependencies();
        let min_id = match &self.repair {
            Some(rep) => Some(rep.min_id),
            None => None,
        };
        let mut out: Vec<JobId> = Vec::new();
        let prune = self.clients[c].state == DsState::LiveRepair && min_id.is_some();
        let mut k: usize = 0;
        while k < deps.len()
            invariant
                k <= deps@.len(),
                self.clients@.len() == 3,
                c < 3,
                prune ==> min_id is Some,
                out@ == if prune {
                    pruned_deps(deps@.subrange(0, k as int), self.clients@[c as int].skipped_jobs@, min_id->0)
                } else {
                    deps@.subrange(0, k as int)
                },
            decreases deps@.len() - k,
        {
            let d = deps[k];
            proof {
                assert(deps@.subrange(0, k + 1).drop_last() == deps@.subrange(0, k as int));
                assert(deps@.subrange(0, k + 1) == deps@.subrange(0, k as int).push(d));
            }
            if !prune {
                out.push(d);
            } else {
                let m = match min_id {
                    Some(m) => m,
                    None => 0,
                };
                if d >= m || !contains_id(&self.clients[c].skipped_jobs, d) {
                    out.push(d);
                }
            }
            k = k + 1;
        }
        proof {
            assert(deps@.subrange(0, deps@.len() as int) == deps@);
        }
        Some(out)
    }
}

/// Number of jobs of `jobs` whose state on client `c` satisfies `p`.
pub open spec fn client_count(jobs: Seq<DownstairsIO>, c: int, p: spec_fn(IOState) -> bool) -> int
    decreases jobs.len(),
{
    if jobs.len() == 0 {
        0
    } else {
        client_count(jobs.drop_last(), c, p) + if p(jobs.last().state@[c]) { 1int } else { 0 }
    }
}

impl Downstairs {
    /// For each client, how many active jobs are in each state.
    pub fn io_state_count(&self) -> (r: Vec<IOStateCount>)
        requires
            self.wf(),
        ensures
            r@.len() == 3,
            forall|c: int| 0 <= c < 3 ==> {
                let k = #[trigger] r@[c];
                &&& k.new == client_count(self.ds_active@, c, |s: IOState| s is New)
                &&& k.in_progress == client_count(self.ds_active@, c, |s: IOState| s is InProgress)
                &&& k.done == client_count(self.ds_active@, c, |s: IOState| s is Done)
                &&& k.skipped == client_count(self.ds_active@, c, |s: IOState| s is Skipped)
                &&& k.error == client_count(self.ds_active@, c, |s: IOState| s is Error)
            },
    {
        let mut r: Vec<IOStateCount> = Vec::new();
        let mut c: usize = 0;
        while c < 3
            invariant
                self.wf(),
                c <= 3,
                r@.len() == c,
                forall|q: int| 0 <= q < c ==> {
                    let k = #[trigger] r@[q];
                    &&& k.new == client_count(self.ds_active@, q, |s: IOState| s is New)
                    &&& k.in_progress == client_count(self.ds_active@, q, |s: IOState| s is InProgress)
                    &&& k.done == client_count(self.ds_active@, q, |s: IOState| s is Done)
                    &&& k.skipped == client_count(self.ds_active@, q, |s: IOState| s is Skipped)
                    &&& k.error == client_count(self.ds_active@, q, |s: IOState| s is Error)
                },
            decreases 3 - c,
        {
            let mut k = IOStateCount { new: 0, in_progress: 0, done: 0, skipped: 0, error: 0 };
            let mut i: usize = 0;
            while i < self.ds_active.len()
                invariant
                    self.wf(),
                    c < 3,
                    i <= self.ds_active@.len(),
                    k.new == client_count(self.ds_active@.subrange(0, i as int), c as int, |s: IOState| s is New),
                    k.in_progress == client_count(self.ds_active@.subrange(0, i as int), c as int, |s: IOState| s is InProgress),
                    k.done == client_count(self.ds_active@.subrange(0, i as int), c as int, |s: IOState| s is Done),
                    k.skipped == client_count(self.ds_active@.subrange(0, i as int), c as int, |s: IOState| s is Skipped),
                    k.error == client_count(self.ds_active@.subrange(0, i as int), c as int, |s: IOState| s is Error),
                    k.new <= i && k.in_progress <= i && k.done <= i && k.skipped <= i && k.error <= i,
                decreases self.ds_active@.len() - i,
            {
                proof {
                    assert(self.ds_active@[i as int].wf());
                    let pre = self.ds_active@.subrange(0, i + 1);
                    assert(pre.drop_last() == self.ds_active@.subrange(0, i as int));
                    assert(pre.last() == self.ds_active@[i as int]);
                }
                match self.ds_active[i].state[c] {
                    IOState::New => k.new = k.new + 1,
                    IOState::InProgress => k.in_progress = k.in_progress + 1,
                    IOState::Done => k.done = k.done + 1,
                    IOState::Skipped => k.skipped = k.skipped + 1,
                    IOState::Error(_) => k.error = k.error + 1,
                }
                i = i + 1;
            }
            proof {
                assert(self.ds_active@.subrange(0, self.ds_active@.len() as int) == self.ds_active@);
            }
            r.push(k);
            c = c + 1;
        }
        r
    }

    /// The extents a job covers, lowest and highest: a guest read or write
    /// covers the extents of its blocks, a flush every extent, a close,
    /// repair or reopen its one extent; a no-op covers none.
    pub fn get_extents_for(&self, job: &DownstairsIO) -> (r: Option<(u64, u64)>)
        requires
            self.wf(),
        ensures
            r == match job.work {
                IOop::Read { blocks, .. } => Some((blocks.first_extent_spec(self.geometry.extent_size) as u64, blocks.last_extent_spec(self.geometry.extent_size) as u64)),
                IOop::Write { blocks, .. } => Some((blocks.first_extent_spec(self.geometry.extent_size) as u64, blocks.last_extent_spec(self.geometry.extent_size) as u64)),
                IOop::WriteUnwritten { blocks, .. } => Some((blocks.first_extent_spec(self.geometry.extent_size) as u64, blocks.last_extent_spec(self.geometry.extent_size) as u64)),
                IOop::Flush { .. } => if self.geometry.extent_count == 0 { None } else { Some((0u64, (self.geometry.extent_count - 1) as u64)) },
                IOop::ExtentFlushClose { extent, .. } => Some((extent, extent)),
                IOop::ExtentLiveRepair { extent, .. } => Some((extent, extent)),
                IOop::ExtentLiveReopen { extent, .. } => Some((extent, extent)),
                IOop::ExtentLiveNoOp { .. } => None,
            },
    {
        let es = self.geometry.extent_size;
        match &job.work {
            IOop::Read { blocks, .. } => Some((blocks.first_extent(es), blocks.last_extent(es))),
            IOop::Write { blocks, .. } => Some((blocks.first_extent(es), blocks.last_extent(es))),
            IOop::WriteUnwritten { blocks, .. } => Some((blocks.first_extent(es), blocks.last_extent(es))),
            IOop::Flush { .. } => if self.geometry.extent_count == 0 {
                None
            } else {
                Some((0, self.geometry.extent_count - 1))
            },
            IOop::ExtentFlushClose { extent, .. } => Some((*extent, *extent)),
            IOop::ExtentLiveRepair { extent, .. } => Some((*extent, *extent)),
            IOop::ExtentLiveReopen { extent, .. } => Some((*extent, *extent)),
            IOop::ExtentLiveNoOp { .. } => None,
        }
    }
}

/// The client state changes the coordinator allows: connecting and
/// negotiating (`New`, `WaitActive`, `WaitQuorum`), reconciling or going
/// active, failing a reconciliation and restarting, going offline and
/// coming back, faulting, being replaced and live-repaired back to
/// `Active`, deactivating, and being disabled from any state.
pub open spec fn legal_transition(from: DsState, to: DsState) -> bool {
    match (from, to) {
        (_, DsState::Disabled) => true,
        (DsState::New, DsState::WaitActive) => true,
        (DsState::WaitActive, DsState::WaitQuorum) => true,
        (DsState::WaitQuorum, DsState::Repair) => true,
        (DsState::WaitQuorum, DsState::Active) => true,
        (DsState::WaitQuorum, DsState::FailedRepair) => true,
        (DsState::Repair, DsState::Active) => true,
        (DsState::Repair, DsState::FailedRepair) => true,
        (DsState::FailedRepair, DsState::New) => true,
        (DsState::Active, DsState::Offline) => true,
        (DsState::Active, DsState::Faulted) => true,
        (DsState::Active, DsState::Deactivated) => true,
        (DsState::Offline, DsState::Active) => true,
        (DsState::Offline, DsState::Faulted) => true,
        (DsState::Faulted, DsState::Replacing) => true,
        (DsState::Faulted, DsState::LiveRepairReady) => true,
        (DsState::Replacing, DsState::Replaced) => true,
        (DsState::Replaced, DsState::LiveRepairReady) => true,
        (DsState::LiveRepairReady, DsState::LiveRepair) => true,
        (DsState::LiveRepair, DsState::Active) => true,
        (DsState::LiveRepair, DsState::Faulted) => true,
        (DsState::Deactivated, DsState::New) => true,
        _ => false,
    }
}

/// Decides whether a client may move from state `from` to `to` (see
/// `legal_transition`).
pub fn is_legal_transition(from: DsState, to: DsState) -> (r: bool)
    ensures
        r == legal_transition(from, to),
{
    match (from, to) {
        (_, DsState::Disabled) => true,
        (DsState::New, DsState::WaitActive) => true,
        (DsState::WaitActive, DsState::WaitQuorum) => true,
        (DsState::WaitQuorum, DsState::Repair) => true,
        (DsState::WaitQuorum, DsState::Active) => true,
        (DsState::WaitQuorum, DsState::FailedRepair) => true,
        (DsState::Repair, DsState::Active) => true,
        (DsState::Repair, DsState::FailedRepair) => true,
        (DsState::FailedRepair, DsState::New) => true,
        (DsState::Active, DsState::Offline) => true,
        (DsState::Active, DsState::Faulted) => true,
        (DsState::Active, DsState::Deactivated) => true,
        (DsState::Offline, DsState::Active) => true,
        (DsState::Offline, DsState::Faulted) => true,
        (DsState::Faulted, DsState::Replacing) => true,
        (DsState::Faulted, DsState::LiveRepairReady) => true,
        (DsState::Replacing, DsState::Replaced) => true,
        (DsState::Replaced, DsState::LiveRepairReady) => true,
        (DsState::LiveRepairReady, DsState::LiveRepair) => true,
        (DsState::LiveRepair, DsState::Active) => true,
        (DsState::LiveRepair, DsState::Faulted) => true,
        (DsState::Deactivated, DsState::New) => true,
        _ => false,
    }
}

impl Downstairs {
    /// Moves client `c` to state `to` when that change is legal; returns
    /// whether it did.
    pub fn checked_state_transition(&mut self, c: ClientId, to: DsState) -> (r: bool)
        requires
            old(self).wf(),
            c < 3,
        ensures
            final(self).wf(),
            r == legal_transition(old(self).clients@[c as int].state, to),
            r ==> final(self).clients@[c as int].state == to,
            !r ==> final(self).clients == old(self).clients,
            forall|q: int| 0 <= q < 3 && q != c ==> #[trigger] final(self).clients@[q] == old(self).clients@[q],
            final(self).ds_active == old(self).ds_active,
    {
        if !is_legal_transition(self.clients[c].state, to) {
            return false;
        }
        let ghost before = *self;
        self.clients[c].state = to;
        proof {
            self.lemma_wf_clients_only(before);
        }
        true
    }
}

pub proof fn lemma_ring_push_contains(c: Seq<JobId>, v: JobId, cap: nat, n: Seq<JobId>)
    requires
        cap > 0,
        n == (if c.len() >= cap { c.drop_first().push(v) } else { c.push(v) }),
    ensures
        forall|x: JobId| #[trigger] n.contains(x) ==> x == v || c.contains(x),
{
    assert forall|x: JobId| #[trigger] n.contains(x) implies x == v || c.contains(x) by {
        let k = choose|k: int| 0 <= k < n.len() && n[k] == x;
        if k < n.len() - 1 {
            if c.len() >= cap {
                assert(c.drop_first()[k] == x);
                assert(c[k + 1] == x);
            } else {
                assert(c[k] == x);
            }
        }
    }
}

pub proof fn lemma_push_contains(s: Seq<JobId>, v: JobId)
    ensures
        forall|x: JobId| s.contains(x) ==> #[trigger] s.push(v).contains(x),
        s.push(v).contains(v),
{
    assert forall|x: JobId| s.contains(x) implies #[trigger] s.push(v).contains(x) by {
        let k = choose|k: int| 0 <= k < s.len() && s[k] == x;
        assert(s.push(v)[k] == x);
    }
    assert(s.push(v)[s.len() as int] == v);
}

/// Removes every occurrence of `d`.
pub fn remove_id(v: &mut Vec<JobId>, d: JobId)
    ensures
        !final(v)@.contains(d),
        forall|x: JobId| x != d ==> (final(v)@.contains(x) <==> old(v)@.contains(x)),
{
    let mut out: Vec<JobId> = Vec::new();
    let mut i: usize = 0;
    while i < v.len()
        invariant
            i <= v@.len(),
            !out@.contains(d),
            forall|x: JobId| x != d ==> (out@.contains(x) <==> v@.subrange(0, i as int).contains(x)),
        decreases v@.len() - i,
    {
        let x = v[i];
        proof {
            assert(v@.subrange(0, i + 1) == v@.subrange(0, i as int).push(x));
        }
        let ghost old_out = out@;
        if x != d {
            out.push(x);
        }
        proof {
            assert forall|y: JobId| y != d && old_out.contains(y) implies out@.contains(y) by {
                let k = choose|k: int| 0 <= k < old_out.len() && #[trigger] old_out[k] == y;
                assert(out@[k] == y);
            }
            assert forall|y: JobId| y != d && out@.contains(y) && y != x implies old_out.contains(y) by {
                let k = choose|k: int| 0 <= k < out@.len() && #[trigger] out@[k] == y;
                if k < old_out.len() {
                    assert(old_out[k] == y);
                }
            }
            if x != d {
                assert(out@[out@.len() - 1] == x);
            }
            assert forall|y: JobId| y != d implies (out@.contains(y) <==> v@.subrange(0, i + 1).contains(y)) by {
                let pre = v@.subrange(0, i as int);
                let nxt = v@.subrange(0, i + 1);
                if nxt.contains(y) {
                    let k = choose|k: int| 0 <= k < nxt.len() && #[trigger] nxt[k] == y;
                    if k < i {
                        assert(pre[k] == y);
                    }
                }
                if pre.contains(y) {
                    let k = choose|k: int| 0 <= k < pre.len() && #[trigger] pre[k] == y;
                    assert(nxt[k] == y);
                }
                if y == x {
                    assert(nxt[i as int] == x);
                    assert(out@[out@.len() - 1] == y);
                } else {
                    assert(old_out.contains(y) <==> pre.contains(y));
                }
            }
        }
        i = i + 1;
    }
    assert(v@.subrange(0, v@.len() as int) == v@);
    *v = out;
}

/// Whether some reservation is for extent `eid`.
pub open spec fn has_reservation(res: Seq<Reservation>, eid: u64) -> bool {
    exists|k: int| 0 <= k < res.len() && #[trigger] res[k].extent == eid
}

/// Repair jobs wait on no reserved reopen job.
pub open spec fn reserved_reopens_empty(
    a: Seq<Reservation>,
    b: Seq<Reservation>,
    e: NewJob,
    es: u64,
) -> bool {
    crate::deps::reserved_reopens(a, e, es) == Seq::<JobId>::empty()
        && crate::deps::reserved_reopens(b, e, es) == Seq::<JobId>::empty()
}

/// The highest of `l` and the extents of the reservations.
pub open spec fn max_reserved_extent(res: Seq<Reservation>, l: u64) -> u64
    decreases res.len(),
{
    if res.len() == 0 {
        l
    } else {
        let m = max_reserved_extent(res.drop_last(), l);
        if res.last().extent > m {
            res.last().extent
        } else {
            m
        }
    }
}

pub proof fn lemma_sum_insert(s: Seq<DownstairsIO>, p: int, j: DownstairsIO)
    requires
        0 <= p <= s.len(),
    ensures
        sum_write_bytes(s.insert(p, j)) == sum_write_bytes(s) + j.work.write_bytes(),
    decreases s.len(),
{
    if p == s.len() {
        assert(s.insert(p, j) == s.push(j));
        lemma_sum_push(s, j);
    } else {
        let t = s.insert(p, j);
        assert(t.drop_last() == s.drop_last().insert(p, j));
        assert(t.last() == s.last());
        lemma_sum_insert(s.drop_last(), p, j);
    }
}

/// Inserting a job at its sorted place keeps ids increasing, and moves the
/// jobs at or after the place by one.
pub proof fn lemma_insert_facts(s: Seq<DownstairsIO>, p: int, j: DownstairsIO)
    requires
        0 <= p <= s.len(),
        ids_increasing(s),
        forall|k: int| 0 <= k < p ==> s[k].ds_id < j.ds_id,
        forall|k: int| p <= k < s.len() ==> s[k].ds_id > j.ds_id,
    ensures
        ids_increasing(s.insert(p, j)),
        forall|k: int| 0 <= k < p ==> s.insert(p, j)[k] == s[k],
        forall|k: int| p < k <= s.len() ==> s.insert(p, j)[k] == s[k - 1],
        s.insert(p, j)[p] == j,
        s.insert(p, j).len() == s.len() + 1,
{
    let t = s.insert(p, j);
    assert forall|a: int, b: int| 0 <= a < b < t.len() implies t[a].ds_id < t[b].ds_id by {
        if a < p && b < p {
        } else if a < p && b == p {
        } else if a < p {
            assert(t[b] == s[b - 1]);
        } else if a == p {
            assert(t[b] == s[b - 1]);
        } else {
            assert(t[a] == s[a - 1]);
            assert(t[b] == s[b - 1]);
        }
    }
}

pub fn contains_id(v: &Vec<JobId>, d: JobId) -> (r: bool)
    ensures
        r == v@.contains(d),
{
    let mut i: usize = 0;
    while i < v.len()
        invariant
            i <= v@.len(),
            forall|k: int| 0 <= k < i ==> v@[k] != d,
        decreases v@.len() - i,
    {
        if v[i] == d {
            assert(v@[i as int] == d);
            return true;
        }
        i = i + 1;
    }
    false
}

pub proof fn lemma_sum_push(s: Seq<DownstairsIO>, j: DownstairsIO)
    ensures
        sum_write_bytes(s.push(j)) == sum_write_bytes(s) + j.work.write_bytes(),
{
    assert(s.push(j).drop_last() == s);
}

pub proof fn lemma_sum_nonneg(s: Seq<DownstairsIO>)
    ensures
        sum_write_bytes(s) >= 0,
    decreases s.len(),
{
    if s.len() > 0 {
        lemma_sum_nonneg(s.drop_last());
    }
}

} // verus!
