//! What each client is sent for a job: the request message, chosen by the
//! kind of job and the client's role in a live repair, and which jobs are
//! next to send.
use vstd::prelude::*;
use crate::deps::ids_where;
use crate::downstairs::{has_id, Downstairs};
use crate::types::{Address, ClientId, DownstairsIO, IOState, IOop, ImpactedBlocks, JobId, SnapshotDetails};

verus! {

/// A request sent to one downstairs client.
#[derive(Clone, Debug)]
pub enum DsMessage {
    ReadRequest { job_id: JobId, dependencies: Vec<JobId>, blocks: ImpactedBlocks },
    Write { job_id: JobId, dependencies: Vec<JobId>, blocks: ImpactedBlocks, data: Vec<u8> },
    WriteUnwritten { job_id: JobId, dependencies: Vec<JobId>, blocks: ImpactedBlocks, data: Vec<u8> },
    Flush {
        job_id: JobId,
        dependencies: Vec<JobId>,
        flush_number: u64,
        gen_number: u64,
        snapshot_details: Option<SnapshotDetails>,
        extent_limit: Option<u64>,
    },
    /// Close an extent under repair, on a client being repaired.
    ExtentLiveClose { job_id: JobId, dependencies: Vec<JobId>, extent: u64 },
    /// Flush and close an extent under repair, on every other client.
    ExtentLiveFlushClose {
        job_id: JobId,
        dependencies: Vec<JobId>,
        extent: u64,
        flush_number: u64,
        gen_number: u64,
    },
    ExtentLiveRepair {
        job_id: JobId,
        dependencies: Vec<JobId>,
        extent: u64,
        source_client_id: ClientId,
        source_repair_address: Option<Address>,
    },
    ExtentLiveReopen { job_id: JobId, dependencies: Vec<JobId>, extent: u64 },
    ExtentLiveNoOp { job_id: JobId, dependencies: Vec<JobId> },
}

/// The job id and dependencies a message carries.
pub open spec fn carries(m: DsMessage, ds_id: JobId, deps: Seq<JobId>) -> bool {
    match m {
        DsMessage::ReadRequest { job_id, dependencies, .. } => job_id == ds_id && dependencies@ == deps,
        DsMessage::Write { job_id, dependencies, .. } => job_id == ds_id && dependencies@ == deps,
        DsMessage::WriteUnwritten { job_id, dependencies, .. } => job_id == ds_id && dependencies@ == deps,
        DsMessage::Flush { job_id, dependencies, .. } => job_id == ds_id && dependencies@ == deps,
        DsMessage::ExtentLiveClose { job_id, dependencies, .. } => job_id == ds_id && dependencies@ == deps,
        DsMessage::ExtentLiveFlushClose { job_id, dependencies, .. } => job_id == ds_id && dependencies@ == deps,
        DsMessage::ExtentLiveRepair { job_id, dependencies, .. } => job_id == ds_id && dependencies@ == deps,
        DsMessage::ExtentLiveReopen { job_id, dependencies, .. } => job_id == ds_id && dependencies@ == deps,
        DsMessage::ExtentLiveNoOp { job_id, dependencies } => job_id == ds_id && dependencies@ == deps,
    }
}

/// The message kind client `c` gets for job work `w`, with the fields that
/// come from the job: a close is a plain close on a client being repaired
/// and a flush-close elsewhere; a repair job is a repair on a client being
/// repaired and a no-op elsewhere.
pub open spec fn message_matches(m: DsMessage, w: IOop, c: ClientId) -> bool {
    match w {
        IOop::Read { blocks, .. } => m matches DsMessage::ReadRequest { blocks: b, .. } && b == blocks,
        IOop::Write { blocks, data, .. } => m matches DsMessage::Write { blocks: b, data: d, .. } && b == blocks
            && d@ == data@,
        IOop::WriteUnwritten { blocks, data, .. } => m matches DsMessage::WriteUnwritten { blocks: b, data: d, .. }
            && b == blocks && d@ == data@,
        IOop::Flush { flush_number, gen_number, extent_limit, .. } => m matches DsMessage::Flush {
            flush_number: f,
            gen_number: g,
            extent_limit: l,
            ..
        } && f == flush_number && g == gen_number && l == extent_limit,
        IOop::ExtentFlushClose { extent, flush_number, gen_number, repair_downstairs, .. } => if repair_downstairs@.contains(c) {
            m matches DsMessage::ExtentLiveClose { extent: e, .. } && e == extent
        } else {
            m matches DsMessage::ExtentLiveFlushClose { extent: e, flush_number: f, gen_number: g, .. } && e == extent
                && f == flush_number && g == gen_number
        },
        IOop::ExtentLiveRepair { extent, source_downstairs, source_repair_address, repair_downstairs, .. } => if repair_downstairs@.contains(c) {
            m matches DsMessage::ExtentLiveRepair { extent: e, source_client_id: s, source_repair_address: a, .. } && e == extent
                && s == source_downstairs && a == source_repair_address
        } else {
            m is ExtentLiveNoOp
        },
        IOop::ExtentLiveReopen { extent, .. } => m matches DsMessage::ExtentLiveReopen { extent: e, .. } && e == extent,
        IOop::ExtentLiveNoOp { .. } => m is ExtentLiveNoOp,
    }
}

fn contains_client(v: &Vec<ClientId>, c: ClientId) -> (r: bool)
    ensures
        r == v@.contains(c),
{
    let mut i: usize = 0;
    while i < v.len()
        invariant
            i <= v@.len(),
            forall|k: int| 0 <= k < i ==> v@[k] != c,
        decreases v@.len() - i,
    {
        if v[i] == c {
            assert(v@[i as int] == c);
            return true;
        }
        i = i + 1;
    }
    false
}

fn copy_bytes(v: &Vec<u8>) -> (r: Vec<u8>)
    ensures
        r@ == v@,
{
    let mut r: Vec<u8> = Vec::new();
    let mut i: usize = 0;
    while i < v.len()
        invariant
            i <= v@.len(),
            r@ == v@.subrange(0, i as int),
        decreases v@.len() - i,
    {
        assert(v@.subrange(0, i + 1) == v@.subrange(0, i as int).push(v@[i as int]));
        r.push(v[i]);
        i = i + 1;
    }
    assert(v@.subrange(0, v@.len() as int) == v@);
    r
}

/// The ids among `jobs` that are `New` on client `c`.
pub open spec fn new_on(jobs: Seq<DownstairsIO>, c: int) -> Seq<JobId> {
    ids_where(jobs, |j: DownstairsIO| j.state@[c] is New)
}

pub proof fn lemma_ids_where_prefix(s: Seq<DownstairsIO>, i: int, p: spec_fn(DownstairsIO) -> bool)
    requires
        0 <= i <= s.len(),
    ensures
        ids_where(s.subrange(0, i), p).len() <= ids_where(s, p).len(),
        ids_where(s.subrange(0, i), p) == ids_where(s, p).subrange(0, ids_where(s.subrange(0, i), p).len() as int),
    decreases s.len() - i,
{
    if i < s.len() {
        lemma_ids_where_prefix(s, i + 1, p);
        assert(s.subrange(0, i + 1).drop_last() == s.subrange(0, i));
        let a = ids_where(s.subrange(0, i), p);
        let b = ids_where(s.subrange(0, i + 1), p);
        let f = ids_where(s, p);
        assert(b.subrange(0, a.len() as int) == a);
        assert(f.subrange(0, a.len() as int) == f.subrange(0, b.len() as int).subrange(0, a.len() as int));
    } else {
        assert(s.subrange(0, i) == s);
        assert(ids_where(s, p).subrange(0, ids_where(s, p).len() as int) == ids_where(s, p));
    }
}

impl Downstairs {
    /// The message client `c` is sent for job `ds_id`, carrying `deps` as
    /// its dependencies; `None` for a job that is not active.
    pub fn message_for(&self, c: ClientId, ds_id: JobId, deps: Vec<JobId>) -> (r: Option<DsMessage>)
        requires
            self.wf(),
            c < 3,
        ensures
            r is None <==> !has_id(self.ds_active@, ds_id),
            r is Some ==> carries(r->0, ds_id, deps@) && message_matches(r->0, self.job(ds_id).work, c),
    {
        let i = match self.find_job(ds_id) {
            None => return None,
            Some(i) => i,
        };
        proof {
            self.lemma_job_unique(i as int);
        }
        let m = match &self.ds_active[i].work {
            IOop::Read { blocks, .. } => DsMessage::ReadRequest { job_id: ds_id, dependencies: deps, blocks: *blocks },
            IOop::Write { blocks, data, .. } => DsMessage::Write {
                job_id: ds_id,
                dependencies: deps,
                blocks: *blocks,
                data: copy_bytes(data),
            },
            IOop::WriteUnwritten { blocks, data, .. } => DsMessage::WriteUnwritten {
                job_id: ds_id,
                dependencies: deps,
                blocks: *blocks,
                data: copy_bytes(data),
            },
            IOop::Flush { flush_number, gen_number, snapshot_details, extent_limit, .. } => DsMessage::Flush {
                job_id: ds_id,
                dependencies: deps,
                flush_number: *flush_number,
                gen_number: *gen_number,
                snapshot_details: snapshot_details.clone(),
                extent_limit: *extent_limit,
            },
            IOop::ExtentFlushClose { extent, flush_number, gen_number, repair_downstairs, .. } => {
                if contains_client(repair_downstairs, c) {
                    DsMessage::ExtentLiveClose { job_id: ds_id, dependencies: deps, extent: *extent }
                } else {
                    DsMessage::ExtentLiveFlushClose {
                        job_id: ds_id,
                        dependencies: deps,
                        extent: *extent,
                        flush_number: *flush_number,
                        gen_number: *gen_number,
                    }
                }
            },
            IOop::ExtentLiveRepair { extent, source_downstairs, source_repair_address, repair_downstairs, .. } => {
                if contains_client(repair_downstairs, c) {
                    let addr = *source_repair_address;
                    DsMessage::ExtentLiveRepair {
                        job_id: ds_id,
                        dependencies: deps,
                        extent: *extent,
                        source_client_id: *source_downstairs,
                        source_repair_address: addr,
                    }
                } else {
                    DsMessage::ExtentLiveNoOp { job_id: ds_id, dependencies: deps }
                }
            },
            IOop::ExtentLiveReopen { extent, .. } => DsMessage::ExtentLiveReopen {
                job_id: ds_id,
                dependencies: deps,
                extent: *extent,
            },
            IOop::ExtentLiveNoOp { .. } => DsMessage::ExtentLiveNoOp { job_id: ds_id, dependencies: deps },
        };
        Some(m)
    }

    /// The ids of the jobs that are `New` on client `c`, in increasing
    /// order, at most `n` of them: the next jobs to send it.
    pub fn new_work(&self, c: ClientId, n: usize) -> (r: Vec<JobId>)
        requires
            self.wf(),
            c < 3,
        ensures
            r@.len() == if new_on(self.ds_active@, c as int).len() < n {
                new_on(self.ds_active@, c as int).len() as int
            } else {
                n as int
            },
            r@ == new_on(self.ds_active@, c as int).subrange(0, r@.len() as int),
    {
        let mut r: Vec<JobId> = Vec::new();
        let mut i: usize = 0;
        while i < self.ds_active.len() && r.len() < n
            invariant
                self.wf(),
                c < 3,
                i <= self.ds_active@.len(),
                r@ == ids_where(self.ds_active@.subrange(0, i as int), |j: DownstairsIO| j.state@[c as int] is New),
                r@.len() <= n,
            decreases self.ds_active@.len() - i,
        {
            proof {
                assert(self.ds_active@.subrange(0, i + 1).drop_last() == self.ds_active@.subrange(0, i as int));
                assert(self.ds_active@.subrange(0, i + 1).last() == self.ds_active@[i as int]);
                assert(self.ds_active@[i as int].wf());
            }
            if matches!(self.ds_active[i].state[c], IOState::New) {
                r.push(self.ds_active[i].ds_id);
            }
            i = i + 1;
        }
        proof {
            lemma_ids_where_prefix(self.ds_active@, i as int, |j: DownstairsIO| j.state@[c as int] is New);
            if i == self.ds_active@.len() {
                assert(self.ds_active@.subrange(0, i as int) == self.ds_active@);
            }
        }
        r
    }
}

} // verus!
