//! The dependency index: which earlier jobs a new job must wait for.
use vstd::prelude::*;
use crate::types::{DownstairsIO, ExtentRepairIDs, ImpactedBlocks, IOop, JobId};

verus! {

/// The shape of a new job, as far as its dependencies are concerned.
#[derive(Clone, Copy, Debug, PartialEq, Eq, Structural)]
pub enum NewJob {
    Read(ImpactedBlocks),
    Write(ImpactedBlocks),
    /// A live-repair job on one extent.
    Repair(u64),
}

/// Job ids reserved for the future repair of one extent, with the
/// dependencies of that extent's close job.
#[derive(Clone, Debug)]
pub struct Reservation {
    pub extent: u64,
    pub ids: ExtentRepairIDs,
    pub deps: Vec<JobId>,
}

/// Whether an existing job of kind `work` touches extent `e`.
pub open spec fn touches_extent(work: IOop, extent_size: u64, e: int) -> bool {
    match work {
        IOop::Read { blocks, .. } => blocks.touches_extent(extent_size, e),
        IOop::Write { blocks, .. } => blocks.touches_extent(extent_size, e),
        IOop::WriteUnwritten { blocks, .. } => blocks.touches_extent(extent_size, e),
        IOop::Flush { .. } => true,
        IOop::ExtentFlushClose { extent, .. } => extent == e,
        IOop::ExtentLiveRepair { extent, .. } => extent == e,
        IOop::ExtentLiveReopen { extent, .. } => extent == e,
        IOop::ExtentLiveNoOp { .. } => false,
    }
}

/// Whether a new job must wait for an existing job of kind `work`.
/// Reads wait for overlapping writes; writes wait for overlapping reads and
/// writes; both wait for every flush and for repair jobs on a touched
/// extent; repair jobs wait for every job that touches their extent.
pub open spec fn must_follow(work: IOop, new: NewJob, extent_size: u64) -> bool {
    match new {
        NewJob::Read(b) => match work {
            IOop::Read { .. } => false,
            IOop::Write { blocks, .. } => blocks.overlaps(b),
            IOop::WriteUnwritten { blocks, .. } => blocks.overlaps(b),
            IOop::Flush { .. } => true,
            IOop::ExtentFlushClose { extent, .. } => b.touches_extent(extent_size, extent as int),
            IOop::ExtentLiveRepair { extent, .. } => b.touches_extent(extent_size, extent as int),
            IOop::ExtentLiveReopen { extent, .. } => b.touches_extent(extent_size, extent as int),
            IOop::ExtentLiveNoOp { .. } => false,
        },
        NewJob::Write(b) => match work {
            IOop::Read { blocks, .. } => blocks.overlaps(b),
            IOop::Write { blocks, .. } => blocks.overlaps(b),
            IOop::WriteUnwritten { blocks, .. } => blocks.overlaps(b),
            IOop::Flush { .. } => true,
            IOop::ExtentFlushClose { extent, .. } => b.touches_extent(extent_size, extent as int),
            IOop::ExtentLiveRepair { extent, .. } => b.touches_extent(extent_size, extent as int),
            IOop::ExtentLiveReopen { extent, .. } => b.touches_extent(extent_size, extent as int),
            IOop::ExtentLiveNoOp { .. } => false,
        },
        NewJob::Repair(e) => touches_extent(work, extent_size, e as int),
    }
}

/// The ids of the jobs of `jobs` that satisfy `p`, in order.
pub open spec fn ids_where(jobs: Seq<DownstairsIO>, p: spec_fn(DownstairsIO) -> bool) -> Seq<
    JobId,
>
    decreases jobs.len(),
{
    if jobs.len() == 0 {
        Seq::empty()
    } else {
        let rest = ids_where(jobs.drop_last(), p);
        if p(jobs.last()) {
            rest.push(jobs.last().ds_id)
        } else {
            rest
        }
    }
}

/// Every id picked out is the id of a job that satisfies the predicate, and
/// every such job's id is picked out.
pub proof fn lemma_ids_where(jobs: Seq<DownstairsIO>, p: spec_fn(DownstairsIO) -> bool)
    ensures
        forall|d: JobId|
            ids_where(jobs, p).contains(d) ==> exists|k: int|
                0 <= k < jobs.len() && jobs[k].ds_id == d && p(jobs[k]),
        forall|k: int|
            0 <= k < jobs.len() && p(jobs[k]) ==> ids_where(jobs, p).contains(jobs[k].ds_id),
    decreases jobs.len(),
{
    if jobs.len() > 0 {
        let init = jobs.drop_last();
        lemma_ids_where(init, p);
        let rest = ids_where(init, p);
        assert forall|d: JobId| ids_where(jobs, p).contains(d) implies exists|k: int|
            0 <= k < jobs.len() && jobs[k].ds_id == d && p(jobs[k]) by {
            if rest.contains(d) {
                let k = choose|k: int| 0 <= k < init.len() && init[k].ds_id == d && p(init[k]);
                assert(jobs[k] == init[k]);
            } else {
                assert(p(jobs.last()) && d == jobs.last().ds_id);
                assert(jobs[jobs.len() - 1] == jobs.last());
            }
        }
        assert forall|k: int| 0 <= k < jobs.len() && p(jobs[k]) implies ids_where(
            jobs,
            p,
        ).contains(jobs[k].ds_id) by {
            if k < jobs.len() - 1 {
                assert(init[k] == jobs[k]);
                assert(rest.contains(init[k].ds_id));
                if p(jobs.last()) {
                    let i = choose|i: int| 0 <= i < rest.len() && rest[i] == jobs[k].ds_id;
                    assert(rest.push(jobs.last().ds_id)[i] == jobs[k].ds_id);
                }
            } else {
                assert(jobs[k] == jobs.last());
                assert(ids_where(jobs, p) == rest.push(jobs.last().ds_id));
                assert(ids_where(jobs, p)[rest.len() as int] == jobs.last().ds_id);
            }
        }
    }
}

/// Reopen ids of the reservations that a new job must wait for: those on an
/// extent that the job touches.
pub open spec fn reserved_reopens(
    res: Seq<Reservation>,
    new: NewJob,
    extent_size: u64,
) -> Seq<JobId>
    decreases res.len(),
{
    if res.len() == 0 {
        Seq::empty()
    } else {
        let rest = reserved_reopens(res.drop_last(), new, extent_size);
        let r = res.last();
        let hit = match new {
            NewJob::Read(b) => b.touches_extent(extent_size, r.extent as int),
            NewJob::Write(b) => b.touches_extent(extent_size, r.extent as int),
            NewJob::Repair(_) => false,
        };
        if hit {
            rest.push(r.ids.reopen_id)
        } else {
            rest
        }
    }
}

pub proof fn lemma_reserved_reopens(res: Seq<Reservation>, new: NewJob, extent_size: u64)
    ensures
        forall|d: JobId|
            reserved_reopens(res, new, extent_size).contains(d) ==> exists|k: int|
                0 <= k < res.len() && res[k].ids.reopen_id == d,
    decreases res.len(),
{
    if res.len() > 0 {
        let init = res.drop_last();
        lemma_reserved_reopens(init, new, extent_size);
        assert forall|d: JobId| reserved_reopens(res, new, extent_size).contains(d) implies exists|
            k: int,
        | 0 <= k < res.len() && res[k].ids.reopen_id == d by {
            if reserved_reopens(init, new, extent_size).contains(d) {
                let k = choose|k: int| 0 <= k < init.len() && init[k].ids.reopen_id == d;
                assert(res[k] == init[k]);
            } else {
                assert(res[res.len() - 1] == res.last());
            }
        }
    }
}

/// A repair job waits on no reserved reopen job.
pub proof fn lemma_repair_no_reopens(res: Seq<Reservation>, e: u64, extent_size: u64)
    ensures
        reserved_reopens(res, NewJob::Repair(e), extent_size) == Seq::<JobId>::empty(),
    decreases res.len(),
{
    if res.len() > 0 {
        lemma_repair_no_reopens(res.drop_last(), e, extent_size);
    }
}

/// The dependencies of a new job: the active jobs it must follow, in id
/// order, then the reserved reopen jobs on extents it touches.
pub open spec fn deps_spec(
    jobs: Seq<DownstairsIO>,
    res: Seq<Reservation>,
    new: NewJob,
    extent_size: u64,
) -> Seq<JobId> {
    ids_where(jobs, |j: DownstairsIO| must_follow(j.work, new, extent_size)) + reserved_reopens(
        res,
        new,
        extent_size,
    )
}

fn must_follow_exec(work: &IOop, new: &NewJob, extent_size: u64) -> (r: bool)
    requires
        extent_size > 0,
    ensures
        r == must_follow(*work, *new, extent_size),
{
    match new {
        NewJob::Read(b) => match work {
            IOop::Read { .. } => false,
            IOop::Write { blocks, .. } => blocks.overlaps_exec(b),
            IOop::WriteUnwritten { blocks, .. } => blocks.overlaps_exec(b),
            IOop::Flush { .. } => true,
            IOop::ExtentFlushClose { extent, .. } => b.first_extent(extent_size) <= *extent
                && *extent <= b.last_extent(extent_size),
            IOop::ExtentLiveRepair { extent, .. } => b.first_extent(extent_size) <= *extent
                && *extent <= b.last_extent(extent_size),
            IOop::ExtentLiveReopen { extent, .. } => b.first_extent(extent_size) <= *extent
                && *extent <= b.last_extent(extent_size),
            IOop::ExtentLiveNoOp { .. } => false,
        },
        NewJob::Write(b) => match work {
            IOop::Read { blocks, .. } => blocks.overlaps_exec(b),
            IOop::Write { blocks, .. } => blocks.overlaps_exec(b),
            IOop::WriteUnwritten { blocks, .. } => blocks.overlaps_exec(b),
            IOop::Flush { .. } => true,
            IOop::ExtentFlushClose { extent, .. } => b.first_extent(extent_size) <= *extent
                && *extent <= b.last_extent(extent_size),
            IOop::ExtentLiveRepair { extent, .. } => b.first_extent(extent_size) <= *extent
                && *extent <= b.last_extent(extent_size),
            IOop::ExtentLiveReopen { extent, .. } => b.first_extent(extent_size) <= *extent
                && *extent <= b.last_extent(extent_size),
            IOop::ExtentLiveNoOp { .. } => false,
        },
        NewJob::Repair(e) => match work {
            IOop::Read { blocks, .. } => blocks.first_extent(extent_size) <= *e && *e
                <= blocks.last_extent(extent_size),
            IOop::Write { blocks, .. } => blocks.first_extent(extent_size) <= *e && *e
                <= blocks.last_extent(extent_size),
            IOop::WriteUnwritten { blocks, .. } => blocks.first_extent(extent_size) <= *e && *e
                <= blocks.last_extent(extent_size),
            IOop::Flush { .. } => true,
            IOop::ExtentFlushClose { extent, .. } => *extent == *e,
            IOop::ExtentLiveRepair { extent, .. } => *extent == *e,
            IOop::ExtentLiveReopen { extent, .. } => *extent == *e,
            IOop::ExtentLiveNoOp { .. } => false,
        },
    }
}

/// Computes the dependencies of a new job (see `deps_spec`).
pub fn deps_for(
    jobs: &Vec<DownstairsIO>,
    res: &Vec<Reservation>,
    new: NewJob,
    extent_size: u64,
) -> (r: Vec<JobId>)
    requires
        extent_size > 0,
    ensures
        r@ == deps_spec(jobs@, res@, new, extent_size),
{
    let mut r: Vec<JobId> = Vec::new();
    let mut i: usize = 0;
    while i < jobs.len()
        invariant
            extent_size > 0,
            i <= jobs@.len(),
            r@ == ids_where(
                jobs@.subrange(0, i as int),
                |j: DownstairsIO| must_follow(j.work, new, extent_size),
            ),
        decreases jobs@.len() - i,
    {
        assert(jobs@.subrange(0, i + 1).drop_last() == jobs@.subrange(0, i as int));
        assert(jobs@.subrange(0, i + 1).last() == jobs@[i as int]);
        if must_follow_exec(&jobs[i].work, &new, extent_size) {
            r.push(jobs[i].ds_id);
        }
        i = i + 1;
    }
    assert(jobs@.subrange(0, jobs@.len() as int) == jobs@);
    let mut extra: Vec<JobId> = Vec::new();
    let mut k: usize = 0;
    while k < res.len()
        invariant
            extent_size > 0,
            k <= res@.len(),
            extra@ == reserved_reopens(res@.subrange(0, k as int), new, extent_size),
        decreases res@.len() - k,
    {
        assert(res@.subrange(0, k + 1).drop_last() == res@.subrange(0, k as int));
        let hit = match new {
            NewJob::Read(b) => b.first_extent(extent_size) <= res[k].extent && res[k].extent
                <= b.last_extent(extent_size),
            NewJob::Write(b) => b.first_extent(extent_size) <= res[k].extent && res[k].extent
                <= b.last_extent(extent_size),
            NewJob::Repair(_) => false,
        };
        if hit {
            extra.push(res[k].ids.reopen_id);
        }
        k = k + 1;
    }
    assert(res@.subrange(0, res@.len() as int) == res@);
    let mut j: usize = 0;
    let ghost r0 = r@;
    while j < extra.len()
        invariant
            j <= extra@.len(),
            r@ == r0 + extra@.subrange(0, j as int),
        decreases extra@.len() - j,
    {
        assert(extra@.subrange(0, j + 1) == extra@.subrange(0, j as int).push(extra@[j as int]));
        r.push(extra[j]);
        j = j + 1;
    }
    assert(extra@.subrange(0, extra@.len() as int) == extra@);
    r
}

/// The dependencies of a new flush: the most recent active flush and every
/// job after it, or every active job when none is a flush.
pub open spec fn flush_deps_spec(jobs: Seq<DownstairsIO>) -> Seq<JobId>
    decreases jobs.len(),
{
    if jobs.len() == 0 {
        Seq::empty()
    } else if jobs.last().work is Flush {
        seq![jobs.last().ds_id]
    } else {
        flush_deps_spec(jobs.drop_last()).push(jobs.last().ds_id)
    }
}

pub proof fn lemma_flush_deps(jobs: Seq<DownstairsIO>)
    ensures
        forall|d: JobId|
            flush_deps_spec(jobs).contains(d) ==> exists|k: int|
                0 <= k < jobs.len() && jobs[k].ds_id == d,
    decreases jobs.len(),
{
    if jobs.len() > 0 {
        let init = jobs.drop_last();
        lemma_flush_deps(init);
        assert forall|d: JobId| flush_deps_spec(jobs).contains(d) implies exists|k: int|
            0 <= k < jobs.len() && jobs[k].ds_id == d by {
            if jobs.last().work is Flush {
                assert(jobs[jobs.len() - 1] == jobs.last());
            } else if flush_deps_spec(init).contains(d) {
                let k = choose|k: int| 0 <= k < init.len() && init[k].ds_id == d;
                assert(jobs[k] == init[k]);
            } else {
                assert(jobs[jobs.len() - 1] == jobs.last());
            }
        }
    }
}

/// Computes the dependencies of a new flush (see `flush_deps_spec`).
pub fn deps_for_flush(jobs: &Vec<DownstairsIO>) -> (r: Vec<JobId>)
    ensures
        r@ == flush_deps_spec(jobs@),
{
    // Find where the most recent flush stands.
    let mut start: usize = jobs.len();
    assert(jobs@.subrange(0, jobs@.len() as int) == jobs@);
    assert(jobs@.subrange(jobs@.len() as int, jobs@.len() as int).map_values(
        |j: DownstairsIO| j.ds_id,
    ) == Seq::<JobId>::empty());
    while start > 0
        invariant
            start <= jobs@.len(),
            flush_deps_spec(jobs@) == flush_deps_spec(jobs@.subrange(0, start as int)) + jobs@.subrange(
                start as int,
                jobs@.len() as int,
            ).map_values(|j: DownstairsIO| j.ds_id),
        ensures
            start <= jobs@.len(),
            start > 0 ==> jobs@[start - 1].work is Flush,
            flush_deps_spec(jobs@) == flush_deps_spec(jobs@.subrange(0, start as int)) + jobs@.subrange(
                start as int,
                jobs@.len() as int,
            ).map_values(|j: DownstairsIO| j.ds_id),
        decreases start,
    {
        let ghost pre = jobs@.subrange(0, start as int);
        assert(pre.drop_last() == jobs@.subrange(0, start - 1));
        assert(pre.last() == jobs@[start - 1]);
        if jobs[start - 1].work.is_flush() {
            break;
        }
        assert(jobs@.subrange(start - 1, jobs@.len() as int).map_values(
            |j: DownstairsIO| j.ds_id,
        ) == seq![jobs@[start - 1].ds_id] + jobs@.subrange(start as int, jobs@.len() as int).map_values(
            |j: DownstairsIO| j.ds_id,
        ));
        start = start - 1;
    }
    let mut r: Vec<JobId> = Vec::new();
    let mut i: usize = if start > 0 { start - 1 } else { 0 };
    let ghost first = i;
    proof {
        if start > 0 {
            let pre = jobs@.subrange(0, start as int);
            assert(pre.last() == jobs@[start - 1]);
            assert(flush_deps_spec(pre) == seq![jobs@[start - 1].ds_id]);
            assert(seq![jobs@[start - 1].ds_id] == jobs@.subrange(first as int, start as int).map_values(
                |j: DownstairsIO| j.ds_id,
            ));
        } else {
            assert(jobs@.subrange(0, 0).len() == 0);
        }
        assert(flush_deps_spec(jobs@) == jobs@.subrange(first as int, jobs@.len() as int).map_values(
            |j: DownstairsIO| j.ds_id,
        ));
    }
    while i < jobs.len()
        invariant
            first <= i <= jobs@.len(),
            r@ == jobs@.subrange(first as int, i as int).map_values(|j: DownstairsIO| j.ds_id),
        decreases jobs@.len() - i,
    {
        assert(jobs@.subrange(first as int, i + 1) == jobs@.subrange(first as int, i as int).push(
            jobs@[i as int],
        ));
        r.push(jobs[i].ds_id);
        i = i + 1;
    }
    r
}

} // verus!
