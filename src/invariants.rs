//! Facts that hold of every well-formed coordinator, and of the rules that
//! its operations follow.
use vstd::prelude::*;
use crate::ack::{ack_ready, all_terminal, job_result};
use crate::downstairs::{has_id, jobs_without, retirable, retired_ids, sum_write_bytes, Downstairs};
use crate::types::DownstairsIO;
use crate::ring::ring_contents;
use crate::types::{CrucibleError, IOState, IOop, JobId};

verus! {

/// Every dependency of every active job has a smaller id than the job, and
/// is itself active, already retired, or an id handed to a live-repair job
/// that is not enqueued yet.
pub proof fn lemma_dependencies_precede(ds: Downstairs)
    requires
        ds.wf(),
    ensures
        forall|i: int, k: int|
            0 <= i < ds.ds_active@.len() && 0 <= k < ds.ds_active@[i].work.deps().len() ==> {
                &&& #[trigger] ds.ds_active@[i].work.deps()[k] < ds.ds_active@[i].ds_id
                &&& has_id(ds.ds_active@, ds.ds_active@[i].work.deps()[k])
                    || ds.retired@.contains(ds.ds_active@[i].work.deps()[k])
                    || ds.pending@.contains(ds.ds_active@[i].work.deps()[k])
            },
{
}

/// Every id in the bounded record of retired jobs was retired.
pub proof fn lemma_completed_were_retired(ds: Downstairs, d: JobId)
    requires
        ds.wf(),
        ring_contents(ds.completed).contains(d),
    ensures
        ds.retired@.contains(d),
{
}

/// The write bytes counted as outstanding are exactly the payload bytes of
/// the writes that are not retired.
pub proof fn lemma_write_bytes_outstanding(ds: Downstairs)
    requires
        ds.wf(),
    ensures
        ds.write_bytes_outstanding == sum_write_bytes(ds.ds_active@),
{
}

/// A retire check at flush `flush_id` retires only jobs at or before the
/// flush that every client finished and that were acked; when it retires
/// anything, the flush itself is among them.
pub proof fn lemma_retired_jobs_precede_flush(ds: Downstairs, flush_id: JobId)
    requires
        ds.wf(),
    ensures
        forall|d: JobId|
            #[trigger] retired_ids(ds.ds_active@, flush_id).contains(d) ==> exists|k: int|
                0 <= k < ds.ds_active@.len() && ds.ds_active@[k].ds_id == d && d <= flush_id
                    && ds.ds_active@[k].acked && all_terminal(ds.ds_active@[k].state@),
        ds.retire_fires(flush_id) ==> retired_ids(ds.ds_active@, flush_id).contains(flush_id),
{
    if ds.retire_fires(flush_id) {
        let k = choose|k: int| 0 <= k < ds.ds_active@.len() && ds.ds_active@[k].ds_id == flush_id;
        ds.lemma_job_unique(k);
        assert(retirable(ds.ds_active@[k], flush_id));
    }
}

/// The jobs left after removing those satisfying `p` satisfy none of it.
pub proof fn lemma_jobs_without_excludes(jobs: Seq<DownstairsIO>, p: spec_fn(DownstairsIO) -> bool)
    ensures
        forall|k: int| 0 <= k < jobs_without(jobs, p).len() ==> !p(#[trigger] jobs_without(jobs, p)[k]),
    decreases jobs.len(),
{
    if jobs.len() > 0 {
        lemma_jobs_without_excludes(jobs.drop_last(), p);
        let r = jobs_without(jobs, p);
        let ri = jobs_without(jobs.drop_last(), p);
        assert forall|k: int| 0 <= k < r.len() implies !p(#[trigger] r[k]) by {
            if k < ri.len() {
                assert(r[k] == ri[k]);
            }
        }
    }
}

/// No job that a retire check at flush `flush_id` retires stays active
/// after it: every job `after` holds at or before the flush is one that
/// some client has not finished or that was not acked.
pub proof fn lemma_nothing_retirable_left(jobs: Seq<DownstairsIO>, flush_id: JobId, after: Seq<DownstairsIO>)
    requires
        after == jobs_without(jobs, |j: DownstairsIO| retirable(j, flush_id)),
    ensures
        forall|k: int| 0 <= k < after.len() ==> !retirable(#[trigger] after[k], flush_id),
{
    lemma_jobs_without_excludes(jobs, |j: DownstairsIO| retirable(j, flush_id));
}

/// A job that every client skipped has failed, with all three counted, and
/// may be acknowledged at once.
pub proof fn lemma_skipped_everywhere_fails(work: IOop)
    ensures
        job_result(work, seq![IOState::Skipped, IOState::Skipped, IOState::Skipped])
            == Err::<(), CrucibleError>(CrucibleError::IoError(3)),
        ack_ready(work, seq![IOState::Skipped, IOState::Skipped, IOState::Skipped]),
{
    let s = seq![IOState::Skipped, IOState::Skipped, IOState::Skipped];
    assert(s[0] is Skipped && s[1] is Skipped && s[2] is Skipped);
}

} // verus!
