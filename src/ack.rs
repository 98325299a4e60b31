//! Counting per-client job states, and the acknowledgement rules.
use vstd::prelude::*;
use crate::types::{CrucibleError, DownstairsIO, IOState, IOop};

verus! {

pub open spec fn ind(b: bool) -> int {
    if b { 1 } else { 0 }
}

pub open spec fn count3(s: Seq<IOState>, p: spec_fn(IOState) -> bool) -> int {
    ind(p(s[0])) + ind(p(s[1])) + ind(p(s[2]))
}

pub open spec fn is_new(s: IOState) -> bool { s is New }
pub open spec fn is_in_progress(s: IOState) -> bool { s is InProgress }
pub open spec fn is_done(s: IOState) -> bool { s is Done }
pub open spec fn is_skipped(s: IOState) -> bool { s is Skipped }
pub open spec fn is_error(s: IOState) -> bool { s is Error }

/// `Done`, `Skipped` and `Error` are final for a job on a client.
pub open spec fn is_terminal(s: IOState) -> bool {
    s is Done || s is Skipped || s is Error
}

pub open spec fn done_count(s: Seq<IOState>) -> int { count3(s, |x: IOState| is_done(x)) }
pub open spec fn skipped_count(s: Seq<IOState>) -> int { count3(s, |x: IOState| is_skipped(x)) }
pub open spec fn error_count(s: Seq<IOState>) -> int { count3(s, |x: IOState| is_error(x)) }
pub open spec fn new_count(s: Seq<IOState>) -> int { count3(s, |x: IOState| is_new(x)) }
pub open spec fn in_progress_count(s: Seq<IOState>) -> int {
    count3(s, |x: IOState| is_in_progress(x))
}

pub open spec fn all_terminal(s: Seq<IOState>) -> bool {
    is_terminal(s[0]) && is_terminal(s[1]) && is_terminal(s[2])
}

/// Counts of a job's three per-client states.
#[derive(Clone, Copy, Debug, PartialEq, Eq, Structural)]
pub struct IOStateCount {
    pub new: u64,
    pub in_progress: u64,
    pub done: u64,
    pub skipped: u64,
    pub error: u64,
}

impl IOStateCount {
    pub open spec fn matches(self, s: Seq<IOState>) -> bool {
        &&& self.new == new_count(s)
        &&& self.in_progress == in_progress_count(s)
        &&& self.done == done_count(s)
        &&& self.skipped == skipped_count(s)
        &&& self.error == error_count(s)
    }
}

/// Counts the states of a job over its three clients.
pub fn state_count(s: &Vec<IOState>) -> (r: IOStateCount)
    requires
        s@.len() == 3,
    ensures
        r.matches(s@),
        r.new + r.in_progress + r.done + r.skipped + r.error == 3,
{
    let mut r = IOStateCount { new: 0, in_progress: 0, done: 0, skipped: 0, error: 0 };
    let mut i: usize = 0;
    while i < 3
        invariant
            s@.len() == 3,
            0 <= i <= 3,
            r.new == (if i > 0 { ind(is_new(s@[0])) } else { 0 }) + (if i > 1 {
                ind(is_new(s@[1]))
            } else {
                0
            }) + (if i > 2 { ind(is_new(s@[2])) } else { 0 }),
            r.in_progress == (if i > 0 { ind(is_in_progress(s@[0])) } else { 0 }) + (if i > 1 {
                ind(is_in_progress(s@[1]))
            } else {
                0
            }) + (if i > 2 { ind(is_in_progress(s@[2])) } else { 0 }),
            r.done == (if i > 0 { ind(is_done(s@[0])) } else { 0 }) + (if i > 1 {
                ind(is_done(s@[1]))
            } else {
                0
            }) + (if i > 2 { ind(is_done(s@[2])) } else { 0 }),
            r.skipped == (if i > 0 { ind(is_skipped(s@[0])) } else { 0 }) + (if i > 1 {
                ind(is_skipped(s@[1]))
            } else {
                0
            }) + (if i > 2 { ind(is_skipped(s@[2])) } else { 0 }),
            r.error == (if i > 0 { ind(is_error(s@[0])) } else { 0 }) + (if i > 1 {
                ind(is_error(s@[1]))
            } else {
                0
            }) + (if i > 2 { ind(is_error(s@[2])) } else { 0 }),
            r.new + r.in_progress + r.done + r.skipped + r.error == i,
        decreases 3 - i,
    {
        match s[i] {
            IOState::New => r.new = r.new + 1,
            IOState::InProgress => r.in_progress = r.in_progress + 1,
            IOState::Done => r.done = r.done + 1,
            IOState::Skipped => r.skipped = r.skipped + 1,
            IOState::Error(_) => r.error = r.error + 1,
        }
        i = i + 1;
    }
    r
}

/// Whether a job with these client states has failed, per the kind of work:
/// a read fails unless some client returned it `Done`; a write or flush
/// fails when more than one client skipped or errored, and a snapshot flush
/// also unless all three are `Done`; a repair job fails on any error or on
/// more than one skip.
pub open spec fn job_failed(work: IOop, s: Seq<IOState>) -> bool {
    match work {
        IOop::Read { .. } => done_count(s) == 0,
        IOop::Write { .. } => skipped_count(s) + error_count(s) > 1,
        IOop::WriteUnwritten { .. } => skipped_count(s) + error_count(s) > 1,
        IOop::Flush { snapshot_details, .. } => skipped_count(s) + error_count(s) > 1 || (
        snapshot_details is Some && done_count(s) != 3),
        _ => error_count(s) >= 1 || skipped_count(s) > 1,
    }
}

/// What the guest is told about a job with these client states.
pub open spec fn job_result(work: IOop, s: Seq<IOState>) -> Result<(), CrucibleError> {
    if job_failed(work, s) {
        Err(CrucibleError::IoError((error_count(s) + skipped_count(s)) as u64))
    } else {
        Ok(())
    }
}

/// Whether enough clients have answered for the job to be acknowledged:
/// a write at once (fast-ack); a read on its first `Done`; a flush on two
/// `Done`, or three for a snapshot; a repair job on three `Done`; any job
/// once every client is in a final state.
pub open spec fn ack_ready(work: IOop, s: Seq<IOState>) -> bool {
    all_terminal(s) || match work {
        IOop::Read { .. } => done_count(s) >= 1,
        IOop::Write { .. } => true,
        IOop::WriteUnwritten { .. } => true,
        IOop::Flush { snapshot_details, .. } => if snapshot_details is Some {
            done_count(s) == 3
        } else {
            done_count(s) >= 2
        },
        _ => done_count(s) == 3,
    }
}

/// The result a job reports to the guest.
pub fn result(job: &DownstairsIO) -> (r: Result<(), CrucibleError>)
    requires
        job.wf(),
    ensures
        r == job_result(job.work, job.state@),
{
    let wc = state_count(&job.state);
    let bad_job = match &job.work {
        IOop::Read { .. } => wc.done == 0,
        IOop::Write { .. } => wc.skipped + wc.error > 1,
        IOop::WriteUnwritten { .. } => wc.skipped + wc.error > 1,
        IOop::Flush { snapshot_details, .. } => wc.skipped + wc.error > 1 || (
        snapshot_details.is_some() && wc.done != 3),
        _ => wc.error >= 1 || wc.skipped > 1,
    };
    if bad_job {
        Err(CrucibleError::IoError(wc.error + wc.skipped))
    } else {
        Ok(())
    }
}

/// Whether the job may be acknowledged with its current client states.
pub fn is_ack_ready(job: &DownstairsIO) -> (r: bool)
    requires
        job.wf(),
    ensures
        r == ack_ready(job.work, job.state@),
{
    let wc = state_count(&job.state);
    if wc.done + wc.skipped + wc.error == 3 {
        return true;
    }
    match &job.work {
        IOop::Read { .. } => wc.done >= 1,
        IOop::Write { .. } => true,
        IOop::WriteUnwritten { .. } => true,
        IOop::Flush { snapshot_details, .. } => {
            if snapshot_details.is_some() {
                wc.done == 3
            } else {
                wc.done >= 2
            }
        },
        _ => wc.done == 3,
    }
}

/// Whether every client has reached a final state for the job.
pub fn is_all_terminal(s: &Vec<IOState>) -> (r: bool)
    requires
        s@.len() == 3,
    ensures
        r == all_terminal(s@),
{
    let wc = state_count(s);
    wc.done + wc.skipped + wc.error == 3
}

} // verus!
