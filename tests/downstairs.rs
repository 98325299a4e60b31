use upstairs::ack::{result, state_count};
use upstairs::downstairs::{is_legal_transition, Downstairs, Response};
use upstairs::types::{
    Address, ReplaceResult, CrucibleError, DownstairsIO, DsState, IOState, IOop, ImpactedBlocks, ReadResponse,
    RegionGeometry, SnapshotDetails, FIRST_JOB_ID,
};

fn test_ds() -> Downstairs {
    Downstairs::new(RegionGeometry { extent_size: 100, extent_count: 10 }, 7, 8)
}

fn job(ds: &Downstairs, id: u64) -> &DownstairsIO {
    let i = ds.find_job(id).expect("job is active");
    &ds.ds_active[i]
}

fn read_of(byte: u8) -> Result<Vec<ReadResponse>, CrucibleError> {
    Ok(vec![ReadResponse { data: vec![byte], hash: 1000 + byte as u64 }])
}

fn blocks(first: u64, last: u64) -> ImpactedBlocks {
    ImpactedBlocks { first_block: first, last_block: last }
}

fn all_in_progress(ds: &mut Downstairs, id: u64) {
    for c in 0..3 {
        ds.in_progress(id, c);
    }
}

#[test]
fn work_flush_three_ok() {
    let mut ds = test_ds();
    let next_id = ds.submit_flush(0, 0, None);
    all_in_progress(&mut ds, next_id);

    assert_eq!(ds.process_ds_completion(next_id, 0, Ok(vec![]), None), Ok(false));
    assert!(ds.ackable_work.is_empty());
    assert!(ds.completed_ids().is_empty());

    assert_eq!(ds.process_ds_completion(next_id, 1, Ok(vec![]), None), Ok(true));
    assert_eq!(ds.ackable_work.len(), 1);
    assert!(ds.completed_ids().is_empty());

    assert!(!job(&ds, next_id).acked);
    assert!(ds.ack(next_id));

    assert_eq!(ds.process_ds_completion(next_id, 2, Ok(vec![]), None), Ok(false));
    assert!(ds.ackable_work.is_empty());
    assert_eq!(ds.completed_ids().len(), 1);
}

#[test]
fn work_flush_snapshot_needs_three() {
    let mut ds = test_ds();
    let snap = SnapshotDetails { snapshot_name: String::from("snap") };
    let next_id = ds.submit_flush(0, 0, Some(snap));
    all_in_progress(&mut ds, next_id);

    assert_eq!(ds.process_ds_completion(next_id, 0, Ok(vec![]), None), Ok(false));
    assert!(ds.ackable_work.is_empty());
    assert!(ds.completed_ids().is_empty());

    assert_eq!(ds.process_ds_completion(next_id, 1, Ok(vec![]), None), Ok(false));
    assert!(ds.ackable_work.is_empty());
    assert!(ds.completed_ids().is_empty());

    assert_eq!(ds.process_ds_completion(next_id, 2, Ok(vec![]), None), Ok(true));
    assert_eq!(ds.ackable_work.len(), 1);

    ds.ack(next_id);
    ds.retire_check(next_id);
    assert_eq!(ds.completed_ids().len(), 1);
}

#[test]
fn work_flush_one_error_then_ok() {
    let mut ds = test_ds();
    let next_id = ds.submit_flush(0, 0, None);
    all_in_progress(&mut ds, next_id);

    assert_eq!(
        ds.process_ds_completion(next_id, 0, Err(CrucibleError::GenericError), None),
        Ok(false)
    );
    assert!(ds.ackable_work.is_empty());
    assert!(ds.completed_ids().is_empty());

    assert_eq!(ds.process_ds_completion(next_id, 1, Ok(vec![]), None), Ok(false));
    assert!(ds.ackable_work.is_empty());
    assert!(ds.completed_ids().is_empty());

    assert_eq!(ds.process_ds_completion(next_id, 2, Ok(vec![]), None), Ok(true));
    assert_eq!(ds.ackable_work.len(), 1);

    ds.ack(next_id);
    ds.retire_check(next_id);
    assert_eq!(ds.completed_ids().len(), 1);
    assert!(ds.clients[0].skipped_jobs.is_empty());
    assert!(ds.clients[1].skipped_jobs.is_empty());
    assert!(ds.clients[2].skipped_jobs.is_empty());
}

#[test]
fn work_flush_two_errors_equals_fail() {
    let mut ds = test_ds();
    let next_id = ds.submit_flush(0, 0, None);
    all_in_progress(&mut ds, next_id);

    assert_eq!(
        ds.process_ds_completion(next_id, 0, Err(CrucibleError::GenericError), None),
        Ok(false)
    );
    assert_eq!(ds.process_ds_completion(next_id, 1, Ok(vec![]), None), Ok(false));
    assert_eq!(
        ds.process_ds_completion(next_id, 2, Err(CrucibleError::GenericError), None),
        Ok(true)
    );
    assert_eq!(ds.ackable_work.len(), 1);
    assert_eq!(result(job(&ds, next_id)), Err(CrucibleError::IoError(2)));

    ds.ack(next_id);
    ds.retire_check(next_id);
    assert_eq!(ds.completed_ids().len(), 1);
}

#[test]
fn work_read_one_ok() {
    let mut ds = test_ds();
    let next_id = ds.submit_read(0, blocks(0, 0));
    all_in_progress(&mut ds, next_id);

    assert_eq!(ds.process_ds_completion(next_id, 0, read_of(0), None), Ok(true));
    assert_eq!(ds.ackable_work.len(), 1);
    assert!(ds.completed_ids().is_empty());

    ds.ack(next_id);

    assert_eq!(ds.process_ds_completion(next_id, 1, read_of(0), None), Ok(false));
    assert!(ds.ackable_work.is_empty());
    assert!(ds.completed_ids().is_empty());

    assert_eq!(ds.process_ds_completion(next_id, 2, read_of(0), None), Ok(false));
    assert!(ds.ackable_work.is_empty());
    // A flush is required to move work to completed.
    assert!(ds.completed_ids().is_empty());
}

#[test]
fn work_read_one_bad_two_ok() {
    let mut ds = test_ds();
    let next_id = ds.submit_read(0, blocks(0, 0));
    all_in_progress(&mut ds, next_id);

    assert_eq!(
        ds.process_ds_completion(next_id, 0, Err(CrucibleError::GenericError), None),
        Ok(false)
    );
    assert!(ds.ackable_work.is_empty());
    assert!(ds.completed_ids().is_empty());

    assert_eq!(ds.process_ds_completion(next_id, 1, read_of(0), None), Ok(true));
    assert_eq!(ds.ackable_work.len(), 1);
    assert!(ds.completed_ids().is_empty());

    ds.ack(next_id);

    assert_eq!(ds.process_ds_completion(next_id, 2, read_of(0), None), Ok(false));
    assert!(ds.ackable_work.is_empty());
    assert!(ds.completed_ids().is_empty());
}

#[test]
fn work_read_two_bad_one_ok() {
    let mut ds = test_ds();
    let next_id = ds.submit_read(0, blocks(0, 0));
    all_in_progress(&mut ds, next_id);

    assert_eq!(
        ds.process_ds_completion(next_id, 0, Err(CrucibleError::GenericError), None),
        Ok(false)
    );
    assert_eq!(
        ds.process_ds_completion(next_id, 1, Err(CrucibleError::GenericError), None),
        Ok(false)
    );
    assert!(ds.ackable_work.is_empty());

    assert_eq!(ds.process_ds_completion(next_id, 2, read_of(0), None), Ok(true));
    assert_eq!(ds.ackable_work.len(), 1);
    assert_eq!(result(job(&ds, next_id)), Ok(()));

    ds.ack(next_id);
    assert!(ds.completed_ids().is_empty());
}

#[test]
fn work_read_three_bad() {
    let mut ds = test_ds();
    let next_id = ds.submit_read(0, blocks(0, 0));
    all_in_progress(&mut ds, next_id);

    for c in 0..2 {
        assert_eq!(
            ds.process_ds_completion(next_id, c, Err(CrucibleError::GenericError), None),
            Ok(false)
        );
    }
    assert!(ds.ackable_work.is_empty());
    assert_eq!(
        ds.process_ds_completion(next_id, 2, Err(CrucibleError::GenericError), None),
        Ok(true)
    );
    assert_eq!(ds.ackable_work.len(), 1);
    assert_eq!(result(job(&ds, next_id)), Err(CrucibleError::IoError(3)));
    ds.ack(next_id);
    assert!(ds.completed_ids().is_empty());
}

#[test]
fn work_read_two_ok_one_bad() {
    let mut ds = test_ds();
    let next_id = ds.submit_read(0, blocks(0, 0));
    all_in_progress(&mut ds, next_id);

    assert_eq!(ds.process_ds_completion(next_id, 0, read_of(0), None), Ok(true));
    assert_eq!(ds.process_ds_completion(next_id, 1, read_of(0), None), Ok(false));
    assert_eq!(ds.ackable_work.len(), 1);
    ds.ack(next_id);
    assert_eq!(
        ds.process_ds_completion(next_id, 2, Err(CrucibleError::GenericError), None),
        Ok(false)
    );
    assert!(ds.ackable_work.is_empty());
    assert_eq!(result(job(&ds, next_id)), Ok(()));
    assert!(ds.completed_ids().is_empty());
}

#[test]
fn work_read_hash_mismatch() {
    let mut ds = test_ds();
    let id = ds.submit_read(0, blocks(0, 0));
    ds.in_progress(id, 0);
    ds.in_progress(id, 1);

    assert_eq!(ds.process_ds_completion(id, 0, read_of(9), None), Ok(true));
    ds.ack(id);
    assert!(ds.read_hash_mismatch(id, 1, &read_of(1)));
}

#[test]
fn work_read_hash_mismatch_ack() {
    let mut ds = test_ds();
    let id = ds.submit_read(0, blocks(0, 0));
    ds.in_progress(id, 0);
    ds.in_progress(id, 1);

    assert_eq!(ds.process_ds_completion(id, 0, read_of(9), None), Ok(true));
    assert!(ds.read_hash_mismatch(id, 1, &read_of(1)));
    // Nothing changed for the second client.
    assert_eq!(job(&ds, id).state[1], IOState::InProgress);
}

#[test]
fn work_read_hash_mismatch_third() {
    let mut ds = test_ds();
    let id = ds.submit_read(0, blocks(0, 0));
    all_in_progress(&mut ds, id);

    assert_eq!(ds.process_ds_completion(id, 0, read_of(9), None), Ok(true));
    assert_eq!(ds.process_ds_completion(id, 1, read_of(9), None), Ok(false));
    assert!(ds.read_hash_mismatch(id, 2, &read_of(1)));
}

#[test]
fn work_read_hash_mismatch_no_data() {
    // An error reply records no content, so a later reply is not compared.
    let mut ds = test_ds();
    let id = ds.submit_read(0, blocks(0, 0));
    all_in_progress(&mut ds, id);

    assert_eq!(
        ds.process_ds_completion(id, 0, Err(CrucibleError::GenericError), None),
        Ok(false)
    );
    assert_eq!(ds.process_ds_completion(id, 1, read_of(1), None), Ok(true));
    assert_eq!(job(&ds, id).read_response_hashes, vec![1001]);
}

#[test]
fn work_completed_read_flush() {
    let mut ds = test_ds();
    let read_id = ds.submit_read(0, blocks(0, 0));
    all_in_progress(&mut ds, read_id);
    assert_eq!(ds.process_ds_completion(read_id, 0, read_of(5), None), Ok(true));
    let (res, data) = ds.ack_job(read_id).expect("read was ackable");
    assert_eq!(res, Ok(()));
    assert_eq!(data.expect("payload kept")[0].data, vec![5]);
    assert_eq!(ds.process_ds_completion(read_id, 1, read_of(5), None), Ok(false));
    assert_eq!(ds.process_ds_completion(read_id, 2, read_of(5), None), Ok(false));

    let flush_id = ds.submit_flush(0, 0, None);
    assert_eq!(job(&ds, flush_id).work.dependencies(), &vec![read_id]);
    all_in_progress(&mut ds, flush_id);
    for c in 0..3 {
        ds.process_ds_completion(flush_id, c, Ok(vec![]), None).unwrap();
    }
    assert!(ds.ack_job(flush_id).is_some());
    assert_eq!(ds.completed_ids(), vec![read_id, flush_id]);
    assert_eq!(ds.active_count(), 0);
    for c in 0..3 {
        assert_eq!(ds.clients[c].last_flush, flush_id);
    }
}

#[test]
fn retire_dont_retire_everything() {
    let mut ds = test_ds();
    let next_id = ds.submit_read(0, blocks(0, 0));
    all_in_progress(&mut ds, next_id);
    assert_eq!(ds.process_ds_completion(next_id, 0, read_of(0), None), Ok(true));
    assert_eq!(ds.ackable_work.len(), 1);
    assert!(ds.is_ackable(next_id));
    assert!(!job(&ds, next_id).acked);

    let flush_id = ds.submit_flush(0, 0, None);
    for c in 0..3 {
        ds.in_progress(flush_id, c);
        ds.process_ds_completion(flush_id, c, Ok(vec![]), None).unwrap();
    }
    ds.ack(flush_id);
    ds.retire_check(flush_id);

    assert_eq!(ds.ackable_work.len(), 1);
    assert_eq!(ds.completed_ids().len(), 1);
    assert_eq!(ds.active_count(), 1);
}

#[test]
fn work_completed_read_replay() {
    // A read is replayed on a client that went away before acking.
    let mut ds = test_ds();
    let id = ds.submit_read(0, blocks(0, 0));
    all_in_progress(&mut ds, id);
    assert_eq!(ds.process_ds_completion(id, 0, read_of(1), None), Ok(true));
    ds.clients[0].state = DsState::Offline;
    ds.reinitialize(0);
    assert_eq!(job(&ds, id).state[0], IOState::New);
    assert!(job(&ds, id).replay);
    // The job stays ready to acknowledge.
    assert!(ds.is_ackable(id));
}

#[test]
fn work_completed_ack_read_replay() {
    let mut ds = test_ds();
    let id = ds.submit_read(0, blocks(0, 0));
    all_in_progress(&mut ds, id);
    assert_eq!(ds.process_ds_completion(id, 0, read_of(1), None), Ok(true));
    ds.ack(id);
    ds.clients[0].state = DsState::Offline;
    ds.reinitialize(0);
    ds.in_progress(id, 0);
    assert_eq!(ds.process_ds_completion(id, 0, read_of(1), None), Ok(false));
    assert!(job(&ds, id).acked);
}

#[test]
fn work_completed_ack_read_replay_hash_mismatch() {
    // Replay suppresses the content check: different bytes are accepted.
    let mut ds = test_ds();
    let id = ds.submit_read(0, blocks(0, 0));
    all_in_progress(&mut ds, id);
    assert_eq!(ds.process_ds_completion(id, 0, read_of(9), None), Ok(true));
    ds.ack(id);
    ds.clients[0].state = DsState::Offline;
    ds.reinitialize(0);
    ds.in_progress(id, 0);
    assert_eq!(ds.process_ds_completion(id, 0, read_of(1), None), Ok(false));
    assert!(job(&ds, id).acked);
    assert_eq!(job(&ds, id).state[0], IOState::Done);
}

// Flush needs a majority.
#[test]
fn scenario_flush_needs_majority() {
    let mut ds = test_ds();
    let id = ds.submit_flush(0, 0, None);
    assert_eq!(id, FIRST_JOB_ID);
    all_in_progress(&mut ds, id);
    assert_eq!(ds.process_ds_completion(id, 0, Ok(vec![]), None), Ok(false));
    assert_eq!(ds.process_ds_completion(id, 1, Ok(vec![]), None), Ok(true));
    let (res, _) = ds.ack_job(id).unwrap();
    assert_eq!(res, Ok(()));
    assert_eq!(ds.process_ds_completion(id, 2, Ok(vec![]), None), Ok(false));
    assert_eq!(ds.completed_ids(), vec![1000]);
    for c in 0..3 {
        assert_eq!(ds.clients[c].last_flush, 1000);
    }
}

// A snapshot flush needs all three.
#[test]
fn scenario_snapshot_flush_needs_all_three() {
    let mut ds = test_ds();
    let snap = SnapshotDetails { snapshot_name: String::from("s") };
    let id = ds.submit_flush(0, 0, Some(snap));
    all_in_progress(&mut ds, id);
    assert_eq!(ds.process_ds_completion(id, 0, Ok(vec![]), None), Ok(false));
    assert_eq!(ds.process_ds_completion(id, 1, Ok(vec![]), None), Ok(false));
    assert_eq!(ds.process_ds_completion(id, 2, Ok(vec![]), None), Ok(true));
}

// Diverging read content is a fatal error.
#[test]
fn scenario_read_hash_divergence() {
    let mut ds = test_ds();
    let id = ds.submit_read(0, blocks(0, 0));
    all_in_progress(&mut ds, id);
    assert_eq!(ds.process_ds_completion(id, 0, read_of(9), None), Ok(true));
    assert!(ds.read_hash_mismatch(id, 1, &read_of(1)));
}

// Replay keeps the ack.
#[test]
fn scenario_replay_preserves_ack() {
    let mut ds = test_ds();
    let id = ds.submit_read(0, blocks(0, 0));
    all_in_progress(&mut ds, id);
    assert_eq!(ds.process_ds_completion(id, 0, read_of(4), None), Ok(true));
    assert!(ds.ack_job(id).is_some());
    ds.clients[0].state = DsState::Offline;
    ds.reinitialize(0);
    ds.in_progress(id, 0);
    assert_eq!(ds.process_ds_completion(id, 0, read_of(8), None), Ok(false));
    assert!(job(&ds, id).acked);
}

#[test]
fn skipped_everywhere_is_ackable_with_error() {
    let mut ds = test_ds();
    for c in 0..3 {
        ds.clients[c].state = DsState::Faulted;
    }
    let id = ds.submit_flush(0, 0, None);
    assert!(ds.is_ackable(id));
    assert_eq!(job(&ds, id).state, vec![IOState::Skipped; 3]);
    let (res, _) = ds.ack_job(id).unwrap();
    assert_eq!(res, Err(CrucibleError::IoError(3)));
    // The flush is finished everywhere and acked, so it retires.
    assert_eq!(ds.completed_ids(), vec![id]);
    for c in 0..3 {
        assert_eq!(ds.clients[c].skipped_jobs, vec![id]);
    }
}

#[test]
fn write_is_fast_acked_and_counted() {
    let mut ds = test_ds();
    let id = ds.submit_write(3, blocks(0, 1), vec![1, 2, 3, 4], false);
    assert!(ds.is_ackable(id));
    assert_eq!(ds.write_bytes_outstanding(), 4);
    let id2 = ds.submit_write(4, blocks(5, 5), vec![9; 10], true);
    assert!(ds.is_ackable(id2));
    assert!(matches!(job(&ds, id2).work, IOop::WriteUnwritten { .. }));
    assert_eq!(ds.write_bytes_outstanding(), 14);
    assert_eq!(ds.ack_job(id).unwrap().0, Ok(()));
    assert_eq!(ds.ack_job(id2).unwrap().0, Ok(()));

    let f = ds.submit_flush(0, 0, None);
    assert_eq!(job(&ds, f).work.dependencies(), &vec![id, id2]);
    for j in [id, id2, f] {
        for c in 0..3 {
            ds.in_progress(j, c);
            ds.process_ds_completion(j, c, Ok(vec![]), None).unwrap();
        }
    }
    ds.ack_job(f).unwrap();
    assert_eq!(ds.write_bytes_outstanding(), 0);
    assert_eq!(ds.completed_ids(), vec![id, id2, f]);
}

#[test]
fn dependencies_follow_overlap() {
    let mut ds = test_ds();
    let w1 = ds.submit_write(0, blocks(0, 9), vec![0; 10], false);
    let r1 = ds.submit_read(0, blocks(5, 5));
    let r2 = ds.submit_read(0, blocks(20, 21));
    let w2 = ds.submit_write(0, blocks(4, 6), vec![0; 3], false);
    assert_eq!(job(&ds, r1).work.dependencies(), &vec![w1]);
    assert!(job(&ds, r2).work.dependencies().is_empty());
    assert_eq!(job(&ds, w2).work.dependencies(), &vec![w1, r1]);
    let f = ds.submit_flush(0, 0, None);
    assert_eq!(job(&ds, f).work.dependencies(), &vec![w1, r1, r2, w2]);
    let r3 = ds.submit_read(0, blocks(500, 500));
    assert_eq!(job(&ds, r3).work.dependencies(), &vec![f]);
    let f2 = ds.submit_flush(0, 0, None);
    assert_eq!(job(&ds, f2).work.dependencies(), &vec![f, r3]);
    assert_eq!(ds.next_flush, 2);
}

#[test]
fn state_count_counts() {
    let s = vec![IOState::Done, IOState::Skipped, IOState::Error(CrucibleError::GenericError)];
    let c = state_count(&s);
    assert_eq!((c.new, c.in_progress, c.done, c.skipped, c.error), (0, 0, 1, 1, 1));
}

#[test]
fn write_error_faults_client() {
    let mut ds = test_ds();
    let w = ds.submit_write(0, blocks(0, 0), vec![1], false);
    let r = ds.submit_read(0, blocks(50, 50));
    all_in_progress(&mut ds, w);
    let m = Response {
        upstairs_id: 7,
        session_id: 8,
        job_id: w,
        result: Err(CrucibleError::GenericError),
        extent_info: None,
    };
    assert_eq!(ds.process_io_completion(1, m), Ok(()));
    assert_eq!(ds.clients[1].state, DsState::Faulted);
    assert_eq!(job(&ds, r).state[1], IOState::Skipped);
    assert_eq!(ds.clients[1].skipped_jobs, vec![r]);
}

#[test]
fn response_errors() {
    let mut ds = test_ds();
    let w = ds.submit_read(0, blocks(0, 0));
    let bad = Response { upstairs_id: 1, session_id: 8, job_id: w, result: Ok(vec![]), extent_info: None };
    assert_eq!(ds.process_io_completion(0, bad), Err(CrucibleError::UuidMismatch));
    let unknown = Response { upstairs_id: 7, session_id: 8, job_id: 5, result: Ok(vec![]), extent_info: None };
    assert_eq!(ds.process_io_completion(0, unknown), Err(CrucibleError::UnknownJob));
    let dec = Response {
        upstairs_id: 7,
        session_id: 8,
        job_id: w,
        result: Err(CrucibleError::DecryptionError),
        extent_info: None,
    };
    assert_eq!(ds.process_io_completion(0, dec), Err(CrucibleError::DecryptionError));
    ds.clients[2].state = DsState::Faulted;
    let late = Response { upstairs_id: 7, session_id: 8, job_id: w, result: Ok(vec![]), extent_info: None };
    assert_eq!(ds.process_io_completion(2, late), Err(CrucibleError::NoLongerActive));
    let inactive = Response {
        upstairs_id: 7,
        session_id: 8,
        job_id: w,
        result: Err(CrucibleError::UpstairsInactive),
        extent_info: None,
    };
    assert_eq!(ds.process_io_completion(1, inactive), Ok(()));
    assert_eq!(ds.clients[1].state, DsState::Disabled);
}

#[test]
fn deactivate_rules() {
    let mut ds = test_ds();
    assert_eq!(ds.set_deactivate(), Ok(true));
    let w = ds.submit_write(0, blocks(0, 0), vec![1], false);
    assert!(!ds.try_deactivate(0));
    let f = ds.submit_flush(0, 0, None);
    assert!(!ds.try_deactivate(0));
    for j in [w, f] {
        ds.in_progress(j, 0);
        ds.process_ds_completion(j, 0, Ok(vec![]), None).unwrap();
    }
    assert!(ds.try_deactivate(0));
    assert_eq!(ds.clients[0].state, DsState::Deactivated);
    ds.clients[1].state = DsState::Offline;
    assert_eq!(ds.set_deactivate(), Err(CrucibleError::OfflineDownstairs));
}

#[test]
fn gone_too_long_faults() {
    let mut ds = test_ds();
    ds.submit_read(0, blocks(0, 0));
    ds.submit_read(0, blocks(1, 1));
    assert!(!ds.check_gone_too_long(2, 2));
    assert!(ds.check_gone_too_long(2, 1));
    assert_eq!(ds.clients[2].state, DsState::Faulted);
    assert_eq!(ds.total_live_work(2), 0);
}

#[test]
fn io_state_count_per_client() {
    let mut ds = test_ds();
    let r = ds.submit_read(0, blocks(0, 0));
    let f = ds.submit_flush(0, 0, None);
    ds.in_progress(r, 0);
    ds.in_progress(r, 1);
    ds.process_ds_completion(r, 1, read_of(3), None).unwrap();
    let counts = ds.io_state_count();
    assert_eq!(counts.len(), 3);
    assert_eq!((counts[0].new, counts[0].in_progress, counts[0].done), (1, 1, 0));
    assert_eq!((counts[1].new, counts[1].in_progress, counts[1].done), (1, 0, 1));
    assert_eq!((counts[2].new, counts[2].in_progress, counts[2].done), (2, 0, 0));
    assert_eq!(ds.total_live_work(2), 2);
    assert_eq!(ds.total_live_work(1), 1);
    let _ = f;
}

#[test]
fn extents_of_jobs() {
    let mut ds = test_ds();
    let r = ds.submit_read(0, blocks(150, 420));
    let f = ds.submit_flush(0, 0, None);
    assert_eq!(ds.get_extents_for(job(&ds, r)), Some((1, 4)));
    assert_eq!(ds.get_extents_for(job(&ds, f)), Some((0, 9)));
}

#[test]
fn completed_ring_records_retired_ids() {
    let mut ds = test_ds();
    let f = ds.submit_flush(0, 0, None);
    assert!(!ds.is_completed(f));
    for c in 0..3 {
        ds.in_progress(f, c);
        ds.process_ds_completion(f, c, Ok(vec![]), None).unwrap();
    }
    ds.ack_job(f).unwrap();
    assert!(ds.is_completed(f));
    assert!(!ds.is_completed(f + 1));
}

#[test]
fn unknown_and_skipped_replies() {
    let mut ds = test_ds();
    assert_eq!(ds.process_ds_completion(4242, 0, Ok(vec![]), None), Err(CrucibleError::UnknownJob));
    ds.clients[0].state = DsState::Faulted;
    let r = ds.submit_read(0, blocks(0, 0));
    assert_eq!(job(&ds, r).state[0], IOState::Skipped);
    assert_eq!(ds.process_ds_completion(r, 0, read_of(1), None), Ok(false));
    assert_eq!(job(&ds, r).state[0], IOState::Skipped);
}

#[test]
fn replace_requests() {
    let mut ds = test_ds();
    let a = |p: u16| Address { ip: 1, port: p };
    for c in 0..3 {
        ds.clients[c].target_addr = Some(a(10 + c as u16));
        ds.clients[c].state = DsState::Active;
    }
    assert_eq!(ds.replace(a(99), a(98)), Ok(ReplaceResult::Missing));
    assert_eq!(ds.replace(a(10), a(11)), Err(CrucibleError::ReplaceRequestInvalid));
    assert_eq!(ds.replace(a(99), a(11)), Ok(ReplaceResult::CompletedAlready));
    let w = ds.submit_write(0, blocks(0, 0), vec![1], false);
    assert_eq!(ds.replace(a(10), a(20)), Ok(ReplaceResult::Started));
    assert_eq!(ds.clients[0].state, DsState::Replacing);
    assert_eq!(ds.clients[0].target_addr, Some(a(20)));
    assert_eq!(job(&ds, w).state[0], IOState::Skipped);
    assert_eq!(ds.replace(a(99), a(20)), Ok(ReplaceResult::StartedAlready));
    assert_eq!(ds.replace(a(11), a(21)), Err(CrucibleError::ReplaceRequestInvalid));
}

#[test]
fn client_state_transitions() {
    let mut ds = test_ds();
    assert!(!ds.checked_state_transition(0, DsState::Active));
    assert_eq!(ds.clients[0].state, DsState::New);
    for s in [DsState::WaitActive, DsState::WaitQuorum, DsState::Active, DsState::Faulted,
        DsState::LiveRepairReady, DsState::LiveRepair, DsState::Active] {
        assert!(ds.checked_state_transition(0, s));
        assert_eq!(ds.clients[0].state, s);
    }
    assert!(is_legal_transition(DsState::Repair, DsState::Disabled));
    assert!(!is_legal_transition(DsState::Faulted, DsState::Active));
}

#[test]
fn retired_flush_leaves_nothing_finished_behind() {
    let mut ds = test_ds();
    let r1 = ds.submit_read(0, blocks(0, 0));
    let r2 = ds.submit_read(0, blocks(1, 1));
    let f = ds.submit_flush(0, 0, None);
    for j in [r1, r2, f] {
        for c in 0..3 {
            ds.in_progress(j, c);
            ds.process_ds_completion(j, c, read_of(2), None).unwrap();
        }
    }
    // Only the first read is acked before the flush.
    ds.ack_job(r1).unwrap();
    ds.ack_job(f).unwrap();
    assert_eq!(ds.completed_ids(), vec![r1, f]);
    assert_eq!(ds.active_ids(), vec![r2]);
}

#[test]
fn completed_ring_keeps_the_newest_ids() {
    let mut ds = test_ds();
    let mut first = 0;
    for n in 0..2049u64 {
        let f = ds.submit_flush(0, 0, None);
        if n == 0 {
            first = f;
        }
        for c in 0..3 {
            ds.in_progress(f, c);
            ds.process_ds_completion(f, c, Ok(vec![]), None).unwrap();
        }
        ds.ack_job(f).unwrap();
    }
    let done = ds.completed_ids();
    assert_eq!(done.len(), 2048);
    assert!(!ds.is_completed(first));
    assert_eq!(done[0], first + 1);
    assert_eq!(done[2047], first + 2048);
}

#[test]
#[should_panic]
fn bad_read_hash_means_panic() {
    let mut ds = test_ds();
    let id = ds.submit_read(0, blocks(0, 0));
    ds.in_progress(id, 0);
    ds.in_progress(id, 1);
    ds.process_ds_completion(id, 0, read_of(1), None).unwrap();
    // A caller treats contradicting read content as fatal.
    if ds.read_hash_mismatch(id, 1, &read_of(2)) {
        panic!("read content differs between downstairs");
    }
    ds.process_ds_completion(id, 1, read_of(2), None).unwrap();
}

#[test]
fn replayed_read_is_not_a_mismatch() {
    let mut ds = test_ds();
    let id = ds.submit_read(0, blocks(0, 0));
    all_in_progress(&mut ds, id);
    ds.process_ds_completion(id, 0, read_of(1), None).unwrap();
    assert!(!ds.read_hash_mismatch(id, 1, &read_of(1)));
    assert!(!ds.read_hash_mismatch(id, 1, &Err(CrucibleError::GenericError)));
    ds.clients[1].state = DsState::Offline;
    ds.clients[1].last_flush = 0;
    ds.reinitialize(1);
    assert!(!ds.read_hash_mismatch(id, 1, &read_of(7)));
}

#[test]
fn read_needs_one_done() {
    let mut ds = test_ds();
    ds.clients[2].state = DsState::Faulted;
    let id = ds.submit_read(0, blocks(0, 0));
    ds.in_progress(id, 0);
    ds.in_progress(id, 1);
    ds.process_ds_completion(id, 0, Err(CrucibleError::GenericError), None).unwrap();
    assert_eq!(ds.process_ds_completion(id, 1, Err(CrucibleError::GenericError), None), Ok(true));
    assert_eq!(result(job(&ds, id)), Err(CrucibleError::IoError(3)));
}

#[test]
fn read_skipped_everywhere_fails() {
    let mut ds = test_ds();
    for c in 0..3 {
        ds.clients[c].state = DsState::Faulted;
    }
    let id = ds.submit_read(0, blocks(0, 0));
    assert!(ds.is_ackable(id));
    assert_eq!(ds.ack_job(id).unwrap().0, Err(CrucibleError::IoError(3)));
}

#[test]
fn snapshot_flush_fails_without_three_done() {
    let mut ds = test_ds();
    ds.clients[1].state = DsState::Faulted;
    let snap = SnapshotDetails { snapshot_name: String::from("s") };
    let id = ds.submit_flush(0, 0, Some(snap));
    ds.in_progress(id, 0);
    ds.in_progress(id, 2);
    ds.process_ds_completion(id, 0, Ok(vec![]), None).unwrap();
    assert_eq!(ds.process_ds_completion(id, 2, Ok(vec![]), None), Ok(true));
    assert_eq!(ds.ack_job(id).unwrap().0, Err(CrucibleError::IoError(1)));
}
