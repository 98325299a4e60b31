use upstairs::downstairs::Downstairs;
use upstairs::messages::DsMessage;
use upstairs::types::{CrucibleError, DsState, IOState, ImpactedBlocks, RegionGeometry};

// Writes and write-unwritten jobs are both acknowledged at submission, so no
// later reply makes either newly ackable.

fn test_ds() -> Downstairs {
    Downstairs::new(RegionGeometry { extent_size: 100, extent_count: 10 }, 7, 8)
}

fn write(ds: &mut Downstairs, gw: u64, unwritten: bool) -> u64 {
    ds.submit_write(gw, ImpactedBlocks { first_block: 0, last_block: 0 }, vec![1; 512], unwritten)
}

fn state(ds: &Downstairs, id: u64, c: usize) -> IOState {
    ds.ds_active[ds.find_job(id).unwrap()].state[c]
}

fn work_errors_are_counted(is_write_unwritten: bool) {
    let mut ds = test_ds();
    let next_id = write(&mut ds, 10, is_write_unwritten);
    for c in 0..3 {
        assert!(ds.in_progress(next_id, c).is_some());
    }
    assert_eq!(ds.process_ds_completion(next_id, 0, Err(CrucibleError::GenericError), None), Ok(false));
    assert!(ds.ds_active[0].data.is_none());
    assert_eq!(ds.process_ds_completion(next_id, 1, Err(CrucibleError::GenericError), None), Ok(false));
    assert!(ds.ds_active[0].data.is_none());
    assert_eq!(ds.ackable_work.len(), 1);
    assert_eq!(ds.process_ds_completion(next_id, 2, Ok(vec![]), None), Ok(false));
    assert_eq!(ds.ackable_work.len(), 1);
    assert_eq!(state(&ds, next_id, 0), IOState::Error(CrucibleError::GenericError));
    assert_eq!(state(&ds, next_id, 1), IOState::Error(CrucibleError::GenericError));
    assert_eq!(state(&ds, next_id, 2), IOState::Done);
    assert_eq!(ds.ack_job(next_id).unwrap().0, Err(CrucibleError::IoError(2)));
}

#[test]
fn work_write_unwritten_errors_are_counted() {
    work_errors_are_counted(true);
}

#[test]
fn work_write_errors_are_counted() {
    work_errors_are_counted(false);
}

fn work_delay_completion_flush(is_write_unwritten: bool) {
    let mut ds = test_ds();
    let id1 = write(&mut ds, 10, is_write_unwritten);
    let id2 = write(&mut ds, 20, is_write_unwritten);
    for id in [id1, id2] {
        assert!(ds.in_progress(id, 0).is_some());
        assert!(ds.in_progress(id, 1).is_some());
        assert_eq!(ds.process_ds_completion(id, 0, Ok(vec![]), None), Ok(false));
        assert_eq!(ds.process_ds_completion(id, 1, Ok(vec![]), None), Ok(false));
    }
    ds.ack(id1);
    ds.ack(id2);
    assert!(ds.ackable_work.is_empty());
    assert!(ds.completed_ids().is_empty());

    let flush_id = ds.submit_flush(0, 0, None);
    ds.in_progress(flush_id, 0);
    ds.in_progress(flush_id, 1);
    assert_eq!(ds.process_ds_completion(flush_id, 0, Ok(vec![]), None), Ok(false));
    assert_eq!(ds.process_ds_completion(flush_id, 1, Ok(vec![]), None), Ok(true));
    ds.ack(flush_id);
    assert_eq!(ds.clients[0].last_flush, flush_id);
    assert_eq!(ds.clients[1].last_flush, flush_id);
    assert_eq!(ds.clients[2].last_flush, 0);
    ds.retire_check(flush_id);
    assert!(ds.ackable_work.is_empty());
    assert!(ds.completed_ids().is_empty());

    assert!(ds.in_progress(id1, 2).is_some());
    assert!(ds.in_progress(id2, 2).is_some());
    assert_eq!(ds.process_ds_completion(id1, 2, Ok(vec![]), None), Ok(false));
    assert_eq!(ds.process_ds_completion(id2, 2, Ok(vec![]), None), Ok(false));
    assert!(ds.completed_ids().is_empty());
    ds.in_progress(flush_id, 2);
    assert_eq!(ds.process_ds_completion(flush_id, 2, Ok(vec![]), None), Ok(false));
    assert_eq!(ds.completed_ids().len(), 3);
    assert_eq!(ds.clients[2].last_flush, flush_id);
}

#[test]
fn work_delay_completion_flush_write() {
    work_delay_completion_flush(false);
}

#[test]
fn work_delay_completion_flush_write_unwritten() {
    work_delay_completion_flush(true);
}

fn work_completed_writeio_flush(is_write_unwritten: bool) {
    let mut ds = test_ds();
    let next_id = write(&mut ds, 10, is_write_unwritten);
    for c in 0..3 {
        ds.in_progress(next_id, c);
        assert_eq!(ds.process_ds_completion(next_id, c, Ok(vec![]), None), Ok(false));
    }
    ds.ack(next_id);
    assert!(ds.ackable_work.is_empty());
    assert!(ds.completed_ids().is_empty());

    let flush_id = ds.submit_flush(0, 0, None);
    for c in 0..3 {
        ds.in_progress(flush_id, c);
    }
    assert_eq!(ds.process_ds_completion(flush_id, 0, Ok(vec![]), None), Ok(false));
    assert_eq!(ds.process_ds_completion(flush_id, 1, Ok(vec![]), None), Ok(true));
    assert_eq!(ds.process_ds_completion(flush_id, 2, Ok(vec![]), None), Ok(false));
    ds.ack(flush_id);
    ds.retire_check(flush_id);
    assert!(ds.ackable_work.is_empty());
    assert_eq!(ds.completed_ids().len(), 2);
}

#[test]
fn work_completed_write_flush() {
    work_completed_writeio_flush(false);
}

#[test]
fn work_completed_write_unwritten_flush() {
    work_completed_writeio_flush(true);
}

fn work_delay_completion_flush_order(is_write_unwritten: bool) {
    let mut ds = test_ds();
    let id1 = write(&mut ds, 10, is_write_unwritten);
    let id2 = write(&mut ds, 1, is_write_unwritten);
    assert!(ds.in_progress(id1, 0).is_some());
    assert!(ds.in_progress(id1, 1).is_some());
    assert!(ds.in_progress(id2, 1).is_some());
    assert!(ds.in_progress(id2, 2).is_some());
    assert_eq!(ds.process_ds_completion(id1, 0, Ok(vec![]), None), Ok(false));
    assert_eq!(ds.process_ds_completion(id1, 1, Ok(vec![]), None), Ok(false));
    assert_eq!(ds.process_ds_completion(id2, 1, Ok(vec![]), None), Ok(false));
    assert_eq!(ds.process_ds_completion(id2, 2, Ok(vec![]), None), Ok(false));
    ds.ack(id1);
    ds.ack(id2);
    assert!(ds.ackable_work.is_empty());
    assert!(ds.completed_ids().is_empty());

    let flush_id = ds.submit_flush(0, 0, None);
    ds.in_progress(flush_id, 0);
    ds.in_progress(flush_id, 2);
    assert_eq!(ds.process_ds_completion(flush_id, 0, Ok(vec![]), None), Ok(false));
    assert_eq!(ds.process_ds_completion(flush_id, 2, Ok(vec![]), None), Ok(true));
    ds.ack(flush_id);
    ds.retire_check(flush_id);
    assert!(ds.ackable_work.is_empty());
    assert!(ds.completed_ids().is_empty());
    assert_eq!(ds.clients[0].last_flush, flush_id);
    assert_eq!(ds.clients[1].last_flush, 0);
    assert_eq!(ds.clients[2].last_flush, flush_id);

    assert!(ds.in_progress(id1, 2).is_some());
    assert!(ds.in_progress(id2, 0).is_some());
    assert_eq!(ds.process_ds_completion(id1, 2, Ok(vec![]), None), Ok(false));
    assert_eq!(ds.process_ds_completion(id2, 0, Ok(vec![]), None), Ok(false));
    assert!(ds.completed_ids().is_empty());
    ds.in_progress(flush_id, 1);
    assert_eq!(ds.process_ds_completion(flush_id, 1, Ok(vec![]), None), Ok(false));
    assert_eq!(ds.completed_ids().len(), 3);
    assert_eq!(ds.clients[1].last_flush, flush_id);
}

#[test]
fn work_delay_completion_flush_order_write() {
    work_delay_completion_flush_order(false);
}

#[test]
fn work_delay_completion_flush_order_write_unwritten() {
    work_delay_completion_flush_order(true);
}

fn work_completed_write_ack_ready_replay(is_write_unwritten: bool) {
    let mut ds = test_ds();
    let id1 = write(&mut ds, 10, is_write_unwritten);
    assert!(ds.in_progress(id1, 0).is_some());
    assert!(ds.in_progress(id1, 1).is_some());
    assert_eq!(ds.process_ds_completion(id1, 0, Ok(vec![]), None), Ok(false));
    assert_eq!(ds.process_ds_completion(id1, 1, Ok(vec![]), None), Ok(false));
    ds.ack(id1);
    let i = ds.find_job(id1).unwrap();
    assert!(!ds.ds_active[i].replay);
    ds.replay_jobs(1);
    assert!(ds.ds_active[i].replay);
    assert!(ds.ds_active[i].acked);
    assert!(ds.in_progress(id1, 1).is_some());
    assert_eq!(ds.process_ds_completion(id1, 1, Ok(vec![]), None), Ok(false));
    assert!(ds.ds_active[i].acked);
    assert!(ds.ackable_work.is_empty());
}

#[test]
fn work_completed_write_ack_ready_replay_write() {
    work_completed_write_ack_ready_replay(false);
}

#[test]
fn work_completed_write_ack_ready_replay_write_unwritten() {
    work_completed_write_ack_ready_replay(true);
}

fn work_completed_write_acked_replay(is_write_unwritten: bool) {
    let mut ds = test_ds();
    let id1 = write(&mut ds, 10, is_write_unwritten);
    assert!(ds.in_progress(id1, 0).is_some());
    assert!(ds.in_progress(id1, 1).is_some());
    assert_eq!(ds.process_ds_completion(id1, 0, Ok(vec![]), None), Ok(false));
    assert_eq!(ds.process_ds_completion(id1, 1, Ok(vec![]), None), Ok(false));
    assert_eq!(ds.ackable_work.len(), 1);
    ds.ack(id1);
    assert!(ds.ackable_work.is_empty());
    ds.replay_jobs(0);
    assert!(ds.ds_active[ds.find_job(id1).unwrap()].acked);
    assert!(ds.in_progress(id1, 0).is_some());
    assert!(ds.in_progress(id1, 2).is_some());
    assert_eq!(ds.process_ds_completion(id1, 0, Ok(vec![]), None), Ok(false));
    assert_eq!(ds.process_ds_completion(id1, 2, Ok(vec![]), None), Ok(false));
}

#[test]
fn work_completed_write_acked_replay_write() {
    work_completed_write_acked_replay(false);
}

#[test]
fn work_completed_write_acked_replay_write_unwritten() {
    work_completed_write_acked_replay(true);
}

#[test]
fn messages_follow_the_repair_role() {
    let mut ds = Downstairs::new(RegionGeometry { extent_size: 3, extent_count: 4 }, 1, 2);
    for c in 0..3 {
        ds.clients[c].state = DsState::Active;
    }
    let w = write(&mut ds, 1, false);
    match ds.message_for(0, w, vec![]).unwrap() {
        DsMessage::Write { job_id, data, .. } => {
            assert_eq!(job_id, w);
            assert_eq!(data, vec![1; 512]);
        },
        m => panic!("unexpected {:?}", m),
    }
    ds.clients[2].state = DsState::LiveRepairReady;
    assert!(ds.start_live_repair(4, 5));
    let close = ds.repair_waiting_on().unwrap();
    assert!(matches!(ds.message_for(2, close, vec![7]).unwrap(), DsMessage::ExtentLiveClose { job_id, .. } if job_id == close));
    match ds.message_for(0, close, vec![7]).unwrap() {
        DsMessage::ExtentLiveFlushClose { job_id, dependencies, extent, .. } => {
            assert_eq!(job_id, close);
            assert_eq!(dependencies, vec![7]);
            assert_eq!(extent, 0);
        },
        m => panic!("unexpected {:?}", m),
    }
    assert!(matches!(ds.message_for(0, close + 3, vec![]).unwrap(), DsMessage::ExtentLiveReopen { .. }));
    assert!(ds.message_for(0, 9999, vec![]).is_none());
    // Jobs waiting to be sent, oldest first.
    assert_eq!(ds.new_work(0, 10), vec![w, close, close + 3]);
    assert_eq!(ds.new_work(0, 2), vec![w, close]);
    ds.in_progress(w, 0);
    assert_eq!(ds.new_work(0, 10), vec![close, close + 3]);
}
