use upstairs::downstairs::{Downstairs, LiveRepairState, Response};
use upstairs::live_repair::needs_repair;
use upstairs::types::{
    CrucibleError, DownstairsIO, DsState, ExtentInfo, IOState, IOop, ImpactedBlocks, RepairCheck,
    RegionGeometry,
};

fn repair_ds() -> Downstairs {
    let mut ds = Downstairs::new(RegionGeometry { extent_size: 3, extent_count: 4 }, 1, 2);
    for c in 0..3 {
        ds.clients[c].state = DsState::Active;
    }
    ds
}

fn job(ds: &Downstairs, id: u64) -> &DownstairsIO {
    let i = ds.find_job(id).expect("job is active");
    &ds.ds_active[i]
}

fn same_info() -> ExtentInfo {
    ExtentInfo { generation: 1, flush_number: 2, dirty: false }
}

/// Completes job `id` on every client that has it `New`, acks it, and
/// returns its result.
fn finish(ds: &mut Downstairs, id: u64, info: Option<ExtentInfo>) -> Result<(), CrucibleError> {
    for c in 0..3 {
        if ds.in_progress(id, c).is_some() {
            ds.process_ds_completion(id, c, Ok(vec![]), info).unwrap();
        }
    }
    ds.ack_job(id).expect("job is ackable").0
}

/// Finishes the job live repair waits for and moves the repair on.
fn step(ds: &mut Downstairs) {
    let id = ds.repair_waiting_on().expect("repair running");
    let r = finish(ds, id, Some(same_info()));
    ds.on_live_repair(r, 5);
}

fn start(ds: &mut Downstairs, target: usize) {
    ds.clients[target].state = DsState::LiveRepairReady;
    assert_eq!(ds.repair_check(true, 4, 5), RepairCheck::RepairStarted);
    assert_eq!(ds.clients[target].state, DsState::LiveRepair);
}

#[test]
fn test_repair_check_states() {
    let mut ds = repair_ds();
    assert_eq!(ds.repair_check(true, 4, 5), RepairCheck::NoRepairNeeded);
    ds.clients[1].state = DsState::LiveRepairReady;
    assert_eq!(ds.repair_check(false, 4, 5), RepairCheck::InvalidState);
    assert_eq!(ds.repair_check(true, 4, 5), RepairCheck::RepairStarted);
    assert_eq!(ds.repair_check(true, 4, 5), RepairCheck::RepairInProgress);
}

#[test]
fn test_repair_extent_no_action_all() {
    let mut ds = repair_ds();
    start(&mut ds, 1);
    // The close and the reopen are the first two jobs.
    assert_eq!(ds.active_count(), 2);
    let close_id = ds.repair_waiting_on().unwrap();
    assert!(matches!(job(&ds, close_id).work, IOop::ExtentFlushClose { .. }));
    assert!(matches!(job(&ds, close_id + 3).work, IOop::ExtentLiveReopen { .. }));
    assert_eq!(ds.clients[1].extent_limit, Some(0));

    step(&mut ds);
    let repair_id = ds.repair_waiting_on().unwrap();
    assert_eq!(repair_id, close_id + 1);
    // Same metadata everywhere: the repair job is a no-op.
    assert!(matches!(job(&ds, repair_id).work, IOop::ExtentLiveNoOp { .. }));
    step(&mut ds);
    assert_eq!(ds.repair_waiting_on(), Some(close_id + 2));
    step(&mut ds);
    assert_eq!(ds.repair_waiting_on(), Some(close_id + 3));
    step(&mut ds);
    // On to extent 1.
    assert_eq!(ds.clients[1].extent_limit, Some(1));
    assert_eq!(ds.repair.as_ref().unwrap().active_extent, 1);
}

#[test]
fn test_repair_extent_do_repair_all() {
    let mut ds = repair_ds();
    start(&mut ds, 2);
    let close_id = ds.repair_waiting_on().unwrap();
    for c in 0..3 {
        ds.in_progress(close_id, c);
        let info = if c == 2 {
            ExtentInfo { generation: 1, flush_number: 1, dirty: false }
        } else {
            same_info()
        };
        ds.process_ds_completion(close_id, c, Ok(vec![]), Some(info)).unwrap();
    }
    let r = ds.ack_job(close_id).unwrap().0;
    assert_eq!(r, Ok(()));
    ds.on_live_repair(r, 5);
    let repair_id = close_id + 1;
    match &job(&ds, repair_id).work {
        IOop::ExtentLiveRepair { repair_downstairs, source_downstairs, extent, .. } => {
            assert_eq!(repair_downstairs, &vec![2]);
            assert_eq!(*source_downstairs, 1);
            assert_eq!(*extent, 0);
        },
        w => panic!("unexpected work {:?}", w),
    }
}

#[test]
fn test_full_repair_finishes() {
    let mut ds = repair_ds();
    start(&mut ds, 0);
    // Four extents, four jobs each, then the final flush.
    for _ in 0..16 {
        step(&mut ds);
    }
    assert!(matches!(ds.repair.as_ref().unwrap().state, LiveRepairState::FinalFlush { .. }));
    step(&mut ds);
    assert!(ds.repair.is_none());
    assert_eq!(ds.clients[0].state, DsState::Active);
    assert_eq!(ds.clients[0].extent_limit, None);
}

#[test]
fn test_reserve_extent_repair_ids() {
    let mut ds = repair_ds();
    assert!(ds.repair.is_none());
    start(&mut ds, 1);
    // The repair of extent 0 took ids 1000 to 1003.
    assert_eq!(ds.next_id, 1004);
    ds.reserve_repair_ids_for_extent(1);
    assert_eq!(ds.next_id, 1008);
    // Reserving again changes nothing.
    ds.reserve_repair_ids_for_extent(1);
    assert_eq!(ds.next_id, 1008);
}

fn submit_three_ios(ds: &mut Downstairs, block: u64) {
    let b = ImpactedBlocks { first_block: block, last_block: block };
    ds.submit_write(0, b, vec![0xff; 512], false);
    ds.submit_read(0, b);
    ds.submit_write(0, b, vec![0xff; 512], true);
}

#[test]
fn test_repair_io_below_repair_extent() {
    let mut ds = repair_ds();
    start(&mut ds, 1);
    for _ in 0..4 {
        step(&mut ds);
    }
    // Extent 1 is now under repair, with ids 1004 to 1007.
    submit_three_ios(&mut ds, 0);
    for id in [1008, 1009, 1010] {
        for c in 0..3 {
            assert_eq!(job(&ds, id).state[c], IOState::New);
        }
    }
}

// Live-repair reservation.
#[test]
fn scenario_live_repair_reservation() {
    let mut ds = repair_ds();
    start(&mut ds, 2);
    for _ in 0..4 {
        step(&mut ds);
    }
    assert_eq!(ds.clients[2].extent_limit, Some(1));
    let next = ds.next_id;
    let w = ds.submit_write(0, ImpactedBlocks { first_block: 0, last_block: 8 }, vec![7; 9], false);
    let res = &ds.repair.as_ref().unwrap().repair_job_ids;
    assert_eq!(res.len(), 1);
    assert_eq!(res[0].extent, 2);
    assert_eq!(res[0].ids.close_id, next);
    assert_eq!(res[0].ids.repair_id, next + 1);
    assert_eq!(res[0].ids.noop_id, next + 2);
    assert_eq!(res[0].ids.reopen_id, next + 3);
    assert_eq!(w, next + 4);
    assert!(job(&ds, w).work.dependencies().contains(&(next + 3)));
    // The write is sent to the repaired client: reserved extents count.
    assert_eq!(job(&ds, w).state[2], IOState::New);
}

#[test]
fn test_repair_io_at_repair_extent() {
    let mut ds = repair_ds();
    start(&mut ds, 1);
    submit_three_ios(&mut ds, 0);
    for id in [1004, 1005, 1006] {
        for c in 0..3 {
            assert_eq!(job(&ds, id).state[c], IOState::New);
        }
        // Each waits for the repair of its extent.
        assert!(job(&ds, id).work.dependencies().contains(&1000));
        assert!(job(&ds, id).work.dependencies().contains(&1003));
    }
}

#[test]
fn test_repair_io_above_repair_extent() {
    let mut ds = repair_ds();
    start(&mut ds, 1);
    submit_three_ios(&mut ds, 3);
    for id in [1004, 1005, 1006] {
        assert_eq!(job(&ds, id).state[0], IOState::New);
        assert_eq!(job(&ds, id).state[2], IOState::New);
        assert_eq!(job(&ds, id).state[1], IOState::Skipped);
    }
    assert!(ds.repair.as_ref().unwrap().repair_job_ids.is_empty());
}

// A repair-job error aborts repair cleanly.
#[test]
fn scenario_repair_error_aborts() {
    let mut ds = repair_ds();
    start(&mut ds, 2);
    // A write across extents 0 and 1 reserves the ids of extent 1.
    ds.submit_write(0, ImpactedBlocks { first_block: 0, last_block: 4 }, vec![1; 5], false);
    assert_eq!(ds.repair.as_ref().unwrap().repair_job_ids.len(), 1);
    step(&mut ds);
    step(&mut ds);
    // Now waiting on the no-op of extent 0; the repaired client fails it.
    let noop_id = ds.repair_waiting_on().unwrap();
    assert!(matches!(ds.repair.as_ref().unwrap().state, LiveRepairState::Noop { .. }));
    for c in 0..3 {
        ds.in_progress(noop_id, c);
    }
    ds.process_ds_completion(noop_id, 0, Ok(vec![]), None).unwrap();
    ds.process_ds_completion(noop_id, 1, Ok(vec![]), None).unwrap();
    let m = Response {
        upstairs_id: 1,
        session_id: 2,
        job_id: noop_id,
        result: Err(CrucibleError::GenericError),
        extent_info: None,
    };
    assert_eq!(ds.process_io_completion(2, m), Ok(()));
    assert_eq!(ds.clients[2].state, DsState::Faulted);
    let r = ds.ack_job(noop_id).unwrap().0;
    assert_eq!(r, Err(CrucibleError::IoError(1)));
    ds.on_live_repair(r, 5);
    assert!(ds.repair.as_ref().unwrap().aborting_repair);
    // The reopen of extent 0 was enqueued before the error and still runs.
    step(&mut ds);
    // Extent 1 had reserved ids: its jobs are issued as no-ops.
    let close_1 = ds.repair_waiting_on().unwrap();
    assert!(matches!(job(&ds, close_1).work, IOop::ExtentLiveNoOp { .. }));
    assert!(matches!(job(&ds, close_1 + 3).work, IOop::ExtentLiveNoOp { .. }));
    step(&mut ds);
    assert!(matches!(job(&ds, close_1 + 1).work, IOop::ExtentLiveNoOp { .. }));
    step(&mut ds);
    step(&mut ds);
    step(&mut ds);
    // No ids reserved for extent 2: straight to the final flush.
    let flush_id = ds.repair_waiting_on().unwrap();
    assert!(matches!(job(&ds, flush_id).work, IOop::Flush { .. }));
    step(&mut ds);
    assert!(ds.repair.is_none());
    assert_eq!(ds.clients[2].state, DsState::Faulted);
}

#[test]
fn test_repair_abort_basic() {
    let mut ds = repair_ds();
    start(&mut ds, 1);
    submit_three_ios(&mut ds, 0);
    ds.abort_repair();
    assert!(ds.repair.is_none());
    assert_eq!(ds.clients[0].state, DsState::Active);
    assert_eq!(ds.clients[1].state, DsState::Faulted);
    assert_eq!(ds.clients[2].state, DsState::Active);
    for id in [1004, 1005, 1006] {
        assert_eq!(job(&ds, id).state[0], IOState::New);
        assert_eq!(job(&ds, id).state[1], IOState::Skipped);
        assert_eq!(job(&ds, id).state[2], IOState::New);
    }
    assert!(ds.clients[1].extent_limit.is_none());
}

#[test]
fn test_live_repair_deps_pruned() {
    let mut ds = repair_ds();
    // A write the repaired client skips before the repair starts.
    ds.clients[2].state = DsState::Faulted;
    let w = ds.submit_write(0, ImpactedBlocks { first_block: 0, last_block: 0 }, vec![1], false);
    assert_eq!(job(&ds, w).state[2], IOState::Skipped);
    start(&mut ds, 2);
    let close_id = ds.repair_waiting_on().unwrap();
    assert!(job(&ds, close_id).work.dependencies().contains(&w));
    // The repaired client is not told to wait for a job it skipped.
    let sent = ds.in_progress(close_id, 2).unwrap();
    assert!(!sent.contains(&w));
    let sent0 = ds.in_progress(close_id, 0).unwrap();
    assert!(sent0.contains(&w));
}

#[test]
fn needs_repair_compares_metadata() {
    let good = same_info();
    assert!(!needs_repair(&good, &same_info()));
    assert!(needs_repair(&good, &ExtentInfo { generation: 1, flush_number: 2, dirty: true }));
    assert!(needs_repair(&good, &ExtentInfo { generation: 2, flush_number: 2, dirty: false }));
    assert!(needs_repair(&good, &ExtentInfo { generation: 1, flush_number: 3, dirty: false }));
}

#[test]
fn abort_faults_every_target() {
    let mut ds = repair_ds();
    start(&mut ds, 2);
    // The target faulted on an error; a later abort still leaves it with
    // nothing to send and no extent limit.
    ds.clients[2].state = DsState::Faulted;
    ds.abort_repair();
    assert!(ds.repair.is_none());
    assert_eq!(ds.clients[2].state, DsState::Faulted);
    assert_eq!(ds.clients[2].extent_limit, None);
    for j in &ds.ds_active {
        assert!(!matches!(j.state[2], IOState::New | IOState::InProgress));
    }
    assert_eq!(ds.clients[0].state, DsState::Active);
}
