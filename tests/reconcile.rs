use upstairs::downstairs::Downstairs;
use upstairs::reconcile::{
    collate_numbers, convert_rc_to_messages, mismatch_list, ExtentFix, ReconcileOp, RegionMetadata,
};
use upstairs::types::{Address, CrucibleError, DsState, IOState, RegionGeometry};

fn addrs() -> Vec<Address> {
    vec![
        Address { ip: 0x7f000001, port: 801 },
        Address { ip: 0x7f000001, port: 802 },
        Address { ip: 0x7f000001, port: 803 },
    ]
}

fn meta(gen: Vec<u64>, flush: Vec<u64>, dirty: Vec<bool>) -> RegionMetadata {
    RegionMetadata { generation: gen, flush_numbers: flush, dirty }
}

fn check_steps(tasks: &[upstairs::reconcile::ReconcileIO], first_id: u64, extent: u64, source: usize, dest: &[usize], a: Address) {
    assert_eq!(tasks[0].id, first_id);
    match &tasks[0].op {
        ReconcileOp::ExtentFlush { extent: e, client_id, flush_number, gen_number } => {
            assert_eq!(*e, extent);
            assert_eq!(*client_id, source);
            assert_eq!(*flush_number, 22);
            assert_eq!(*gen_number, 33);
        },
        m => panic!("{:?} not ExtentFlush", m),
    }
    assert_eq!(tasks[1].id, first_id + 1);
    match &tasks[1].op {
        ReconcileOp::ExtentClose { extent: e } => assert_eq!(*e, extent),
        m => panic!("{:?} not ExtentClose", m),
    }
    assert_eq!(tasks[2].id, first_id + 2);
    match &tasks[2].op {
        ReconcileOp::ExtentRepair { extent: e, source_client_id, source_repair_address, dest_clients } => {
            assert_eq!(*e, extent);
            assert_eq!(*source_client_id, source);
            assert_eq!(*source_repair_address, a);
            assert_eq!(dest_clients.as_slice(), dest);
        },
        m => panic!("{:?} not ExtentRepair", m),
    }
    assert_eq!(tasks[3].id, first_id + 3);
    match &tasks[3].op {
        ReconcileOp::ExtentReopen { extent: e } => assert_eq!(*e, extent),
        m => panic!("{:?} not ExtentReopen", m),
    }
    for t in tasks.iter().take(4) {
        assert_eq!(t.state, vec![IOState::New; 3]);
    }
}

#[test]
fn reconcile_rc_to_message() {
    let fixes = vec![ExtentFix { extent: 9, source: 0, dest: vec![1, 2] }];
    let tasks = convert_rc_to_messages(&fixes, &addrs(), 22, 33);
    assert_eq!(tasks.len(), 4);
    check_steps(&tasks, 0, 9, 0, &[1, 2], addrs()[0]);
}

#[test]
fn reconcile_rc_to_message_two() {
    let fixes = vec![
        ExtentFix { extent: 1, source: 0, dest: vec![1] },
        ExtentFix { extent: 4, source: 1, dest: vec![0, 2] },
    ];
    let tasks = convert_rc_to_messages(&fixes, &addrs(), 22, 33);
    assert_eq!(tasks.len(), 8);
    check_steps(&tasks[0..4], 0, 1, 0, &[1], addrs()[0]);
    check_steps(&tasks[4..8], 4, 4, 1, &[0, 2], addrs()[1]);
}

#[test]
fn collate_generation_checks() {
    let ms = vec![
        meta(vec![1, 2], vec![5, 3], vec![false, false]),
        meta(vec![1, 1], vec![4, 3], vec![false, false]),
        meta(vec![1, 1], vec![4, 3], vec![false, false]),
    ];
    assert_eq!(collate_numbers(&ms, 2, 4), Ok((6, 3)));
    assert_eq!(
        collate_numbers(&ms, 2, 3),
        Err(CrucibleError::GenerationNumberTooLow { found: 3, requested: 3 })
    );
    assert_eq!(
        collate_numbers(&ms, 2, 0),
        Err(CrucibleError::GenerationNumberTooLow { found: 3, requested: 0 })
    );
}

#[test]
fn mismatch_list_picks_newest_source() {
    let ms = vec![
        meta(vec![1, 2, 1], vec![5, 3, 7], vec![false, false, false]),
        meta(vec![1, 1, 1], vec![4, 3, 7], vec![false, false, true]),
        meta(vec![1, 1, 1], vec![5, 3, 7], vec![false, false, false]),
    ];
    let fixes = mismatch_list(&ms, 3);
    assert_eq!(fixes.len(), 3);
    assert_eq!((fixes[0].extent, fixes[0].source, fixes[0].dest.clone()), (0, 0, vec![1]));
    assert_eq!((fixes[1].extent, fixes[1].source, fixes[1].dest.clone()), (1, 0, vec![1, 2]));
    assert_eq!((fixes[2].extent, fixes[2].source, fixes[2].dest.clone()), (2, 0, vec![1]));
    let same = vec![
        meta(vec![1], vec![1], vec![false]),
        meta(vec![1], vec![1], vec![false]),
        meta(vec![1], vec![1], vec![false]),
    ];
    assert!(mismatch_list(&same, 1).is_empty());
}

#[test]
fn reconcile_runs_to_completion() {
    let mut ds = Downstairs::new(RegionGeometry { extent_size: 10, extent_count: 2 }, 1, 2);
    let a = addrs();
    for c in 0..3 {
        ds.clients[c].state = DsState::WaitQuorum;
        ds.clients[c].repair_addr = Some(a[c]);
    }
    let ms = vec![
        meta(vec![1, 1], vec![2, 3], vec![false, false]),
        meta(vec![1, 1], vec![2, 2], vec![false, false]),
        meta(vec![1, 1], vec![2, 3], vec![false, false]),
    ];
    assert_eq!(ds.collate(5, &ms, 2), Ok(true));
    assert_eq!(ds.next_flush, 4);
    assert_eq!(ds.reconcile_repair_needed, 4);
    for c in 0..3 {
        assert_eq!(ds.clients[c].state, DsState::Repair);
    }
    assert!(!ds.send_next_reconciliation_req());
    for id in 0..4u64 {
        assert!(!ds.on_reconciliation_ack(0, id));
        assert!(!ds.on_reconciliation_ack(1, id));
        let done = ds.on_reconciliation_ack(2, id);
        assert_eq!(done, id == 3);
    }
    ds.on_reconciliation_done();
    for c in 0..3 {
        assert_eq!(ds.clients[c].state, DsState::Active);
    }
}

#[test]
fn reconcile_failure_aborts() {
    let mut ds = Downstairs::new(RegionGeometry { extent_size: 10, extent_count: 1 }, 1, 2);
    for c in 0..3 {
        ds.clients[c].state = DsState::WaitQuorum;
        ds.clients[c].repair_addr = Some(addrs()[c]);
    }
    let ms = vec![
        meta(vec![1], vec![2], vec![true]),
        meta(vec![1], vec![2], vec![false]),
        meta(vec![1], vec![2], vec![false]),
    ];
    assert_eq!(ds.collate(3, &ms, 1), Ok(true));
    assert!(!ds.send_next_reconciliation_req());
    ds.on_reconciliation_failed();
    assert!(ds.reconcile_task_list.is_empty());
    assert!(ds.reconcile_current_work.is_none());
    for c in 0..3 {
        assert_eq!(ds.clients[c].state, DsState::FailedRepair);
    }
}

#[test]
fn collate_too_low_fails_waiting_clients() {
    let mut ds = Downstairs::new(RegionGeometry { extent_size: 10, extent_count: 1 }, 1, 2);
    ds.clients[0].state = DsState::WaitQuorum;
    let ms = vec![
        meta(vec![4], vec![2], vec![false]),
        meta(vec![1], vec![2], vec![false]),
        meta(vec![1], vec![2], vec![false]),
    ];
    assert_eq!(
        ds.collate(5, &ms, 1),
        Err(CrucibleError::GenerationNumberTooLow { found: 5, requested: 5 })
    );
    assert_eq!(ds.clients[0].state, DsState::FailedRepair);
    assert_eq!(ds.clients[1].state, DsState::New);
}
