use copper_sched::lanes::result_channel;
use copper_sched::lanes::LaneExecutor;
use copper_sched::lanes::Received;
use copper_sched::lanes::Wait;
use copper_sched::lanes::WaitStep;
use copper_sched::lanes::Waiter;
use copper_sched::lanes::SPIN_ROUNDS;
use copper_sched::parallel_rt::disabled_parallel_rt_metadata;
use copper_sched::parallel_rt::CachePadded;
use copper_sched::parallel_rt::CausalityCheckpoint;
use copper_sched::parallel_rt::ComponentId;
use copper_sched::parallel_rt::IterationTicket;
use copper_sched::parallel_rt::ParallelRt;
use copper_sched::parallel_rt::ParallelRtMetadata;
use copper_sched::parallel_rt::ParallelRtStageKind;
use copper_sched::parallel_rt::ParallelRtStageMetadata;
use copper_sched::placeholder::ParallelRt as DisabledParallelRt;

#[test]
fn checkpoint_advances_monotonically() {
    let mut checkpoint = CausalityCheckpoint::new(0);
    assert!(checkpoint.is_authorized_for(0));
    checkpoint.authorize_next(1);
    assert!(!checkpoint.is_authorized_for(0));
    assert!(checkpoint.is_authorized_for(1));
}

#[test]
fn disabled_metadata_is_empty() {
    assert_eq!(disabled_parallel_rt_metadata().process_stage_count(), 0);
}

#[test]
fn parallel_rt_stage_metadata_is_const_constructible() {
    const STAGES: &[ParallelRtStageMetadata] = &[ParallelRtStageMetadata {
        label: "demo",
        kind: ParallelRtStageKind::Task,
        plan_node_id: 7,
        component_id: ComponentId { index: 3 },
    }];
    const METADATA: ParallelRtMetadata = ParallelRtMetadata { stages: STAGES };
    assert_eq!(METADATA.process_stage_count(), 1);
    assert_eq!(METADATA.stages[0].label, "demo");
    let built = ParallelRtStageMetadata::new("demo", ParallelRtStageKind::Task, 7, ComponentId::new(3));
    assert_eq!(METADATA.stages[0], built);
    assert_eq!(ParallelRtMetadata::new(STAGES), METADATA);
}

#[test]
fn enabled_parallel_rt_tracks_metadata_and_limit() {
    const STAGES: &[ParallelRtStageMetadata] = &[
        ParallelRtStageMetadata {
            label: "a",
            kind: ParallelRtStageKind::Task,
            plan_node_id: 0,
            component_id: ComponentId { index: 0 },
        },
        ParallelRtStageMetadata {
            label: "b",
            kind: ParallelRtStageKind::Task,
            plan_node_id: 1,
            component_id: ComponentId { index: 1 },
        },
    ];
    const METADATA: ParallelRtMetadata = ParallelRtMetadata { stages: STAGES };

    let mut rt = ParallelRt::<4>::new(&METADATA).expect("parallel rt should build");
    assert!(rt.enabled());
    assert_eq!(rt.metadata().process_stage_count(), 2);
    assert_eq!(rt.in_flight_limit(), 4);
    assert_eq!(rt.current_commit_clid(), 0);
    rt.reset_cursors(9);
    assert_eq!(rt.current_commit_clid(), 9);
    rt.release_commit(10);
    assert!(rt.commit_checkpoint().is_authorized_for(10));
}

#[test]
fn disabled_parallel_rt_preserves_metadata() {
    const STAGES: &[ParallelRtStageMetadata] = &[ParallelRtStageMetadata {
        label: "a",
        kind: ParallelRtStageKind::Task,
        plan_node_id: 0,
        component_id: ComponentId { index: 0 },
    }];
    const METADATA: ParallelRtMetadata = ParallelRtMetadata { stages: STAGES };

    let mut rt = DisabledParallelRt::<4>::new(&METADATA).expect("parallel rt placeholder should build");
    assert!(!rt.enabled());
    assert_eq!(rt.metadata().process_stage_count(), 1);
    assert_eq!(rt.in_flight_limit(), 4);
    rt.reset_cursors(3);
    rt.release_commit(4);
    assert_eq!(rt.current_commit_clid(), 4);
    assert_eq!(rt.commit_checkpoint().current_clid(), 4);
}

#[test]
fn cache_padding_gives_its_value_back() {
    let padded = CachePadded::new(17);
    assert_eq!(*padded, 17);
    assert_eq!(padded.into_inner(), 17);
}

#[test]
fn a_ticket_holds_the_reset_buffer() {
    let ticket = IterationTicket::new(5, vec![1, 2, 3], |clid, mut buffer: Vec<u64>| {
        buffer.clear();
        buffer.push(clid);
        buffer
    });
    assert_eq!(ticket.clid, 5);
    assert_eq!(ticket.culist, vec![5]);
    assert!(ticket.keyframe.is_none());
    assert_eq!(ticket.raw_payload_bytes, 0);
    assert_eq!(ticket.handle_bytes, 0);
}

/// Two lanes that take turns: each runs until it has to wait.
#[test]
fn lanes_wait_for_admission_and_dependencies() {
    // Two occurrences per CL: 0 on lane A, 1 on lane B, edge 0 -> 1.
    let mut lanes = LaneExecutor::new(0, 2, 2, 2, 1);
    let mut buffers = [0u64; 2];
    let mut order: Vec<(usize, u64)> = Vec::new();
    let mut done: Vec<u64> = Vec::new();
    let mut a: u64 = 0;
    let mut b: u64 = 0;
    let mut a_exited = false;
    let mut b_exited = false;
    let mut next: u64 = 0;
    while !a_exited || !b_exited {
        // Lane B looks first, so that it meets every wait.
        match lanes.wait_admitted(b) {
            Wait::Ready(buffer) => match lanes.wait_completed(0, b) {
                Wait::Ready(()) => {
                    assert_eq!(buffers[buffer.unwrap()], b * 10);
                    order.push((1, b));
                    lanes.complete(1, b);
                    if lanes.finish_occurrence(b) {
                        done.push(b);
                    }
                    b += 1;
                }
                Wait::Exit => panic!("lane B must not exit in the middle of a cycle"),
                Wait::Pending => {}
            },
            Wait::Exit => b_exited = true,
            Wait::Pending => {}
        }
        match lanes.wait_admitted(a) {
            Wait::Ready(buffer) => {
                buffers[buffer.unwrap()] = a * 10;
                order.push((0, a));
                lanes.complete(0, a);
                assert!(!lanes.finish_occurrence(a));
                a += 1;
            }
            Wait::Exit => a_exited = true,
            Wait::Pending => {}
        }
        // The dispatcher waits for the slot to free before reusing it.
        if next < 4 && done.len() as u64 >= next {
            lanes.admit_copperlist(next, (next % 2) as usize);
            next += 1;
            assert_eq!(lanes.next_admission(), next);
        } else if next == 4 && done.len() == 4 && !lanes.is_stopping() {
            lanes.stop_admitting();
        }
    }
    assert_eq!(a, 4);
    assert_eq!(b, 4);
    for cycle in 0..4 {
        let a_at = order.iter().position(|&e| e == (0, cycle)).unwrap();
        let b_at = order.iter().position(|&e| e == (1, cycle)).unwrap();
        assert!(a_at < b_at);
    }
    assert_eq!(done, vec![0, 1, 2, 3]);
}

#[test]
fn shutdown_releases_waiters_and_aborts_are_per_slot() {
    let mut lanes = LaneExecutor::new(0, 1, 1, 1, 1);
    assert_eq!(lanes.wait_admitted(0), Wait::Pending);
    assert_eq!(lanes.wait_completed(0, 0), Wait::Pending);
    lanes.request_shutdown();
    assert!(lanes.is_shut_down());
    assert_eq!(lanes.wait_admitted(0), Wait::Exit);
    assert_eq!(lanes.wait_completed(0, 0), Wait::Exit);
    let mut lanes = LaneExecutor::new(0, 1, 2, 1, 2);
    lanes.admit_copperlist(0, 40);
    lanes.abort(0);
    assert!(lanes.is_aborted(0));
    lanes.admit_copperlist(1, 41);
    assert!(!lanes.is_aborted(1));
    assert_eq!(lanes.cycle_of(1), 0);
    assert_eq!(lanes.cycle_of(2), 1);
    assert_eq!(lanes.wait_admitted(0), Wait::Ready(Some(40)));
    assert_eq!(lanes.wait_admitted(1), Wait::Ready(Some(41)));
}

#[test]
fn cycles_are_counted_from_the_first_copperlist() {
    let lanes = LaneExecutor::new(10, 0, 0, 1, 0);
    assert_eq!(lanes.first_clid(), 10);
    assert_eq!(lanes.cycle_of(10), 0);
    assert_eq!(lanes.cycle_of(13), 3);
    let lanes = LaneExecutor::new(10, 0, 3, 1, 3);
    assert_eq!(lanes.cycle_of(12), 0);
    assert_eq!(lanes.cycle_of(13), 1);
}

#[test]
fn reused_slots_start_over() {
    let mut lanes = LaneExecutor::new(0, 1, 1, 1, 1);
    lanes.admit_copperlist(0, 7);
    lanes.abort(0);
    assert!(lanes.finish_occurrence(0));
    lanes.admit_copperlist(1, 8);
    assert!(!lanes.is_aborted(1));
    assert!(lanes.finish_occurrence(1));
    assert!(!lanes.finish_occurrence(1));
}

#[test]
fn a_waiter_spins_before_it_parks() {
    let mut lanes = LaneExecutor::new(0, 1, 1, 1, 1);
    let mut waiter = Waiter::new();
    for _ in 0..SPIN_ROUNDS {
        assert_eq!(lanes.wait_until(&mut waiter, false), WaitStep::Spin);
    }
    let generation = lanes.generation();
    assert_eq!(lanes.wait_until(&mut waiter, false), WaitStep::Park(generation));
    assert_eq!(lanes.wait_until(&mut waiter, false), WaitStep::Spin);
    lanes.complete(0, 0);
    assert_ne!(lanes.generation(), generation);
    lanes.request_shutdown();
    assert_eq!(lanes.wait_until(&mut waiter, false), WaitStep::ShutDown);
    assert_eq!(lanes.wait_until(&mut waiter, true), WaitStep::Met);
}

#[test]
fn results_come_out_in_sending_order() {
    let (mut queue, first, receiver) = result_channel::<u32>();
    let second = first.clone(&mut queue);
    assert_eq!(receiver.recv(&mut queue), Received::Empty);
    assert_eq!(receiver.recv_timeout(&mut queue, true), Received::Timeout);
    assert_eq!(first.send(&mut queue, 1), Ok(()));
    assert_eq!(second.send(&mut queue, 2), Ok(()));
    assert_eq!(first.send(&mut queue, 3), Ok(()));
    first.drop(&mut queue);
    assert_eq!(receiver.recv(&mut queue), Received::Value(1));
    assert_eq!(receiver.recv_timeout(&mut queue, true), Received::Value(2));
    second.drop(&mut queue);
    assert_eq!(receiver.recv(&mut queue), Received::Value(3));
    assert_eq!(receiver.recv(&mut queue), Received::Disconnected);
    assert_eq!(receiver.recv_timeout(&mut queue, true), Received::Disconnected);
}
