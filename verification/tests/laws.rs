use copper_sched::graph::reaches;
use copper_sched::graph::topological_order;
use copper_sched::inventory::CuInventory;
use copper_sched::lanes::result_channel;
use copper_sched::lanes::LaneExecutor;
use copper_sched::lanes::Received;
use copper_sched::lanes::Wait;
use copper_sched::lexical::better_score;
use copper_sched::model::CuContract;
use copper_sched::model::CuProfile;
use copper_sched::model::Model;
use copper_sched::model::SchedulingPolicy;
use copper_sched::order::can_run;
use copper_sched::schedule::CuPlanDependency;
use copper_sched::schedule::CuPlanStep;
use copper_sched::search::Rng;
use copper_sched::strmap::StrMap;
use copper_sched::text::push_dec;
use copper_sched::text::push_hex16;
use copper_sched::text::text_less;
use copper_sched::timeline::Assignment;
use copper_sched::timeline::Evaluation;

#[test]
fn topological_orders_leave_no_node_out() {
    // 0 -> 2, 1 -> 2, 2 -> 3, and an edge into the next cycle.
    let edges = vec![vec![(2, 0)], vec![(2, 0)], vec![(3, 0)], vec![(0, 1)]];
    assert_eq!(topological_order(&edges), Some(vec![0, 1, 2, 3]));
    let cycle = vec![vec![(1, 0)], vec![(0, 0)]];
    assert_eq!(topological_order(&cycle), None);
    // Only on a cycle does a node wait for itself.
    assert!(reaches(&cycle, 0, 0, 0) && reaches(&cycle, 1, 1, 0));
    assert!((0..4).all(|node| !reaches(&edges, node, node, 0)));
    assert_eq!(topological_order(&vec![]), Some(vec![]));
}

#[test]
fn precedence_is_transitive_and_adds_up_lags() {
    let edges = vec![vec![(1, 0)], vec![(2, 1)], vec![(0, 0)]];
    assert!(reaches(&edges, 0, 1, 0));
    assert!(!reaches(&edges, 0, 2, 0));
    assert!(reaches(&edges, 0, 2, 1));
    // Once round, and twice.
    assert!(reaches(&edges, 0, 0, 1));
    assert!(reaches(&edges, 0, 0, 2));
    assert!(!reaches(&edges, 0, 0, 0));
}

#[test]
fn lanes_that_wait_for_each_other_cannot_run() {
    let preds = vec![vec![], vec![0], vec![], vec![2]];
    assert!(can_run(&preds, &vec![vec![0, 3], vec![2, 1]]));
    assert!(!can_run(&preds, &vec![vec![3, 0], vec![1, 2]]));
}

/// Six independent steps, of one to six units of time.
fn model() -> Model {
    let steps: Vec<CuPlanStep> =
        (1..=6).map(|i| CuPlanStep { key: format!("mission:m|task:t{i}|phase:whole"), copperlist: 0 }).collect();
    let mut costs = StrMap::new();
    for (i, step) in steps.iter().enumerate() {
        costs.insert(step.key.clone(), i as u64 + 1);
    }
    let dependencies = vec![CuPlanDependency { from: 5, to: 0, cycle_lag: 0 }];
    let inventory = CuInventory { copperlists_per_cycle: 1, steps, dependencies, background: vec![] };
    let contract = CuContract {
        chains: vec![],
        sources: vec![],
        cpus: vec![0, 1],
        max_in_flight: 1,
        deadline_objective: false,
        worker_policy: SchedulingPolicy::Fair,
        dispatcher: None,
    };
    let profile = CuProfile { config_signature: String::new(), window_ns: 100, copperlists: 1, costs };
    Model::new(inventory, &contract, &profile, None).unwrap()
}

fn makespan_first(e: &Evaluation) -> Vec<u64> {
    vec![e.makespan, 0, 0]
}

#[test]
fn the_search_does_no_worse_than_its_start() {
    let model = model();
    let start = model.evaluate(&model.start_plan()).unwrap();
    let ranked = model.search(1, 200, 2, makespan_first);
    assert!(!better_score(&makespan_first(&start), &ranked[0].0));
    // 21 units of time on two CPUs.
    assert_eq!(ranked[0].0[0], 11);
}

#[test]
fn random_moves_keep_every_unit() {
    let model = model();
    let mut rng = Rng { state: 3 };
    let mut now = model.start_plan();
    for _ in 0..50 {
        now = model.neighbour(&now, &mut rng);
        let mut units: Vec<usize> = now.lanes.iter().flatten().copied().collect();
        units.sort();
        assert_eq!(units, [0, 1, 2, 3, 4, 5]);
    }
}

#[test]
fn workers_run_every_occurrence_once() {
    let model = model();
    let plan = model.materialize(&Assignment { lanes: vec![vec![5, 0], vec![1, 2, 3, 4]] }, 3, None);
    let mut steps: Vec<u32> = plan.workers.iter().flat_map(|w| w.steps.clone()).collect();
    steps.sort();
    assert_eq!(steps, [0, 1, 2, 3, 4, 5]);
    assert_eq!((plan.workers[0].id.as_str(), plan.max_in_flight), ("cpu0", 3));
    let idle = model.materialize(&Assignment { lanes: vec![vec![], vec![5, 0, 1, 2, 3, 4]] }, 0, None);
    assert_eq!((idle.workers.len(), idle.workers[0].id.as_str(), idle.max_in_flight), (1, "cpu1", 1));
}

#[test]
fn starts_wait_for_predecessors() {
    let model = model();
    let e = model.evaluate(&Assignment { lanes: vec![vec![0, 1, 2], vec![5, 3, 4]] }).unwrap();
    // Unit 0 waits for unit 5 on the other lane.
    assert_eq!((e.starts[0], e.ends[5]), (6, 6));
    assert_eq!((e.starts[1], e.makespan), (7, 15));
}

#[test]
fn texts_order_as_strings_do() {
    let words = ["", "a", "aa", "ab", "b", "\u{e9}", "z"];
    for a in words {
        for b in words {
            assert_eq!(text_less(a, b), a < b, "{a:?} {b:?}");
        }
    }
    let mut out = String::new();
    push_dec(&mut out, 0);
    push_dec(&mut out, u64::MAX);
    push_hex16(&mut out, 0xbeef);
    assert_eq!(out, format!("0{}{:016x}", u64::MAX, 0xbeef));
}

#[test]
fn maps_keep_their_keys_in_order() {
    let mut map = StrMap::new();
    for (key, value) in [("b", 1), ("a", 2), ("c", 3), ("b", 4)] {
        map.insert(key.to_string(), value);
    }
    assert_eq!(map.len(), 3);
    let keys: Vec<&String> = (0..3).map(|i| map.key_at(i)).collect();
    assert_eq!(keys, ["a", "b", "c"]);
    assert_eq!((*map.value_at(1), map.get("b"), map.get("d")), (4, Some(&4), None));
}

#[test]
fn admitted_copperlists_stay_in_their_slots() {
    let mut lanes = LaneExecutor::new(5, 1, 3, 1, 2);
    for clid in 5..8 {
        lanes.admit_copperlist(clid, clid as usize * 10);
    }
    lanes.abort(6);
    lanes.complete(0, 0);
    lanes.stop_admitting();
    assert_eq!(lanes.wait_admitted(5), Wait::Ready(Some(50)));
    assert_eq!(lanes.wait_admitted(7), Wait::Ready(Some(70)));
    assert_eq!(lanes.wait_admitted(8), Wait::Exit);
    assert!(lanes.is_aborted(6) && !lanes.is_aborted(7));
    assert!(lanes.finish_occurrence(7));
    assert_eq!((lanes.finished(6), lanes.finished(7)), (0, 1));
    assert_eq!((lanes.cycle_of(6), lanes.cycle_of(7)), (0, 1));
    lanes.request_shutdown();
    assert_eq!(lanes.wait_completed(0, 0), Wait::Ready(()));
    assert_eq!(lanes.wait_completed(0, 1), Wait::Exit);
}

#[test]
fn receivers_learn_that_the_senders_are_gone() {
    let (mut queue, sender, receiver) = result_channel();
    let second = sender.clone(&mut queue);
    assert_eq!(queue.senders(), 2);
    sender.send(&mut queue, 1).unwrap();
    sender.drop(&mut queue);
    assert_eq!(receiver.recv(&mut queue), Received::Value(1));
    assert_eq!(receiver.recv(&mut queue), Received::Empty);
    assert_eq!(receiver.recv_timeout(&mut queue, true), Received::Timeout);
    second.drop(&mut queue);
    assert_eq!(receiver.recv(&mut queue), Received::Disconnected);
}
