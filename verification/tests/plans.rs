use copper_sched::assembled::execution_keys;
use copper_sched::assembled::AssembledPlan;
use copper_sched::assembled::CuExecutionLoop;
use copper_sched::assembled::CuExecutionStep;
use copper_sched::assembled::CuExecutionUnit;
use copper_sched::assembled::CuInputMsg;
use copper_sched::assembled::CuOutputPack;
use copper_sched::assembled::CuStepPhase;
use copper_sched::assembled::NodeId;
use copper_sched::assembled::PlanEntity;
use copper_sched::assembled::PlanEntityKind;
use copper_sched::error::CuError;
use copper_sched::error::CuResult;
use copper_sched::fixed::CuConfig;
use copper_sched::fixed::CuPlan;
use copper_sched::fixed::Fixed;
use copper_sched::fixed::Mission;
use copper_sched::schedule::CuMissionPlan;
use copper_sched::schedule::CuPlanDependency;
use copper_sched::schedule::CuPlanLane;
use copper_sched::schedule::CuPlanPlacement;
use copper_sched::schedule::CuPlanStep;
use copper_sched::schedule::PlanShape;
use copper_sched::schedule::ThreadPool;
use copper_sched::strmap::StrMap;

/// A node of a task graph: what it is, how often it refines, and which nodes it
/// reads from.
#[derive(Clone)]
struct Node {
    kind: fn(usize) -> PlanEntityKind,
    refines: usize,
    inputs: Vec<usize>,
}

fn node(kind: fn(usize) -> PlanEntityKind, refines: usize, inputs: &[usize]) -> Node {
    Node { kind, refines, inputs: inputs.to_vec() }
}

fn rx(channel: &str) -> PlanEntityKind {
    PlanEntityKind::BridgeRx {
        bridge_config_index: 0,
        bridge: "radio".to_string(),
        channel: channel.to_string(),
    }
}

fn task(task_index: usize, id: &str) -> PlanEntityKind {
    PlanEntityKind::Task { task_index, id: id.to_string(), stateless: false }
}

/// The plan that calls the nodes in the given order, every anytime node's
/// refinements right behind it.
fn build(nodes: &[Node], order: &[NodeId]) -> CuResult<AssembledPlan> {
    let writes = |n: usize| nodes.iter().any(|node| node.inputs.contains(&n));
    let mut slots: Vec<Option<u32>> = vec![None; nodes.len()];
    let mut next = 0;
    for &n in order {
        if writes(n as usize) {
            slots[n as usize] = Some(next);
            next += 1;
        }
    }
    let mut steps = Vec::new();
    let mut done = vec![false; nodes.len()];
    for &n in order {
        let node = &nodes[n as usize];
        if node.inputs.iter().any(|&i| !done[i]) {
            return Err(CuError::of("an input is produced too late"));
        }
        for turn in 0..=node.refines {
            steps.push(CuExecutionUnit::Step(CuExecutionStep {
                node_id: n,
                phase: if node.refines == 0 {
                    CuStepPhase::Whole
                } else if turn == 0 {
                    CuStepPhase::AnytimeBase
                } else {
                    CuStepPhase::AnytimeRefine
                },
                input_msg_indices_types: node
                    .inputs
                    .iter()
                    .map(|&i| CuInputMsg { culist_index: slots[i].unwrap() })
                    .collect(),
                output_msg_pack: slots[n as usize]
                    .map(|culist_index| CuOutputPack { culist_index, msg_types: vec!["u32".to_string()] }),
            }));
        }
        done[n as usize] = true;
    }
    let entities = nodes
        .iter()
        .enumerate()
        .map(|(i, node)| PlanEntity { kind: (node.kind)(i) })
        .collect();
    Ok(AssembledPlan { execution: CuExecutionLoop { steps }, entities })
}

fn canonical(nodes: &[Node]) -> AssembledPlan {
    let order: Vec<NodeId> = (0..nodes.len() as u32).collect();
    build(nodes, &order).unwrap()
}

fn config_of(pools: &[(&str, usize)], missions: &[(&str, &[Node])]) -> CuConfig {
    CuConfig {
        thread_pools: pools
            .iter()
            .map(|(id, threads)| ThreadPool { id: id.to_string(), threads: *threads })
            .collect(),
        missions: missions
            .iter()
            .map(|(id, nodes)| Mission {
                id: id.to_string(),
                effective: Ok(canonical(nodes)),
                canonical: Ok(canonical(nodes)),
            })
            .collect(),
        fixed: None,
    }
}

fn chain_nodes() -> Vec<Node> {
    vec![node(|i| task(i, "src"), 0, &[]), node(|i| task(i, "sink"), 0, &[0])]
}

fn chain() -> CuConfig {
    config_of(&[("rt", 4)], &[("default", &chain_nodes())])
}

fn worker(index: u32, steps: Vec<u32>) -> CuPlanLane {
    CuPlanLane { placement: CuPlanPlacement::Worker { pool: "rt".to_string(), index }, steps }
}

fn edge(from: u32, to: u32, cycle_lag: u32) -> CuPlanDependency {
    CuPlanDependency { from, to, cycle_lag }
}

fn mission(plan: &CuPlan) -> CuMissionPlan {
    plan.missions.get("default").unwrap().clone()
}

fn with_mission(plan: &CuPlan, mission: CuMissionPlan) -> CuPlan {
    let mut changed = plan.clone();
    changed.missions.insert("default".to_string(), mission);
    changed
}

fn pipeline() -> (CuConfig, CuPlan) {
    let config = chain();
    let plan = CuPlan::from_config(&config).unwrap();
    let mut mission = mission(&plan);
    let first = mission.steps.clone();
    mission.steps.extend(first.into_iter().map(|mut step| {
        step.copperlist = 1;
        step
    }));
    mission.copperlists_per_cycle = 2;
    mission.lanes = vec![worker(0, vec![0, 2]), worker(1, vec![1, 3])];
    mission.dependencies = vec![edge(0, 1, 0), edge(2, 3, 0)];
    // Lane order and wrap supply the per-component state constraints.
    let plan = with_mission(&plan, mission);
    (config, plan)
}

fn assemble(config: &CuConfig, nodes: &[Node]) -> CuResult<AssembledPlan> {
    let fixed = Fixed::new(config.fixed.as_ref().unwrap().clone()).unwrap();
    fixed.assemble(config, &config.missions[0], "default", |order: Vec<NodeId>| build(nodes, &order))
}

#[test]
fn multicore_multicl_plan_round_trips_but_is_not_silently_executed_serially() {
    let (mut config, plan) = pipeline();
    plan.validate(&config).unwrap();
    Fixed::new(plan.clone()).unwrap().apply(&mut config).unwrap();
    assert_eq!(CuPlan::from_config(&config).unwrap(), plan);
    let err = assemble(&config, &chain_nodes()).err().unwrap();
    assert!(
        err.to_string().contains("requires a multicore/multi-CopperList executor"),
        "{}",
        err.to_string()
    );
}

#[test]
fn rejects_malformed_inventory_lanes_and_dependencies() {
    let (config, plan) = pipeline();
    for mutation in 0..12 {
        let mut mission = mission(&plan);
        match mutation {
            0 => {
                mission.steps.pop();
            }
            1 => {
                mission.steps[0].key = "unknown".to_string();
            }
            2 => {
                mission.steps[0].copperlist = 2;
            }
            3 => {
                mission.steps[2] = mission.steps[0].clone();
            }
            4 => {
                mission.lanes[0].steps.pop();
            }
            5 => {
                mission.lanes[0].steps.push(0);
            }
            6 => {
                mission.lanes[0].steps.push(99);
            }
            7 => {
                mission.lanes[0].placement =
                    CuPlanPlacement::Worker { pool: "missing".to_string(), index: 0 };
            }
            8 => {
                mission.lanes[0].placement = CuPlanPlacement::Worker { pool: "rt".to_string(), index: 4 };
            }
            9 => {
                mission.lanes[1].placement = mission.lanes[0].placement.clone();
            }
            10 => {
                mission.dependencies[0].to = 99;
            }
            _ => {
                mission.copperlists_per_cycle = 0;
            }
        }
        let invalid = with_mission(&plan, mission);
        assert!(invalid.validate(&config).is_err(), "mutation {mutation}");
    }
}

/// What each malformed plan is told.
#[test]
fn malformed_plans_are_told_what_is_wrong() {
    let (config, plan) = pipeline();
    let told = |change: &dyn Fn(&mut CuMissionPlan)| -> String {
        let mut mission = mission(&plan);
        change(&mut mission);
        with_mission(&plan, mission).validate(&config).unwrap_err().to_string()
    };
    assert!(told(&|m| m.copperlists_per_cycle = 0).contains("copperlists_per_cycle must be positive"));
    assert!(told(&|m| m.steps[0].key = "unknown".to_string()).contains("Unknown process step 'unknown'"));
    assert!(told(&|m| m.steps[0].copperlist = 2).contains("CopperList offset 2 is outside the schedule cycle"));
    assert!(told(&|m| m.lanes[0].placement =
        CuPlanPlacement::Worker { pool: "missing".to_string(), index: 0 })
    .contains("Unknown worker pool 'missing'"));
    assert!(told(&|m| m.lanes[0].placement = CuPlanPlacement::Worker { pool: "rt".to_string(), index: 4 })
        .contains("Worker 4 is outside pool 'rt' (4 workers)"));
}

#[test]
fn rejects_missing_data_precedence_and_zero_lag_cycles() {
    let (config, plan) = pipeline();
    let mut missing = mission(&plan);
    missing.dependencies.clear();
    let err = with_mission(&plan, missing).validate(&config).unwrap_err();
    assert!(err.to_string().contains("Missing precedence"), "{}", err.to_string());
    let mut cyclic = mission(&plan);
    cyclic.dependencies.push(edge(1, 0, 0));
    let err = with_mission(&plan, cyclic).validate(&config).unwrap_err();
    assert!(err.to_string().contains("cycle"), "{}", err.to_string());
}

#[test]
fn task_state_requires_precedence_between_cls_and_across_cycle_boundary() {
    let (config, plan) = pipeline();
    let mut changed = mission(&plan);
    changed.lanes = (0..4).map(|index| worker(index, vec![index])).collect();
    assert!(with_mission(&plan, changed.clone()).validate(&config).is_err());
    changed.dependencies.extend([edge(0, 2, 0), edge(1, 3, 0)]);
    // Each worker's self-wrap alone cannot order distinct occurrences of
    // the same task instance across the two-CL cycle boundary.
    assert!(with_mission(&plan, changed.clone()).validate(&config).is_err());
    changed.dependencies.extend([edge(2, 0, 1), edge(3, 1, 1)]);
    with_mission(&plan, changed).validate(&config).unwrap();
}

#[test]
fn bridge_channels_share_state_even_without_a_message_edge_between_them() {
    let nodes = vec![
        node(|_| rx("a"), 0, &[]),
        node(|_| rx("b"), 0, &[]),
        node(|_| task(0, "left"), 0, &[0]),
        node(|_| task(1, "right"), 0, &[1]),
    ];
    let config = config_of(&[("rt", 2)], &[("default", &nodes)]);
    let plan = CuPlan::from_config(&config).unwrap();
    let mut changed = mission(&plan);
    let index = |needle: &str| {
        changed.steps.iter().position(|step| step.key.contains(needle)).unwrap() as u32
    };
    let (a, b, left, right) = (
        index("bridge:radio:rx:a|"),
        index("bridge:radio:rx:b|"),
        index("task:left|"),
        index("task:right|"),
    );
    changed.lanes = vec![worker(0, vec![a, left]), worker(1, vec![b, right])];
    changed.dependencies = vec![edge(a, left, 0), edge(b, right, 0)];
    assert!(with_mission(&plan, changed.clone()).validate(&config).is_err());
    changed.dependencies.extend([edge(a, b, 0), edge(b, a, 1)]);
    with_mission(&plan, changed).validate(&config).unwrap();
}

fn join_nodes() -> Vec<Node> {
    vec![
        node(|i| task(i, "left"), 0, &[]),
        node(|i| task(i, "right"), 0, &[]),
        node(|i| task(i, "join"), 2, &[0, 1]),
        node(|i| task(i, "sink"), 0, &[2]),
    ]
}

#[test]
fn serial_order_remaps_message_slots_and_preserves_input_order() {
    let nodes = join_nodes();
    let mut config = config_of(&[], &[("default", &nodes)]);
    let plan = CuPlan::from_config(&config).unwrap();
    let mut swapped = mission(&plan);
    swapped.lanes[0].steps.swap(0, 1);
    let plan = with_mission(&plan, swapped);
    plan.validate(&config).unwrap();
    Fixed::new(plan.clone()).unwrap().apply(&mut config).unwrap();
    let assembled = assemble(&config, &nodes).unwrap();
    let CuExecutionUnit::Step(join) = &assembled.execution.steps[2] else {
        panic!("join step")
    };
    assert_eq!(join.input_msg_indices_types[0].culist_index, 1);
    assert_eq!(join.input_msg_indices_types[1].culist_index, 0);
    let mut reversed_phases = mission(&plan);
    reversed_phases.lanes[0].steps.swap(3, 4);
    assert!(with_mission(&plan, reversed_phases).validate(&config).is_err());
    let mut early_consumer = mission(&plan);
    early_consumer.lanes[0].steps.swap(4, 5);
    assert!(with_mission(&plan, early_consumer).validate(&config).is_err());
}

#[test]
fn fixed_materialization_preserves_explicit_anytime_interleaving() {
    let nodes = vec![
        node(|i| task(i, "a"), 1, &[]),
        node(|i| task(i, "b"), 0, &[]),
        node(|i| task(i, "sink_a"), 0, &[0]),
        node(|i| task(i, "sink_b"), 0, &[1]),
    ];
    let mut config = config_of(&[], &[("default", &nodes)]);
    let plan = CuPlan::from_config(&config).unwrap();
    let requested: Vec<String> = [
        "a|phase:base",
        "b|phase:whole",
        "sink_b|phase:whole",
        "a|phase:refine:1",
        "sink_a|phase:whole",
    ]
    .into_iter()
    .map(|key| format!("mission:default|task:{key}"))
    .collect();
    let mut changed = mission(&plan);
    changed.lanes[0].steps = requested
        .iter()
        .map(|key| changed.steps.iter().position(|step| &step.key == key).unwrap() as u32)
        .collect();
    Fixed::new(with_mission(&plan, changed)).unwrap().apply(&mut config).unwrap();
    let assembled = assemble(&config, &nodes).unwrap();
    assert_eq!(execution_keys(&assembled, "default").unwrap(), requested);
}

#[test]
fn fine_grained_fork_join_and_anytime_phases_can_use_distinct_workers() {
    let config = config_of(&[("rt", 2)], &[("default", &join_nodes())]);
    let plan = CuPlan::from_config(&config).unwrap();
    let mut changed = mission(&plan);
    // left -> base -> refine:2 -> sink on worker 0;
    // right -> refine:1 on worker 1. Explicit edges synchronize the join
    // and task state, without serializing the independent sources.
    changed.lanes = vec![worker(0, vec![0, 2, 4, 5]), worker(1, vec![1, 3])];
    with_mission(&plan, changed.clone()).validate(&config).unwrap();
    changed.dependencies.retain(|edge| !(edge.from == 2 && edge.to == 3 && edge.cycle_lag == 0));
    assert!(with_mission(&plan, changed).validate(&config).is_err());
}

#[test]
fn versions_missions_and_unknown_fields_are_checked() {
    let nodes = vec![node(|i| task(i, "src"), 0, &[])];
    let mut config = config_of(&[], &[("alpha", &nodes), ("beta", &nodes)]);
    let plan = CuPlan::from_config(&config).unwrap();
    Fixed::new(plan.clone()).unwrap().apply(&mut config).unwrap();
    assert_eq!(CuPlan::from_config(&config).unwrap(), plan);
    let mut missions = StrMap::new();
    missions.insert("beta".to_string(), plan.missions.get("beta").unwrap().clone());
    let missing = CuPlan { version: plan.version, missions };
    assert!(missing.validate(&config).is_err());
    let mut future = plan;
    future.version += 1;
    assert!(future.validate(&config).is_err());
    assert!(Fixed::new(future).is_err());
}

#[test]
fn file_round_trip_and_failed_apply_leave_config_unchanged() {
    let (mut config, plan) = pipeline();
    let (original, _) = pipeline();
    let mut invalid = mission(&plan);
    invalid.dependencies.clear();
    assert!(Fixed::new(with_mission(&plan, invalid)).unwrap().apply(&mut config).is_err());
    assert_eq!(config, original);
}

#[test]
fn exported_plans_spell_out_state_and_data_edges() {
    let plan = CuPlan::from_config(&chain()).unwrap();
    let exported = mission(&plan);
    assert_eq!(exported.copperlists_per_cycle, 1);
    assert_eq!(
        exported.steps,
        vec![
            CuPlanStep { key: "mission:default|task:src|phase:whole".to_string(), copperlist: 0 },
            CuPlanStep { key: "mission:default|task:sink|phase:whole".to_string(), copperlist: 0 },
        ]
    );
    assert_eq!(exported.lanes, vec![CuPlanLane { placement: CuPlanPlacement::Main, steps: vec![0, 1] }]);
    // Each task's state carries over to its own next call.
    assert_eq!(exported.dependencies, vec![edge(0, 0, 1), edge(0, 1, 0), edge(1, 1, 1)]);
    // The exported plan is valid, and runs the steps as they were generated.
    plan.validate(&chain()).unwrap();
    assert_eq!(
        exported.serial_keys().unwrap(),
        ["mission:default|task:src|phase:whole", "mission:default|task:sink|phase:whole"]
    );
}

#[test]
fn stateless_tasks_overlap_across_copperlists() {
    let shape_of = |stateless: bool| {
        let mut plan = canonical(&chain_nodes());
        plan.entities[1].kind =
            PlanEntityKind::Task { task_index: 1, id: "sink".to_string(), stateless };
        PlanShape::new(&plan, "default").unwrap()
    };
    let ordinary = shape_of(false);
    let stateless = shape_of(true);
    assert_eq!(ordinary.components, vec![vec![0], vec![1]]);
    assert_eq!(stateless.components, vec![vec![0]]);
    let (_, plan) = pipeline();
    let mut split = mission(&plan);
    split.lanes = vec![worker(0, vec![0, 2]), worker(1, vec![1]), worker(2, vec![3])];
    let pools = vec![ThreadPool { id: "rt".to_string(), threads: 3 }];
    assert!(split.validate(&pools, &ordinary).is_err());
    split.validate(&pools, &stateless).unwrap();
}

#[test]
fn nested_loops_are_not_exported() {
    let mut plan = canonical(&chain_nodes());
    let inner = CuExecutionLoop { steps: Vec::new() };
    plan.execution.steps.push(CuExecutionUnit::Loop(inner));
    assert_eq!(
        PlanShape::new(&plan, "default").unwrap_err().to_string(),
        "Nested loops are not supported by plan version 1"
    );
}

#[test]
fn exports_are_valid_exactly_when_the_order_runs_the_steps() {
    let nodes = join_nodes();
    let mut config = config_of(&[], &[("default", &nodes)]);
    config.missions[0].effective = build(&nodes, &[1, 0, 2, 3]);
    CuPlan::from_config(&config).unwrap().validate(&config).unwrap();
    // The sink runs before what it reads.
    let mut early = canonical(&nodes);
    early.execution.steps.rotate_right(1);
    config.missions[0].effective = Ok(early);
    assert!(CuPlan::from_config(&config).unwrap().validate(&config).is_err());
    // The effective order leaves a step out.
    let mut shorter = canonical(&nodes);
    shorter.execution.steps.pop();
    config.missions[0].effective = Ok(shorter);
    assert!(CuPlan::from_config(&config).unwrap().validate(&config).is_err());
}

#[test]
fn fixed_plans_run_as_scheduled_whatever_else_was_rebuilt() {
    let nodes = join_nodes();
    let mut config = config_of(&[], &[("default", &nodes)]);
    let plan = CuPlan::from_config(&config).unwrap();
    let mut swapped = mission(&plan);
    swapped.lanes[0].steps.swap(0, 1);
    let requested = swapped.serial_keys().unwrap();
    Fixed::new(with_mission(&plan, swapped)).unwrap().apply(&mut config).unwrap();
    let mut larger = nodes.clone();
    larger[2].refines = 3;
    larger.push(node(|i| task(i, "extra"), 0, &[]));
    let fixed = Fixed::new(config.fixed.as_ref().unwrap().clone()).unwrap();
    let assembled = fixed
        .assemble(&config, &config.missions[0], "default", |order: Vec<NodeId>| {
            let mut order = order;
            order.insert(0, 4);
            build(&larger, &order)
        })
        .unwrap();
    assert_eq!(execution_keys(&assembled, "default").unwrap(), requested);
    // A rebuilt plan without a scheduled step gives none.
    assert!(fixed
        .assemble(&config, &config.missions[0], "default", |order: Vec<NodeId>| build(&nodes, &order[..3]))
        .is_err());
}
