use copper_sched::inventory::CuInventory;
use copper_sched::keys::is_refine;
use copper_sched::keys::task_of_key;
use copper_sched::lexical::better_score;
use copper_sched::model::copperlist_period;
use copper_sched::model::CuChain;
use copper_sched::model::CuContract;
use copper_sched::model::CuProfile;
use copper_sched::model::CuSourceRate;
use copper_sched::model::Model;
use copper_sched::model::SchedulingPolicy;
use copper_sched::order::first_unit_on_a_cycle;
use copper_sched::propose::propose;
use copper_sched::propose::CuCandidate;
use copper_sched::propose::Fraction;
use copper_sched::propose::ProposeRequest;
use copper_sched::schedule::CuPlanDependency;
use copper_sched::schedule::CuPlanStep;
use copper_sched::schedule::PlanShape;
use copper_sched::schedule::ThreadPool;
use copper_sched::search::Rng;
use copper_sched::strmap::StrMap;
use copper_sched::timeline::fixpoint;
use copper_sched::timeline::Assignment;
use copper_sched::timeline::Evaluation;

const SIGNATURE: &str = "fnv1a64:0123456789abcdef";

fn key(step: &str) -> String {
    format!("mission:default|task:{step}")
}

fn edge(from: u32, to: u32, cycle_lag: u32) -> CuPlanDependency {
    CuPlanDependency { from, to, cycle_lag }
}

/// A diamond: `src` feeds `left` and `right`, which feed `sink`. `right` keeps
/// no state.
fn shape() -> PlanShape {
    PlanShape {
        keys: ["src", "left", "right", "sink"].iter().map(|task| key(&format!("{task}|phase:whole"))).collect(),
        required: vec![(0, 1), (0, 2), (1, 3), (2, 3)],
        components: vec![vec![0], vec![1], vec![3]],
    }
}

/// The occurrences of a shape in a cycle of `k` CopperLists: what is required
/// holds in each of them, and the calls of a component follow one another
/// within a CopperList, from one to the next, and into the next cycle.
fn cyclic(shape: &PlanShape, k: u32) -> CuInventory {
    let n = shape.keys.len() as u32;
    let mut steps = Vec::new();
    let mut dependencies = Vec::new();
    for copperlist in 0..k {
        for key in &shape.keys {
            steps.push(CuPlanStep { key: key.clone(), copperlist });
        }
        for &(from, to) in &shape.required {
            dependencies.push(edge(copperlist * n + from as u32, copperlist * n + to as u32, 0));
        }
    }
    for component in &shape.components {
        let calls: Vec<u32> =
            (0..k).flat_map(|cl| component.iter().map(move |&step| cl * n + step as u32)).collect();
        for pair in calls.windows(2) {
            let added = edge(pair[0], pair[1], 0);
            if !dependencies.contains(&added) {
                dependencies.push(added);
            }
        }
        dependencies.push(edge(calls[calls.len() - 1], calls[0], 1));
    }
    CuInventory { copperlists_per_cycle: k, steps, dependencies, background: Vec::new() }
}

fn contract(cpus: Vec<usize>) -> CuContract {
    CuContract {
        chains: vec![CuChain {
            id: "hot".to_string(),
            source: "src".to_string(),
            sink: "sink".to_string(),
            deadline_ms: 10,
        }],
        sources: vec![CuSourceRate { task: "src".to_string(), period_ms: 10 }],
        cpus,
        max_in_flight: 2,
        deadline_objective: true,
        worker_policy: SchedulingPolicy::Fair,
        dispatcher: None,
    }
}

fn profile_of(costs: &[(&str, u64)]) -> CuProfile {
    let mut map = StrMap::new();
    for (step, cost) in costs {
        map.insert(key(step), *cost);
    }
    CuProfile {
        config_signature: SIGNATURE.to_string(),
        window_ns: 1_000_000_000,
        copperlists: 100,
        costs: map,
    }
}

/// `left` and `right` each cost 3 ms every CopperList; the rest is free.
fn profile() -> CuProfile {
    profile_of(&[
        ("src|phase:whole", 100_000),
        ("left|phase:whole", 3_000_000),
        ("right|phase:whole", 3_000_000),
        ("sink|phase:whole", 100_000),
    ])
}

fn round6(value: f64) -> f64 {
    (value * 1e6 + 0.5) as u64 as f64 / 1e6
}

/// The deadline objective at 100 Hz: deficit, missed and tight chains, sum of
/// the chains, largest load.
fn objective(e: &Evaluation, k: u32, max_in_flight: u32) -> Vec<u64> {
    let g = 10_000_000u64;
    let period = g * u64::from(k);
    let lane_rate = |&cost: &u64| {
        if cost <= period {
            1.0
        } else {
            period as f64 / (cost + g / 2) as f64
        }
    };
    let pipelined = e.makespan as f64 / (f64::from(max_in_flight.max(k)) / f64::from(k));
    let cycle = if pipelined <= period as f64 {
        1.0
    } else {
        period as f64 / (pipelined + g as f64 / 2.0)
    };
    let rate = e.lane_cost.iter().map(lane_rate).fold(1.0f64, f64::min).min(cycle);
    let ratios: Vec<f64> = e.latency.iter().map(|&ns| ns as f64 / 10_000_000.0).collect();
    let load = e.lane_cost.iter().map(|&c| c as f64 / period as f64).fold(0.0f64, f64::max);
    [
        round6((1.0 - 0.005 - rate).max(0.0)),
        ratios.iter().filter(|&&r| r > 1.0).count() as f64,
        ratios.iter().filter(|&&r| r > 1.0 - 0.1).count() as f64,
        round6(ratios.iter().sum()),
        round6(load),
    ]
    .iter()
    .map(|tier| tier.to_bits())
    .collect()
}

fn same_candidate(a: &Vec<u64>, b: &Vec<u64>) -> bool {
    let (x, y) = (f64::from_bits(a[3]), f64::from_bits(b[3]));
    a[..3] == b[..3] && (x - y).abs() <= 0.01 * y.abs().max(1e-9)
}

struct Setup {
    shape: PlanShape,
    inventory: CuInventory,
    pools: Vec<ThreadPool>,
    contract: CuContract,
    profile: CuProfile,
}

impl Setup {
    fn new(shape: PlanShape, contract: CuContract, profile: CuProfile, k: u32) -> Self {
        let pools = vec![ThreadPool { id: "rt".to_string(), threads: contract.cpus.len() }];
        let inventory = cyclic(&shape, k);
        Setup { shape, inventory, pools, contract, profile }
    }

    fn request(&self) -> ProposeRequest<'_> {
        ProposeRequest {
            mission: "default",
            signature: SIGNATURE,
            inventory: Some(&self.inventory),
            shape: &self.shape,
            pools: &self.pools,
            pool: "rt",
            contract: &self.contract,
            profile: &self.profile,
            rate_target_hz: Some(100),
            candidates: 3,
            seed: 7,
            moves: 300,
            restarts: 3,
        }
    }

    fn propose(&self) -> Result<Vec<CuCandidate>, String> {
        let k = self.inventory.copperlists_per_cycle;
        let in_flight = self.contract.max_in_flight;
        propose(&self.request(), |e| objective(e, k, in_flight), same_candidate).map_err(|e| e.to_string())
    }

    fn validate(&self, candidate: &CuCandidate) {
        candidate.plan.on_pool("rt").validate(&self.pools, &self.shape).unwrap();
    }
}

fn latency(candidate: &CuCandidate) -> u64 {
    candidate.prediction.chains.get("hot").unwrap().latency_ns
}

#[test]
fn parallel_branches_land_on_two_cpus_and_shorten_the_chain() {
    let one = Setup::new(shape(), contract(vec![0]), profile(), 1);
    let serial = one.propose().unwrap();
    let two = Setup::new(shape(), contract(vec![0, 1]), profile(), 1);
    let parallel = two.propose().unwrap();
    assert_eq!(latency(&serial[0]), 6_200_000);
    assert_eq!(latency(&parallel[0]), 3_200_000);
    assert_eq!(parallel[0].plan.workers.len(), 2);
    for (setup, list) in [(&one, &serial), (&two, &parallel)] {
        for candidate in list {
            setup.validate(candidate);
            let rate = candidate.prediction.sources.get("src").unwrap();
            assert_eq!(rate.num as f64 / rate.den as f64, 1.0);
        }
    }
    // Same request, same answer.
    let again = two.propose().unwrap();
    assert_eq!(again.len(), parallel.len());
    for (a, b) in again.iter().zip(&parallel) {
        assert_eq!(a.plan, b.plan);
        assert_eq!(a.score, b.score);
        assert_eq!(a.prediction.chains, b.prediction.chains);
        assert_eq!(a.prediction.workers, b.prediction.workers);
        assert_eq!(a.prediction.sources, b.prediction.sources);
    }
}

#[test]
fn two_copperlists_per_cycle_let_the_stateless_task_overlap() {
    let setup = Setup::new(shape(), contract(vec![0, 1, 2]), profile(), 2);
    let candidates = setup.propose().unwrap();
    let best = &candidates[0];
    assert_eq!((best.plan.inventory.copperlists_per_cycle, best.plan.max_in_flight), (2, 2));
    setup.validate(best);
    // Both CopperLists of the cycle fit in one 20 ms cycle with three CPUs.
    assert!(latency(best) <= 6_200_000);
    for i in 0..best.prediction.workers.len() {
        let load = best.prediction.workers.value_at(i).load;
        assert!((load.num as f64 / load.den as f64) < 1.0);
    }
}

#[test]
fn anytime_phases_stay_together_on_one_worker() {
    let phases = ["src|phase:whole", "refiner|phase:base", "refiner|phase:refine:1", "refiner|phase:refine:2", "sink|phase:whole"];
    let shape = PlanShape {
        keys: phases.iter().map(|phase| key(phase)).collect(),
        required: vec![(0, 1), (1, 2), (2, 3), (3, 4)],
        components: vec![vec![0], vec![1, 2, 3], vec![4]],
    };
    let profile = profile_of(&[
        ("src|phase:whole", 100_000),
        ("refiner|phase:base", 3_000_000),
        ("sink|phase:whole", 100_000),
    ]);
    let mut contract = contract(vec![0, 1]);
    contract.max_in_flight = 1;
    let setup = Setup::new(shape, contract, profile, 1);
    let candidates = setup.propose().unwrap();
    for candidate in &candidates {
        let refine = |key: &str| {
            candidate.plan.inventory.steps.iter().position(|s| s.key.contains(key)).unwrap() as u32
        };
        let (base, one, two) = (refine("phase:base"), refine("refine:1"), refine("refine:2"));
        let worker = candidate.plan.workers.iter().find(|w| w.steps.contains(&base)).unwrap();
        let at = |step| worker.steps.iter().position(|&s| s == step).unwrap();
        assert_eq!((at(one), at(two)), (at(base) + 1, at(base) + 2));
        setup.validate(candidate);
    }
    assert_eq!(latency(&candidates[0]), 3_200_000);
}

#[test]
fn a_missing_measurement_is_an_error() {
    let partial = profile_of(&[
        ("src|phase:whole", 100_000),
        ("right|phase:whole", 3_000_000),
        ("sink|phase:whole", 100_000),
    ]);
    let setup = Setup::new(shape(), contract(vec![0]), partial, 1);
    let told = setup.propose().unwrap_err();
    assert!(told.contains("mission:default|task:left|phase:whole"), "{told}");
}

#[test]
fn refusals_say_why() {
    let setup = Setup::new(shape(), contract(vec![0]), profile(), 1);
    let told = |request: ProposeRequest<'_>| {
        propose(&request, |e| objective(e, 1, 2), same_candidate).unwrap_err().to_string()
    };
    assert_eq!(
        told(ProposeRequest { signature: "other", ..setup.request() }),
        format!("The profile was recorded on another graph ({SIGNATURE}); this config's mission 'default' is other")
    );
    assert_eq!(told(ProposeRequest { inventory: None, ..setup.request() }), "Unknown mission 'default'");
    assert_eq!(
        told(ProposeRequest { candidates: 0, ..setup.request() }),
        "No valid plan was found on this contract's CPUs"
    );
    let missing = vec![];
    assert!(told(ProposeRequest { pools: &missing, ..setup.request() }).contains("pool"));
    let mut chains = contract(vec![0]);
    chains.chains[0].sink = "nowhere".to_string();
    assert_eq!(
        told(ProposeRequest { contract: &chains, ..setup.request() }),
        "Chain 'hot' names a task without a whole-phase step"
    );
}

#[test]
fn phases_that_cannot_run_together_are_refused() {
    // `other` runs between the base and its refinement.
    let shape = PlanShape {
        keys: ["a|phase:base", "other|phase:whole", "a|phase:refine:1"].iter().map(|phase| key(phase)).collect(),
        required: vec![(0, 1), (1, 2), (0, 2)],
        components: vec![vec![0, 2], vec![1]],
    };
    let inventory = cyclic(&shape, 1);
    let profile = profile_of(&[("a|phase:base", 5), ("other|phase:whole", 7)]);
    let mut free = contract(vec![0]);
    free.chains.clear();
    free.sources.clear();
    let told = Model::new(inventory, &free, &profile, None).unwrap_err().to_string();
    assert!(told.starts_with("Step 'mission:default|task:a|phase:base' and its refinements"), "{told}");
    assert_eq!(first_unit_on_a_cycle(&vec![vec![1], vec![0], vec![]]), Some(0));
    assert_eq!(first_unit_on_a_cycle(&vec![vec![], vec![0], vec![1]]), None);
    // The first unit lies between two cycles, on neither.
    assert_eq!(first_unit_on_a_cycle(&vec![vec![1], vec![2], vec![1], vec![0, 4], vec![3]]), Some(1));
}

fn diamond(cpus: Vec<usize>) -> Model {
    Model::new(cyclic(&shape(), 1), &contract(cpus), &profile(), Some(100)).unwrap()
}

#[test]
fn timelines_follow_lanes_and_dependencies() {
    let model = diamond(vec![0, 1]);
    assert_eq!((model.copperlist_ns, model.cycle_ns), (10_000_000, 10_000_000));
    let split = Assignment { lanes: vec![vec![0, 1, 3], vec![2]] };
    assert!(model.is_valid(&split));
    let e = model.evaluate(&split).unwrap();
    assert_eq!(e.starts, [0, 100_000, 100_000, 3_100_000]);
    assert_eq!(e.ends, [100_000, 3_100_000, 3_100_000, 3_200_000]);
    assert_eq!(e.lane_cost, [3_200_000, 3_000_000]);
    assert_eq!((e.makespan, e.latency.as_slice()), (3_200_000, [3_200_000].as_slice()));
    let backwards = Assignment { lanes: vec![vec![3, 0, 1], vec![2]] };
    assert!(!model.is_valid(&backwards));
    assert!(model.evaluate(&backwards).is_none());
    assert_eq!(model.contract_deadline(0), 10);
}

#[test]
fn overloaded_workers_deliver_a_fraction() {
    let heavy = profile_of(&[
        ("src|phase:whole", 0),
        ("left|phase:whole", 20_000_000),
        ("right|phase:whole", 1),
        ("sink|phase:whole", 0),
    ]);
    let model = Model::new(cyclic(&shape(), 1), &contract(vec![3, 5]), &heavy, Some(100)).unwrap();
    let p = model.prediction(&Assignment { lanes: vec![vec![0, 1, 3], vec![2]] }, &contract(vec![3, 5]));
    let loaded = p.workers.get("cpu3").unwrap();
    assert_eq!((loaded.cpu, loaded.load), (3, Fraction { num: 20_000_000, den: 10_000_000 }));
    // 10 ms period over 20 ms plus half a CopperList.
    assert_eq!(loaded.rate, Fraction { num: 10_000_000, den: 25_000_000 });
    assert_eq!(loaded.response_ns, Some(20_000_000));
    assert_eq!(p.sources.get("src"), Some(&Fraction { num: 10_000_000, den: 25_000_000 }));
    assert_eq!(p.chains.get("hot").unwrap().deadline_ns, 10_000_000);
}

#[test]
fn the_slowest_lane_throttles_every_source() {
    let heavy = profile_of(&[
        ("src|phase:whole", 1),
        ("left|phase:whole", 1),
        ("right|phase:whole", 20_000_000),
        ("sink|phase:whole", 1),
    ]);
    let offer = CuContract { max_in_flight: 8, ..contract(vec![3, 5]) };
    let model = Model::new(cyclic(&shape(), 1), &offer, &heavy, Some(100)).unwrap();
    // The source runs on the lane that keeps up.
    let p = model.prediction(&Assignment { lanes: vec![vec![0, 1, 3], vec![2]] }, &offer);
    assert_eq!(p.workers.get("cpu3").unwrap().rate, Fraction { num: 1, den: 1 });
    assert_eq!(p.workers.get("cpu5").unwrap().rate, Fraction { num: 10_000_000, den: 25_000_000 });
    assert_eq!(p.sources.get("src"), Some(&Fraction { num: 10_000_000, den: 25_000_000 }));
}

#[test]
fn the_critical_path_throttles_every_source() {
    let spread = profile_of(&[
        ("src|phase:whole", 0),
        ("left|phase:whole", 9_000_000),
        ("right|phase:whole", 0),
        ("sink|phase:whole", 9_000_000),
    ]);
    let offer = CuContract { max_in_flight: 1, ..contract(vec![3, 5]) };
    let model = Model::new(cyclic(&shape(), 1), &offer, &spread, Some(100)).unwrap();
    let p = model.prediction(&Assignment { lanes: vec![vec![0, 1, 2], vec![3]] }, &offer);
    assert_eq!(p.workers.get("cpu3").unwrap().rate, Fraction { num: 1, den: 1 });
    assert_eq!(p.workers.get("cpu5").unwrap().rate, Fraction { num: 1, den: 1 });
    // One cycle in flight: 10 ms of period over 18 ms of path and half a CopperList.
    assert_eq!(p.sources.get("src"), Some(&Fraction { num: 20_000_000, den: 46_000_000 }));
    // Two cycles in flight hide the path.
    let offer = CuContract { max_in_flight: 2, ..contract(vec![3, 5]) };
    let model = Model::new(cyclic(&shape(), 1), &offer, &spread, Some(100)).unwrap();
    let p = model.prediction(&Assignment { lanes: vec![vec![0, 1, 2], vec![3]] }, &offer);
    assert_eq!(p.sources.get("src"), Some(&Fraction { num: 1, den: 1 }));
}

#[test]
fn unbounded_responses_deliver_nothing() {
    let hopeless = profile_of(&[
        ("src|phase:whole", 0),
        ("left|phase:whole", 200_000_001),
        ("right|phase:whole", 1),
        ("sink|phase:whole", 0),
    ]);
    let model = Model::new(cyclic(&shape(), 1), &contract(vec![3, 5]), &hopeless, Some(100)).unwrap();
    let lanes = Assignment { lanes: vec![vec![0, 1, 3], vec![2]] };
    assert_eq!(model.evaluate(&lanes).unwrap().response, [None, Some(1)]);
    let p = model.prediction(&lanes, &contract(vec![3, 5]));
    let loaded = p.workers.get("cpu3").unwrap();
    assert_eq!((loaded.response_ns, loaded.rate), (None, Fraction { num: 0, den: 1 }));
    assert_eq!(p.sources.get("src"), Some(&Fraction { num: 0, den: 1 }));
}

#[test]
fn response_times_are_fixed_points() {
    assert_eq!(fixpoint(5, &vec![], 1, 0), None);
    assert_eq!(fixpoint(10, &vec![], 1, 5), None);
    assert_eq!(fixpoint(5, &vec![], 1, 5), Some(5));
    // x = 2 + ceil((x + 1) / 10) * 3
    assert_eq!(fixpoint(2, &vec![(3, 10)], 1, 100), Some(5));
    assert_eq!(fixpoint(2, &vec![(10, 10)], 0, 100), None);
    // Sums past the number range are past any cap.
    assert_eq!(fixpoint(1, &vec![(u64::MAX, 1)], u64::MAX, u64::MAX), None);
    assert_eq!(fixpoint(1, &vec![(0, 1)], u64::MAX, u64::MAX), Some(1));
}

#[test]
fn the_search_draws_from_a_fixed_sequence() {
    let mut rng = Rng { state: 0 };
    assert_eq!(rng.next(), 0xe220_a839_7b1d_cdaf);
    assert_eq!(rng.next(), 0x6e78_9e6a_a1b9_65f4);
    assert_eq!(Rng { state: 0 }.below(10), (0xe220_a839_7b1d_cdafu64 % 10) as usize);
    assert_eq!(Rng { state: 0 }.below(0), 0);
}

#[test]
fn searches_rank_the_best_assignment_first() {
    let model = diamond(vec![0, 1]);
    let start = model.start_plan();
    assert!(model.is_valid(&start));
    let ranked = model.search(7, 300, 3, |e| objective(e, 1, 2));
    assert!(ranked.len() > 1);
    for pair in ranked.windows(2) {
        assert!(!better_score(&pair[1].0, &pair[0].0));
    }
    assert_eq!(model.evaluate(&ranked[0].1).unwrap().makespan, 3_200_000);
    let again = model.search(7, 300, 3, |e| objective(e, 1, 2));
    assert_eq!(again, ranked);
}

#[test]
fn keys_name_their_task_and_phase() {
    assert!(is_refine("mission:m|task:a|phase:refine:1"));
    assert!(!is_refine("mission:m|task:a|phase:base"));
    let task: String = task_of_key("mission:m|task:a|phase:base").unwrap().into_iter().collect();
    assert_eq!(task, "a");
    assert_eq!(task_of_key("mission:m|bridge:radio:rx:a|phase:whole"), None);
}

#[test]
fn periods_come_from_the_rate_or_the_recording() {
    let mut measured = profile();
    assert_eq!(copperlist_period(Some(100), &measured), 10_000_000);
    assert_eq!(copperlist_period(Some(0), &measured), 1_000_000_000);
    assert_eq!(copperlist_period(None, &measured), 10_000_000);
    measured.copperlists = 0;
    assert_eq!(copperlist_period(None, &measured), 1_000_000_000);
    measured.window_ns = 0;
    assert_eq!(copperlist_period(None, &measured), 1);
}
