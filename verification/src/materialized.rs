//! A fixed schedule is enforced exactly: the process plan made from a valid
//! serial schedule runs its steps in the order that the schedule asks for. An
//! exported schedule is such a schedule of its own configuration.

use crate::assembled::lemma_refinement_key;
use crate::assembled::AssembledPlan;
use crate::assembled::CuExecutionUnit;
use crate::error::CuResult;
use crate::fixed::arrange_failure;
use crate::fixed::export_failure;
use crate::fixed::export_mission_failure;
use crate::fixed::export_missions_failure;
use crate::fixed::exports;
use crate::fixed::is_arranged;
use crate::fixed::last_of_id;
use crate::fixed::plan_keys;
use crate::fixed::request_failure;
use crate::fixed::requested_keys;
use crate::fixed::step_index;
use crate::fixed::CuConfig;
use crate::fixed::CuPlan;
use crate::fixed::Mission;
use crate::fixed::PlanFile;
use crate::fixed::PLAN_VERSION;
use crate::graph::precedence_follows_ranks;
use crate::graph::precedes;
use crate::graph::ranks;
use crate::schedule::index_map;
use crate::schedule::lemma_index_map;
use crate::schedule::CuPlanDependency;
use crate::schedule::PlanModel;
use crate::schedule::ShapeModel;
use crate::schedule::ThreadPool;
use crate::shape::components_are_instances;
use crate::shape::same_instance;
use crate::shape::shape_exists;
use crate::strmap::ascending;
use crate::strmap::lemma_ascending_distinct;
use crate::strmap::lemma_same_keys;
use crate::validity::before;
use crate::validity::call;
use crate::validity::exclusive;
use crate::validity::has_edge;
use crate::validity::known_dependencies;
use crate::validity::lane_follows;
use crate::validity::plan_edges;
use crate::validity::points_forward;
use crate::validity::runs_in;
use crate::validity::serial_plan_is_valid;
use crate::validity::serial_plan_keeps_order;
use crate::validity::valid;
use crate::validity::validation_accepts_exactly_the_valid_plans;
use vstd::prelude::*;
use vstd::relations::injective_on;
use vstd::set_lib::lemma_len_subset;
use vstd::set_lib::lemma_map_size;

verus! {

// ---------------------------------------------------------------------------
// Valid serial schedules
// ---------------------------------------------------------------------------

/// Later entries of a lane have greater ranks.
proof fn lemma_lane_ranks(p: PlanModel, rank: Seq<nat>, x: int, y: int)
    requires
        ranks(p.graph(), rank),
        known_dependencies(p),
        forall|a: int, b: int, index: int| #[trigger] p.lists(a, b, index) ==> index < p.steps.len(),
        p.lanes.len() == 1,
        0 <= x < y < p.lanes[0].steps.len(),
    ensures
        rank[p.lanes[0].steps[x] as int] < rank[p.lanes[0].steps[y] as int],
    decreases y - x,
{
    let from = p.lanes[0].steps[y - 1] as int;
    let to = p.lanes[0].steps[y] as int;
    assert(p.lists(0, y - 1, from));
    assert(lane_follows(p, 0, y - 1, from, to));
    plan_edges(p, from, to, 0);
    assert(has_edge(p.graph(), from, to, 0));
    let g = p.graph();
    let k = choose|k: int| 0 <= k < g[from].len() && (#[trigger] g[from][k]).0 == to && g[from][k].1 == 0;
    assert(rank[from] < rank[g[from][k].0 as int]);
    if x < y - 1 {
        lemma_lane_ranks(p, rank, x, y - 1);
    }
}

proof fn lemma_requested_distinct(p: PlanModel, pools: Seq<ThreadPool>, shape: ShapeModel)
    requires
        valid(p, pools, shape),
        p.serial_failure() is None,
    ensures
        requested_keys(p).no_duplicates(),
        forall|i: int| 0 <= i < requested_keys(p).len() ==> shape.keys.contains(#[trigger] requested_keys(p)[i]),
        forall|k: int| 0 <= k < shape.keys.len() ==> requested_keys(p).contains(#[trigger] shape.keys[k]),
{
    let order = p.lanes[0].steps;
    let keys = requested_keys(p);
    assert forall|i: int, j: int| 0 <= i < keys.len() && 0 <= j < keys.len() && i != j implies keys[i] != keys[j] by {
        assert(p.lists(0, i, order[i] as int));
        assert(p.lists(0, j, order[j] as int));
        if order[i] == order[j] {
            assert(p.lists(0, j, order[i] as int));
        }
        let (a, b) = (order[i] as int, order[j] as int);
        assert(p.steps[a].copperlist == 0 && p.steps[b].copperlist == 0);
        if a < b {
            assert(p.steps[a].key != p.steps[b].key);
        } else {
            assert(p.steps[b].key != p.steps[a].key);
        }
    }
    assert forall|i: int| 0 <= i < keys.len() implies shape.keys.contains(#[trigger] keys[i]) by {
        assert(p.lists(0, i, order[i] as int));
        assert(shape.keys.contains(p.steps[order[i] as int].key));
    }
    assert forall|k: int| 0 <= k < shape.keys.len() implies keys.contains(#[trigger] shape.keys[k]) by {
        let i = p.occurrence(shape.keys[k], 0);
        assert(p.is_step(i, shape.keys[k], 0));
        assert(p.listed(i));
        let (a, b) = choose|a: int, b: int| #[trigger] p.lists(a, b, i);
        assert(keys[b] == shape.keys[k]);
    }
}

proof fn lemma_same_size(keys: Seq<Seq<char>>, others: Seq<Seq<char>>)
    requires
        keys.no_duplicates(),
        forall|i: int| 0 <= i < keys.len() ==> others.contains(#[trigger] keys[i]),
        forall|k: int| 0 <= k < others.len() ==> keys.contains(#[trigger] others[k]),
    ensures
        keys.len() <= others.len(),
        others.len() <= keys.len() ==> others.no_duplicates(),
{
    assert(keys.to_set() =~= others.to_set()) by {
        assert forall|t: Seq<char>| keys.to_set().contains(t) <==> others.to_set().contains(t) by {
            if keys.contains(t) {
                let i = keys.index_of(t);
                assert(others.contains(keys[i]));
            }
            if others.contains(t) {
                let k = others.index_of(t);
                assert(keys.contains(others[k]));
            }
        }
    }
    keys.unique_seq_to_set();
    others.lemma_cardinality_of_set();
    if others.len() <= keys.len() {
        others.lemma_no_dup_set_cardinality();
    }
}

/// A valid serial schedule runs every step once, and required pairs of steps in
/// their order.
pub proof fn valid_serial_plan_runs_in_order(p: PlanModel, pools: Seq<ThreadPool>, shape: ShapeModel)
    requires
        shape.wf(),
        valid(p, pools, shape),
        p.serial_failure() is None,
    ensures
        runs_in(shape, requested_keys(p)),
{
    let order = p.lanes[0].steps;
    let keys = requested_keys(p);
    lemma_requested_distinct(p, pools, shape);
    lemma_same_size(keys, shape.keys);
    // The lane lists every entry of the inventory, so it is no shorter.
    let n = shape.keys.len();
    assert(p.steps.len() == n) by (nonlinear_arith)
        requires
            p.steps.len() == n * p.copperlists_per_cycle as nat,
            p.copperlists_per_cycle == 1,
    ;
    let places = Seq::new(n, |i: int| p.steps[i].key);
    assert(places.no_duplicates()) by {
        assert forall|i: int, j: int| 0 <= i < j < n implies places[i] != places[j] by {
            assert(p.steps[i].copperlist == 0 && p.steps[j].copperlist == 0);
        }
    }
    assert forall|i: int| 0 <= i < n implies keys.contains(#[trigger] places[i]) by {
        assert(p.listed(i));
        let (a, b) = choose|a: int, b: int| #[trigger] p.lists(a, b, i);
        assert(keys[b] == places[i]);
    }
    assert forall|i: int| 0 <= i < keys.len() implies places.contains(#[trigger] keys[i]) by {
        assert(p.lists(0, i, order[i] as int));
        assert(places[order[i] as int] == keys[i]);
    }
    lemma_same_size(places, keys);
    let g = p.graph();
    let rank = choose|rank: Seq<nat>| #[trigger] ranks(g, rank);
    assert forall|r: int| 0 <= r < shape.required.len() implies keys.index_of(
        shape.keys[(#[trigger] shape.required[r]).0 as int],
    ) < keys.index_of(shape.keys[shape.required[r].1 as int]) by {
        let first = shape.keys[shape.required[r].0 as int];
        let second = shape.keys[shape.required[r].1 as int];
        let i = p.occurrence(first, 0);
        let j = p.occurrence(second, 0);
        assert(p.is_step(i, first, 0));
        assert(p.is_step(j, second, 0));
        assert(before(p, i, j));
        precedence_follows_ranks(g, rank, i, j);
        assert(p.listed(i) && p.listed(j));
        let (a, x) = choose|a: int, b: int| #[trigger] p.lists(a, b, i);
        let (b, y) = choose|a: int, b: int| #[trigger] p.lists(a, b, j);
        assert(keys[x] == first && keys[y] == second);
        assert(keys.index_of(first) == x && keys.index_of(second) == y);
        if y < x {
            lemma_lane_ranks(p, rank, y, x);
        }
    }
}

/// The serial schedule of `own` is valid for the steps of `shape` exactly when
/// they can run in the order of `own`, and `own` runs in its order.
pub proof fn serial_plan_validity(p: PlanModel, own: ShapeModel, shape: ShapeModel, pools: Seq<ThreadPool>)
    requires
        own.wf(),
        shape.wf(),
        own.is_serial(p),
        own.keys.len() <= 0x1_0000_0000,
        own.keys.len() <= usize::MAX,
        shape.keys.len() <= usize::MAX,
    ensures
        p.failure(pools, shape) is None <==> own.keys.len() > 0 && points_forward(own) && runs_in(shape, own.keys),
{
    if own.keys.len() > 0 && points_forward(own) && runs_in(shape, own.keys) {
        serial_plan_is_valid(p, own, shape, pools);
    }
    if p.failure(pools, shape) is None {
        validation_accepts_exactly_the_valid_plans(p, pools, shape);
        serial_plan_keeps_order(p, own);
        valid_serial_plan_runs_in_order(p, pools, shape);
        assert(requested_keys(p) =~= own.keys);
        assert(p.lanes[0].steps.len() > 0);
        let g = p.graph();
        let rank = choose|rank: Seq<nat>| #[trigger] ranks(g, rank);
        assert forall|r: int| 0 <= r < own.required.len() implies (#[trigger] own.required[r]).0 < own.required[r].1 by {
            let (a, b) = own.required[r];
            let d = CuPlanDependency { from: a as u32, to: b as u32, cycle_lag: 0 };
            assert(own.required.contains((d.from as usize, d.to as usize)));
            assert(own.spells_out(d));
            assert(p.dependencies.contains(d));
            let at = p.dependencies.index_of(d);
            assert(p.dependencies[at] == d);
            plan_edges(p, a as int, b as int, 0);
            assert(has_edge(g, a as int, b as int, 0));
            let k = choose|k: int| 0 <= k < g[a as int].len() && (#[trigger] g[a as int][k]).0 == b && g[a as int][k].1 == 0;
            assert(rank[a as int] < rank[g[a as int][k].0 as int]);
            if b < a {
                lemma_lane_ranks(p, rank, b as int, a as int);
            }
        }
    }
}

/// Whether a mission's effective order runs the canonical steps, each once and
/// after what it requires.
pub open spec fn runs_canonical_steps(mission: Mission) -> bool {
    &&& mission.effective matches Ok(effective)
    &&& mission.canonical matches Ok(canonical)
    &&& canonical.shape_failure() is None
    &&& effective.execution.steps@.len() > 0
    &&& points_forward(effective.shape(mission.id@))
    &&& runs_in(canonical.shape(mission.id@), effective.shape(mission.id@).keys)
}

proof fn lemma_exported_mission(config: CuConfig, plan: CuPlan, i: int)
    requires
        0 <= i < config.missions@.len(),
        export_missions_failure(config, config.missions@.len()) is None,
        plan.missions.values().len() == plan.missions.keys().len(),
        plan.missions.keys() == config.ids(),
        config.ids().no_duplicates(),
        exports(config, plan.missions.map(), config.missions@.len() as int),
    ensures
        plan@.mission_failure(config, i) is None <==> runs_canonical_steps(config.missions@[i]),
{
    let mission = config.missions@[i];
    let id = mission.id@;
    let n = config.missions@.len();
    lemma_mission_exported(config, i, n);
    assert(config.ids()[i] == id);
    assert(last_of_id(config, i, n as int));
    let effective = mission.effective->Ok_0;
    let keys = plan.missions.keys();
    assert(keys[i] == id);
    assert(keys.contains(id));
    assert(plan.missions.map().dom().contains(id));
    let at = keys.index_of(id);
    assert(keys[at] == keys[i]);
    assert(plan.missions.map()[id] == plan.missions.values()[i]);
    assert(effective.execution.steps@.len() == effective.execution.steps.len());
    shape_exists(effective, id);
    assert(effective.shape(id).keys.len() == effective.execution.steps@.len());
    if mission.canonical is Ok && mission.canonical->Ok_0.shape_failure() is None {
        let canonical = mission.canonical->Ok_0;
        assert(canonical.execution.steps@.len() == canonical.execution.steps.len());
        shape_exists(canonical, id);
        assert(canonical.shape(id).keys.len() == canonical.execution.steps@.len());
        serial_plan_validity(plan@.missions[i], effective.shape(id), canonical.shape(id), config.thread_pools@);
    }
}

proof fn lemma_mission_exported(config: CuConfig, i: int, n: nat)
    requires
        export_missions_failure(config, n) is None,
        0 <= i < n,
    ensures
        export_mission_failure(config.missions@[i]) is None,
    decreases n,
{
    if i + 1 < n {
        lemma_mission_exported(config, i, (n - 1) as nat);
    }
}

proof fn lemma_missions_pass(plan: PlanFile, config: CuConfig, n: nat)
    ensures
        plan.missions_failure(config, n) is None <==> forall|i: int|
            0 <= i < n ==> (#[trigger] plan.mission_failure(config, i)) is None,
    decreases n,
{
    if n > 0 {
        lemma_missions_pass(plan, config, (n - 1) as nat);
        if plan.missions_failure(config, n) is Some && plan.missions_failure(config, (n - 1) as nat) is None {
            assert(plan.mission_failure(config, n - 1) is Some);
        }
    }
}

/// An exported plan is valid for the configuration it came from, exactly when
/// each mission's effective order runs the canonical steps.
pub proof fn exported_plan_is_valid(config: CuConfig, plan: CuPlan)
    requires
        ascending(config.ids()),
        config.fixed is None,
        export_failure(config) is None,
        plan.version == PLAN_VERSION,
        ascending(plan.missions.keys()),
        plan.missions.values().len() == plan.missions.keys().len(),
        exports(config, plan.missions.map(), config.missions@.len() as int),
    ensures
        plan@.failure(config) is None <==> forall|i: int|
            0 <= i < config.missions@.len() ==> runs_canonical_steps(#[trigger] config.missions@[i]),
{
    let keys = plan.missions.keys();
    let n = config.missions@.len();
    assert(config.ids().take(n as int) =~= config.ids());
    assert forall|id: Seq<char>| #[trigger] keys.contains(id) <==> config.ids().contains(id) by {
        assert(plan.missions.map().dom().contains(id) <==> keys.contains(id));
    }
    lemma_same_keys(keys, config.ids());
    lemma_ascending_distinct(config.ids());
    lemma_missions_pass(plan@, config, n);
    assert forall|i: int| 0 <= i < n implies ((#[trigger] plan@.mission_failure(config, i)) is None
        <==> runs_canonical_steps(config.missions@[i])) by {
        lemma_exported_mission(config, plan, i);
    }
    if plan@.failure(config) is None {
        assert forall|i: int| 0 <= i < n implies runs_canonical_steps(#[trigger] config.missions@[i]) by {
            assert(plan@.mission_failure(config, i) is None);
        }
    }
}

// ---------------------------------------------------------------------------
// The plan that runs a schedule
// ---------------------------------------------------------------------------

/// Whether step `i` refines the result of `node`.
spec fn is_refinement(plan: AssembledPlan, node: int, i: int) -> bool {
    plan.execution.steps@[i] matches CuExecutionUnit::Step(step) && step.node_id == node && step.phase is AnytimeRefine
}

/// The refinements of `node` among the first `n` steps.
spec fn refinements(plan: AssembledPlan, node: int, n: nat) -> Set<int> {
    Set::new(|i: int| 0 <= i < n && is_refinement(plan, node, i))
}

proof fn lemma_refinements(plan: AssembledPlan, node: int, n: nat)
    requires
        n <= plan.execution.steps@.len(),
    ensures
        refinements(plan, node, n).finite(),
        refinements(plan, node, n).len() == plan.refines(node, n),
    decreases n,
{
    if n == 0 {
        assert(refinements(plan, node, 0) =~= Set::<int>::empty());
    } else {
        let rest = refinements(plan, node, (n - 1) as nat);
        lemma_refinements(plan, node, (n - 1) as nat);
        if is_refinement(plan, node, n - 1) {
            assert(refinements(plan, node, n) =~= rest.insert(n - 1));
        } else {
            assert(refinements(plan, node, n) =~= rest);
        }
    }
}

/// Steps of one node run in their order.
proof fn lemma_phases_in_order(plan: AssembledPlan, mission: Seq<char>, shape: ShapeModel, keys: Seq<Seq<char>>, a: int, b: int)
    requires
        plan.has_shape(mission, shape),
        runs_in(shape, keys),
        plan.execution.steps@.len() <= usize::MAX,
        0 <= a < b < plan.execution.steps@.len(),
        plan.step(a).node_id == plan.step(b).node_id,
    ensures
        keys.index_of(plan.key(mission, a)) < keys.index_of(plan.key(mission, b)),
    decreases b - a,
{
    if exists|c: int| a < c < b && #[trigger] plan.step(c).node_id == plan.step(a).node_id {
        let c = choose|c: int| a < c < b && #[trigger] plan.step(c).node_id == plan.step(a).node_id;
        lemma_phases_in_order(plan, mission, shape, keys, a, c);
        lemma_phases_in_order(plan, mission, shape, keys, c, b);
    } else {
        assert(plan.phases_follow(a, b));
        let pair = (a as usize, b as usize);
        assert(shape.required.contains(pair));
        let r = shape.required.index_of(pair);
        assert(shape.required[r] == pair);
        assert(shape.keys[a] == plan.key(mission, a) && shape.keys[b] == plan.key(mission, b));
    }
}

/// Whether the steps of `plan` can be put in the order of `keys`: every key is
/// that of one step, and before a refinement run those of its node that have
/// lower numbers.
spec fn ordered_by(plan: AssembledPlan, mission: Seq<char>, keys: Seq<Seq<char>>) -> bool {
    &&& keys.no_duplicates()
    &&& plan_keys(plan, mission).no_duplicates()
    &&& forall|k: int| 0 <= k < keys.len() ==> plan_keys(plan, mission).contains(#[trigger] keys[k])
    &&& forall|node: int, a: int, b: int|
        0 <= a < b < plan.execution.steps@.len() && #[trigger] is_refinement(plan, node, a) && #[trigger] is_refinement(
            plan,
            node,
            b,
        ) && keys.contains(plan.key(mission, b)) ==> keys.contains(plan.key(mission, a)) && keys.index_of(
            plan.key(mission, a),
        ) < keys.index_of(plan.key(mission, b))
}

/// Every requested key is that of one step.
proof fn lemma_step_of_key(plan: AssembledPlan, mission: Seq<char>, keys: Seq<Seq<char>>, k: int)
    requires
        ordered_by(plan, mission, keys),
        plan.execution.steps@.len() <= usize::MAX,
        0 <= k < keys.len(),
    ensures
        0 <= step_index(plan, mission, keys[k]) < plan.execution.steps@.len(),
        plan.key(mission, step_index(plan, mission, keys[k])) == keys[k],
{
    let names = plan_keys(plan, mission);
    lemma_index_map(names, names.len());
    assert(names.contains(keys[k]));
    let i = names.index_of(keys[k]);
    assert(index_map(names, names.len()).dom().contains(names[i]));
    assert(names[step_index(plan, mission, keys[k])] == keys[k]);
}

/// Whether the steps of `arranged` are those of `plan` in the order of `keys`.
pub open spec fn follows(plan: AssembledPlan, mission: Seq<char>, keys: Seq<Seq<char>>, arranged: AssembledPlan) -> bool {
    &&& arranged.entities == plan.entities
    &&& arranged.execution.steps@ == Seq::new(
        keys.len(),
        |k: int| plan.execution.steps@[step_index(plan, mission, keys[k])],
    )
}

/// A refinement keeps its number.
proof fn lemma_same_number(plan: AssembledPlan, mission: Seq<char>, keys: Seq<Seq<char>>, arranged: AssembledPlan, k: int)
    requires
        plan.flat(),
        ordered_by(plan, mission, keys),
        plan.execution.steps@.len() <= usize::MAX,
        follows(plan, mission, keys, arranged),
        0 <= k < keys.len(),
        arranged.step(k).phase is AnytimeRefine,
    ensures
        ({
            let at = step_index(plan, mission, keys[k]);
            let node = plan.step(at).node_id as int;
            arranged.refines(node, (k + 1) as nat) == plan.refines(node, (at + 1) as nat)
        }),
{
    lemma_step_of_key(plan, mission, keys, k);
    let at = step_index(plan, mission, keys[k]);
    let node = plan.step(at).node_id as int;
    assert(plan.execution.steps@[at] is Step);
    assert(is_refinement(plan, node, at));
    let names = plan_keys(plan, mission);
    let x = refinements(arranged, node, k as nat);
    let y = refinements(plan, node, at as nat);
    let f = |i: int| step_index(plan, mission, keys[i]);
    lemma_refinements(arranged, node, k as nat);
    lemma_refinements(plan, node, at as nat);
    assert forall|i: int, j: int| x.contains(i) && x.contains(j) && #[trigger] f(i) == #[trigger] f(j) implies i == j by {
        lemma_step_of_key(plan, mission, keys, i);
        lemma_step_of_key(plan, mission, keys, j);
        assert(keys[i] == keys[j]);
    }
    assert forall|q: int| x.map(f).contains(q) <==> y.contains(q) by {
        if x.map(f).contains(q) {
            let i = choose|i: int| x.contains(i) && q == f(i);
            lemma_step_of_key(plan, mission, keys, i);
            assert(arranged.execution.steps@[i] == plan.execution.steps@[q]);
            assert(is_refinement(plan, node, q));
            assert(keys.index_of(keys[i]) == i && keys.index_of(keys[k]) == k);
            if q == at {
                assert(keys[i] == keys[k]);
            } else if q > at {
                assert(keys.contains(plan.key(mission, q)));
            }
        }
        if y.contains(q) {
            assert(is_refinement(plan, node, q));
            let key = plan.key(mission, q);
            assert(keys.contains(plan.key(mission, at)));
            let i = keys.index_of(key);
            lemma_step_of_key(plan, mission, keys, i);
            assert(names[f(i)] == names[q]);
            assert(f(i) == q);
            assert(keys.index_of(keys[k]) == k);
            assert(arranged.execution.steps@[i] == plan.execution.steps@[q]);
            assert(x.contains(i));
        }
    }
    assert(x.map(f) =~= y);
    assert(injective_on(f, x));
    lemma_map_size(x, y, f);
}

/// The steps are found under the keys that they are asked for by.
proof fn lemma_arranged_keys(plan: AssembledPlan, mission: Seq<char>, keys: Seq<Seq<char>>, arranged: AssembledPlan)
    requires
        plan.flat(),
        ordered_by(plan, mission, keys),
        plan.execution.steps@.len() <= usize::MAX,
        follows(plan, mission, keys, arranged),
    ensures
        plan_keys(arranged, mission) == keys,
{
    assert forall|k: int| 0 <= k < keys.len() implies #[trigger] arranged.key(mission, k) == keys[k] by {
        lemma_step_of_key(plan, mission, keys, k);
        let at = step_index(plan, mission, keys[k]);
        assert(arranged.step(k) == plan.step(at));
        if arranged.step(k).phase is AnytimeRefine {
            lemma_same_number(plan, mission, keys, arranged, k);
        }
    }
    assert(plan_keys(arranged, mission) =~= keys);
}

/// Later refinements have greater numbers.
proof fn lemma_numbers_ascend(plan: AssembledPlan, node: int, a: int, b: int)
    requires
        0 <= a < b < plan.execution.steps@.len(),
        is_refinement(plan, node, b),
    ensures
        plan.refines(node, (a + 1) as nat) < plan.refines(node, (b + 1) as nat),
{
    lemma_refines_grow(plan, node, (a + 1) as nat, b as nat);
}

proof fn lemma_refines_grow(plan: AssembledPlan, node: int, m: nat, n: nat)
    requires
        m <= n,
    ensures
        plan.refines(node, m) <= plan.refines(node, n),
    decreases n,
{
    if m < n {
        lemma_refines_grow(plan, node, m, (n - 1) as nat);
    }
}

/// A node that is refined so often has a refinement of every lower number.
proof fn lemma_lower_number(plan: AssembledPlan, node: int, n: nat, number: nat) -> (i: int)
    requires
        0 < number <= plan.refines(node, n),
        n <= plan.execution.steps@.len(),
    ensures
        0 <= i < n,
        is_refinement(plan, node, i),
        plan.refines(node, (i + 1) as nat) == number,
    decreases n,
{
    if is_refinement(plan, node, n - 1) && plan.refines(node, n) == number {
        n - 1
    } else {
        lemma_lower_number(plan, node, (n - 1) as nat, number)
    }
}

/// Where the keys run the steps of one plan, they put the refinements of any
/// other plan in their order.
proof fn lemma_ordered_by(
    canonical: AssembledPlan,
    mission: Seq<char>,
    shape: ShapeModel,
    keys: Seq<Seq<char>>,
    plan: AssembledPlan,
)
    requires
        canonical.flat(),
        canonical.has_shape(mission, shape),
        canonical.execution.steps@.len() <= usize::MAX,
        runs_in(shape, keys),
        plan_keys(plan, mission).no_duplicates(),
        forall|k: int| 0 <= k < keys.len() ==> plan_keys(plan, mission).contains(#[trigger] keys[k]),
    ensures
        ordered_by(plan, mission, keys),
{
    assert forall|node: int, a: int, b: int|
        0 <= a < b < plan.execution.steps@.len() && #[trigger] is_refinement(plan, node, a) && #[trigger] is_refinement(
            plan,
            node,
            b,
        ) && keys.contains(plan.key(mission, b)) implies keys.contains(plan.key(mission, a)) && keys.index_of(
        plan.key(mission, a),
    ) < keys.index_of(plan.key(mission, b)) by {
        let first = plan.refines(node, (a + 1) as nat);
        let second = plan.refines(node, (b + 1) as nat);
        lemma_numbers_ascend(plan, node, a, b);
        let key = plan.key(mission, b);
        let k = keys.index_of(key);
        assert(shape.keys.contains(keys[k]));
        let d = shape.keys.index_of(key);
        assert(shape.keys[d] == canonical.key(mission, d));
        let step = canonical.step(d);
        let other = step.node_id as int;
        assert(canonical.execution.steps@[d] is Step);
        lemma_refinement_key(
            mission,
            canonical.entities@[other],
            step.phase,
            canonical.refines(other, (d + 1) as nat),
            plan.entities@[node],
            second,
        );
        let c = lemma_lower_number(canonical, other, (d + 1) as nat, first);
        if c == d {
            assert(first == second);
        }
        assert(canonical.execution.steps@[c] is Step);
        assert(canonical.key(mission, c) == plan.key(mission, a));
        assert(shape.keys[c] == canonical.key(mission, c));
        assert(keys.contains(shape.keys[c]));
        lemma_phases_in_order(canonical, mission, shape, keys, c, d);
    }
}

/// The plan made from the steps of `plan` in the order of `keys` runs exactly
/// that order, and nothing stops it from being made: wherever the steps can run
/// in that order, each step of the result has the key that was asked for at its
/// place.
pub proof fn arranged_plan_runs_as_requested(
    plan: AssembledPlan,
    mission: Seq<char>,
    shape: ShapeModel,
    keys: Seq<Seq<char>>,
    arranged: AssembledPlan,
)
    requires
        plan.flat(),
        plan.has_shape(mission, shape),
        runs_in(shape, keys),
        plan.execution.steps@.len() <= usize::MAX,
        follows(plan, mission, keys, arranged),
    ensures
        arrange_failure(plan, mission, keys, keys.len()) is None,
        plan_keys(arranged, mission) == keys,
{
    let names = plan_keys(plan, mission);
    assert(names =~= shape.keys);
    lemma_arranges(plan, mission, keys, keys.len());
    lemma_ordered_by(plan, mission, shape, keys, plan);
    lemma_arranged_keys(plan, mission, keys, arranged);
}

/// Distinct keys can be put in order exactly where each is the key of a step.
proof fn lemma_arranges(plan: AssembledPlan, mission: Seq<char>, keys: Seq<Seq<char>>, n: nat)
    requires
        keys.no_duplicates(),
        n <= keys.len(),
    ensures
        arrange_failure(plan, mission, keys, n) is None <==> forall|k: int|
            0 <= k < n ==> plan_keys(plan, mission).contains(#[trigger] keys[k]),
    decreases n,
{
    if n > 0 {
        lemma_arranges(plan, mission, keys, (n - 1) as nat);
        if keys.take(n - 1).contains(keys[n - 1]) {
            let i = keys.take(n - 1).index_of(keys[n - 1]);
            assert(keys[i] == keys[n - 1]);
        }
        if arrange_failure(plan, mission, keys, n) is None {
            assert forall|k: int| 0 <= k < n implies plan_keys(plan, mission).contains(#[trigger] keys[k]) by {
                if k < n - 1 {
                    assert(plan_keys(plan, mission).contains(keys[k]));
                }
            }
        } else {
            assert(!forall|k: int| 0 <= k < n ==> plan_keys(plan, mission).contains(#[trigger] keys[k])) by {
                if arrange_failure(plan, mission, keys, (n - 1) as nat) is None {
                    assert(!plan_keys(plan, mission).contains(keys[n - 1]));
                } else {
                    let k = choose|k: int| 0 <= k < n - 1 && !plan_keys(plan, mission).contains(#[trigger] keys[k]);
                    assert(!plan_keys(plan, mission).contains(keys[k]));
                }
            }
        }
    }
}

/// A schedule that is valid for a plan and runs on the main context alone is
/// enforced exactly: the plan can be put in its order, and then runs the steps
/// in the order of the schedule.
pub proof fn valid_serial_plan_is_enforced(
    p: PlanModel,
    pools: Seq<ThreadPool>,
    plan: AssembledPlan,
    mission: Seq<char>,
    shape: ShapeModel,
    arranged: AssembledPlan,
)
    requires
        plan.flat(),
        plan.has_shape(mission, shape),
        shape.wf(),
        plan.execution.steps@.len() <= usize::MAX,
        valid(p, pools, shape),
        p.serial_failure() is None,
        follows(plan, mission, requested_keys(p), arranged),
    ensures
        arrange_failure(plan, mission, requested_keys(p), requested_keys(p).len()) is None,
        plan_keys(arranged, mission) == requested_keys(p),
{
    valid_serial_plan_runs_in_order(p, pools, shape);
    arranged_plan_runs_as_requested(plan, mission, shape, requested_keys(p), arranged);
}

/// As many names as there are distinct keys among them are distinct.
proof fn lemma_distinct_names(names: Seq<Seq<char>>, keys: Seq<Seq<char>>)
    requires
        keys.no_duplicates(),
        names.len() == keys.len(),
        forall|k: int| 0 <= k < keys.len() ==> names.contains(#[trigger] keys[k]),
    ensures
        names.no_duplicates(),
{
    assert(keys.to_set().subset_of(names.to_set())) by {
        assert forall|t: Seq<char>| keys.to_set().contains(t) implies names.to_set().contains(t) by {
            let k = keys.index_of(t);
            assert(names.contains(keys[k]));
        }
    }
    keys.unique_seq_to_set();
    names.lemma_cardinality_of_set();
    lemma_len_subset(keys.to_set(), names.to_set());
    names.lemma_no_dup_set_cardinality();
}

/// A fixed plan runs a mission exactly as it says. Its schedule names a node
/// order; the plan that is rebuilt from it gives the result if it holds every
/// scheduled step; and then the result runs the scheduled steps in their order.
/// Of the rebuilt plan it is only asked that no two of its steps have the same
/// key, or that it has as many steps as the schedule.
pub proof fn fixed_plan_is_enforced(
    plan: PlanFile,
    config: CuConfig,
    i: int,
    built: AssembledPlan,
    r: CuResult<AssembledPlan>,
)
    requires
        plan.failure(config) is None,
        ascending(plan.ids),
        0 <= i < config.missions@.len(),
        plan.missions[i].serial_failure() is None,
        is_arranged(Ok(built), config.missions@[i].id@, requested_keys(plan.missions[i]), r),
        plan_keys(built, config.missions@[i].id@).no_duplicates() || built.execution.steps@.len() == requested_keys(
            plan.missions[i],
        ).len(),
    ensures
        plan.schedule(config.missions@[i].id@) == plan.missions[i],
        plan.order_failure(config.missions@[i], config.missions@[i].id@) is None,
        r is Ok <==> built.flat() && forall|k: int|
            0 <= k < requested_keys(plan.missions[i]).len() ==> plan_keys(built, config.missions@[i].id@).contains(
                #[trigger] requested_keys(plan.missions[i])[k],
            ),
        r matches Ok(arranged) ==> plan_keys(arranged, config.missions@[i].id@) == requested_keys(plan.missions[i]),
{
    let graph = config.missions@[i];
    let id = graph.id@;
    let p = plan.missions[i];
    let keys = requested_keys(p);
    lemma_missions_pass(plan, config, config.missions@.len());
    assert(plan.mission_failure(config, i) is None);
    lemma_ascending_distinct(plan.ids);
    assert(plan.ids[i] == id);
    assert(plan.ids.contains(id));
    assert(plan.ids.index_of(id) == i);
    let canonical = graph.canonical->Ok_0;
    let shape = canonical.shape(id);
    assert(canonical.execution.steps@.len() == canonical.execution.steps.len());
    assert(built.execution.steps@.len() == built.execution.steps.len());
    shape_exists(canonical, id);
    validation_accepts_exactly_the_valid_plans(p, config.thread_pools@, shape);
    valid_serial_plan_runs_in_order(p, config.thread_pools@, shape);
    assert(plan_keys(canonical, id) =~= shape.keys);
    lemma_requests(canonical, id, keys, keys.len());
    lemma_arranges(built, id, keys, keys.len());
    if r is Ok {
        if !plan_keys(built, id).no_duplicates() {
            lemma_distinct_names(plan_keys(built, id), keys);
        }
        lemma_ordered_by(canonical, id, shape, keys, built);
        lemma_arranged_keys(built, id, keys, r->Ok_0);
    }
}

proof fn lemma_requests(plan: AssembledPlan, mission: Seq<char>, keys: Seq<Seq<char>>, n: nat)
    requires
        n <= keys.len(),
        forall|k: int| 0 <= k < keys.len() ==> plan_keys(plan, mission).contains(#[trigger] keys[k]),
    ensures
        request_failure(plan, mission, keys, n) is None,
    decreases n,
{
    if n > 0 {
        lemma_requests(plan, mission, keys, (n - 1) as nat);
        assert(plan_keys(plan, mission).contains(keys[n - 1]));
    }
}

/// Where a step of the plan runs in CopperList `c` of a schedule.
pub open spec fn runs_at(plan: AssembledPlan, mission: Seq<char>, p: PlanModel, i: int, c: int) -> int {
    p.occurrence(plan.key(mission, i), c)
}

/// In a valid schedule no two calls of one instance overlap: those of one
/// CopperList are ordered, and those of a CopperList come before those of the
/// next, across cycles too.
pub proof fn calls_of_an_instance_never_overlap(
    plan: AssembledPlan,
    mission: Seq<char>,
    p: PlanModel,
    pools: Seq<ThreadPool>,
    i: usize,
    j: usize,
    c: int,
)
    requires
        plan.has_shape(mission, plan.shape(mission)),
        plan.execution.steps@.len() <= usize::MAX,
        valid(p, pools, plan.shape(mission)),
        i < plan.execution.steps@.len(),
        j < plan.execution.steps@.len(),
        same_instance(
            plan.entities@[plan.step(i as int).node_id as int],
            plan.entities@[plan.step(j as int).node_id as int],
        ),
        0 <= c < p.copperlists_per_cycle,
    ensures
        i != j ==> before(p, runs_at(plan, mission, p, i as int, c), runs_at(plan, mission, p, j as int, c)) || before(
            p,
            runs_at(plan, mission, p, j as int, c),
            runs_at(plan, mission, p, i as int, c),
        ),
        c + 1 < p.copperlists_per_cycle ==> before(
            p,
            runs_at(plan, mission, p, i as int, c),
            runs_at(plan, mission, p, j as int, c + 1),
        ),
        c + 1 == p.copperlists_per_cycle ==> precedes(
            p.graph(),
            runs_at(plan, mission, p, i as int, c),
            runs_at(plan, mission, p, j as int, 0),
            1,
        ),
{
    let shape = plan.shape(mission);
    components_are_instances(plan, mission, shape, i, j);
    let k = choose|k: int|
        0 <= k < shape.components.len() && (#[trigger] shape.components[k]).contains(i) && shape.components[k].contains(
            j,
        );
    let component = shape.components[k];
    assert(exclusive(p, shape, component));
    let a = choose|a: int| 0 <= a < component.len() && component[a] == i;
    let b = choose|b: int| 0 <= b < component.len() && component[b] == j;
    assert(call(p, shape, component, a, c) == runs_at(plan, mission, p, i as int, c));
    assert(call(p, shape, component, b, c) == runs_at(plan, mission, p, j as int, c));
    assert(call(p, shape, component, b, c + 1) == runs_at(plan, mission, p, j as int, c + 1));
    assert(call(p, shape, component, b, 0) == runs_at(plan, mission, p, j as int, 0));
}

/// In a valid schedule the producer of a message runs before its consumers in
/// every CopperList.
pub proof fn messages_are_produced_before_they_are_read(
    plan: AssembledPlan,
    mission: Seq<char>,
    p: PlanModel,
    pools: Seq<ThreadPool>,
    a: usize,
    b: usize,
    c: int,
)
    requires
        plan.has_shape(mission, plan.shape(mission)),
        plan.execution.steps@.len() <= usize::MAX,
        valid(p, pools, plan.shape(mission)),
        plan.message_flows(a as int, b as int) || plan.phases_follow(a as int, b as int),
        0 <= c < p.copperlists_per_cycle,
        a < plan.execution.steps@.len(),
        b < plan.execution.steps@.len(),
    ensures
        before(p, runs_at(plan, mission, p, a as int, c), runs_at(plan, mission, p, b as int, c)),
{
    let shape = plan.shape(mission);
    assert(shape.required.contains((a, b)));
    let r = choose|r: int| 0 <= r < shape.required.len() && shape.required[r] == (a, b);
    assert(p.occurrence(shape.keys[shape.required[r].0 as int], c) == runs_at(plan, mission, p, a as int, c));
    assert(p.occurrence(shape.keys[shape.required[r].1 as int], c) == runs_at(plan, mission, p, b as int, c));
}

} // verus!
