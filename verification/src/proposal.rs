//! Worker plans as schedules: what placing the units of an inventory on
//! workers keeps of it, and why every proposed schedule is valid.

use crate::graph::acyclic;
use crate::graph::edge_precedes;
use crate::graph::is_edge;
use crate::graph::path;
use crate::graph::precedence_is_transitive;
use crate::graph::precedes;
use crate::graph::ranks;
use crate::graph::Graph;
use crate::inventory::lemma_follows;
use crate::inventory::lemma_members_in;
use crate::inventory::lemma_members_known;
use crate::inventory::lemma_unit;
use crate::inventory::lemma_units;
use crate::inventory::InventoryModel;
use crate::model::Model;
use crate::order::orderable;
use crate::order::respects;
use crate::propose::indices;
use crate::propose::lane_steps;
use crate::propose::lane_workers;
use crate::propose::pooled;
use crate::propose::WorkerModel;
use crate::schedule::pool_threads;
use crate::schedule::CuPlanDependency;
use crate::schedule::PlanModel;
use crate::schedule::ShapeModel;
use crate::schedule::ThreadPool;
use crate::shape::lists_of;
use crate::timeline::complete;
use crate::timeline::in_lanes;
use crate::validity::before;
use crate::validity::call;
use crate::validity::complete_inventory;
use crate::validity::complete_lanes;
use crate::validity::depends;
use crate::validity::exclusive;
use crate::validity::has_edge;
use crate::validity::known_dependencies;
use crate::validity::lane_follows;
use crate::validity::lemma_spelled_range;
use crate::validity::placed;
use crate::validity::plan_edges;
use crate::validity::required_ordered;
use crate::validity::valid;
use vstd::prelude::*;

verus! {

// ---------------------------------------------------------------------------
// Units
// ---------------------------------------------------------------------------

/// The units of an inventory.
pub open spec fn all_units(m: InventoryModel) -> Seq<Seq<usize>> {
    Seq::new(m.unit_count(), |u: int| m.unit_steps(u as nat))
}

proof fn lemma_members_shape(m: InventoryModel, u: nat, n: nat)
    requires
        n <= usize::MAX,
    ensures
        forall|k: int| 0 <= k < m.members(u, n).len() ==> m.unit((#[trigger] m.members(u, n)[k]) as int) == u,
        forall|j: int, k: int|
            0 <= j < k < m.members(u, n).len() ==> (#[trigger] m.members(u, n)[j]) < (#[trigger] m.members(u, n)[k]),
    decreases n,
{
    if n > 0 {
        let rest = m.members(u, (n - 1) as nat);
        let all = m.members(u, n);
        lemma_members_shape(m, u, (n - 1) as nat);
        lemma_members_known(m, u, (n - 1) as nat);
        assert forall|k: int| 0 <= k < all.len() implies m.unit((#[trigger] all[k]) as int) == u by {
            if k < rest.len() {
                assert(all[k] == rest[k]);
            }
        }
        assert forall|j: int, k: int| 0 <= j < k < all.len() implies (#[trigger] all[j]) < (#[trigger] all[k]) by {
            assert(all[j] == rest[j]);
            if k < rest.len() {
                assert(all[k] == rest[k]);
            } else {
                assert(rest[j] < n - 1);
            }
        }
    }
}

/// Whether entry `b` of a lane is occurrence `o` of the unit at place `k`.
pub open spec fn entry_of(units: Seq<Seq<usize>>, lane: Seq<usize>, b: int, k: int, o: int) -> bool {
    &&& 0 <= k < lane.len()
    &&& 0 <= o < units[lane[k] as int].len()
    &&& b == lane_steps(units, lane, k as nat).len() + o
}

/// Every entry of a lane belongs to one of its units.
proof fn lemma_locate(units: Seq<Seq<usize>>, lane: Seq<usize>, n: nat, b: int) -> (r: (int, int))
    requires
        n <= lane.len(),
        0 <= b < lane_steps(units, lane, n).len(),
    ensures
        entry_of(units, lane, b, r.0, r.1),
        r.0 < n,
        lane_steps(units, lane, n)[b] == units[lane[r.0] as int][r.1] as u32,
    decreases n,
{
    let rest = lane_steps(units, lane, (n - 1) as nat);
    if b < rest.len() {
        let r = lemma_locate(units, lane, (n - 1) as nat, b);
        assert(lane_steps(units, lane, n)[b] == rest[b]);
        r
    } else {
        (n - 1, b - rest.len())
    }
}

proof fn lemma_offsets(units: Seq<Seq<usize>>, lane: Seq<usize>, i: nat, n: nat)
    requires
        i <= n <= lane.len(),
    ensures
        lane_steps(units, lane, i).len() <= lane_steps(units, lane, n).len(),
        i < n ==> lane_steps(units, lane, i).len() + units[lane[i as int] as int].len() <= lane_steps(
            units,
            lane,
            n,
        ).len(),
    decreases n,
{
    if i < n {
        lemma_offsets(units, lane, i, (n - 1) as nat);
    }
}

/// Occurrence `o` of the unit at place `k` is where its entry says.
proof fn lemma_entry(units: Seq<Seq<usize>>, lane: Seq<usize>, n: nat, k: int, o: int) -> (b: int)
    requires
        0 <= k < n <= lane.len(),
        0 <= o < units[lane[k] as int].len(),
    ensures
        entry_of(units, lane, b, k, o),
        0 <= b < lane_steps(units, lane, n).len(),
        lane_steps(units, lane, n)[b] == units[lane[k] as int][o] as u32,
    decreases n,
{
    let b = lane_steps(units, lane, k as nat).len() + o;
    lemma_offsets(units, lane, k as nat, n);
    if k + 1 < n {
        let c = lemma_entry(units, lane, (n - 1) as nat, k, o);
        assert(lane_steps(units, lane, n)[c] == lane_steps(units, lane, (n - 1) as nat)[c]);
    } else {
        assert(lane_steps(units, lane, n)[b] == indices(units[lane[k] as int])[o]);
    }
    b
}

// ---------------------------------------------------------------------------
// Workers
// ---------------------------------------------------------------------------

/// The lanes among the first `n` that are not idle.
pub open spec fn busy(lanes: Seq<Seq<usize>>, n: nat) -> Seq<int>
    decreases n,
{
    if n == 0 {
        Seq::empty()
    } else if lanes[n - 1].len() == 0 {
        busy(lanes, (n - 1) as nat)
    } else {
        busy(lanes, (n - 1) as nat).push(n - 1)
    }
}

proof fn lemma_busy(lanes: Seq<Seq<usize>>, n: nat)
    ensures
        forall|w: int|
            0 <= w < busy(lanes, n).len() ==> 0 <= (#[trigger] busy(lanes, n)[w]) < n && lanes[busy(lanes, n)[w]].len() > 0,
        forall|v: int, w: int|
            0 <= v < w < busy(lanes, n).len() ==> (#[trigger] busy(lanes, n)[v]) < (#[trigger] busy(lanes, n)[w]),
        forall|l: int| 0 <= l < n && (#[trigger] lanes[l]).len() > 0 ==> busy(lanes, n).contains(l),
    decreases n,
{
    if n > 0 {
        let rest = busy(lanes, (n - 1) as nat);
        let all = busy(lanes, n);
        lemma_busy(lanes, (n - 1) as nat);
        assert forall|l: int| 0 <= l < n && (#[trigger] lanes[l]).len() > 0 implies all.contains(l) by {
            if l < n - 1 {
                assert(rest.contains(l));
                let w = rest.index_of(l);
                assert(all[w] == l);
            } else {
                assert(all[all.len() - 1] == l);
            }
        }
    }
}

proof fn lemma_workers(model: Model, lanes: Seq<Seq<usize>>, n: nat)
    requires
        n <= lanes.len(),
    ensures
        lane_workers(model, lanes, n).len() == busy(lanes, n).len(),
        forall|w: int|
            0 <= w < busy(lanes, n).len() ==> (#[trigger] lane_workers(model, lanes, n)[w]).steps == lane_steps(
                lists_of(model.units@),
                lanes[busy(lanes, n)[w]],
                lanes[busy(lanes, n)[w]].len(),
            ),
    decreases n,
{
    if n > 0 {
        lemma_workers(model, lanes, (n - 1) as nat);
        let rest = lane_workers(model, lanes, (n - 1) as nat);
        let all = lane_workers(model, lanes, n);
        let b = busy(lanes, n);
        assert forall|w: int| 0 <= w < b.len() implies (#[trigger] all[w]).steps == lane_steps(
            lists_of(model.units@),
            lanes[b[w]],
            lanes[b[w]].len(),
        ) by {
            if w < rest.len() {
                assert(all[w] == rest[w]);
                assert(b[w] == busy(lanes, (n - 1) as nat)[w]);
            }
        }
    }
}

/// Whether the workers of a plan run the units of the lanes that are not idle,
/// each lane's units in order.
spec fn run_lanes(workers: Seq<WorkerModel>, units: Seq<Seq<usize>>, lanes: Seq<Seq<usize>>) -> bool {
    let b = busy(lanes, lanes.len());
    &&& workers.len() == b.len()
    &&& forall|w: int|
        0 <= w < b.len() ==> (#[trigger] workers[w]).steps == lane_steps(units, lanes[b[w]], lanes[b[w]].len())
}

/// What is known of an inventory whose units are placed on lanes.
spec fn placing(m: InventoryModel, lanes: Seq<Seq<usize>>) -> bool {
    &&& m.wf()
    &&& m.steps.len() <= u32::MAX
    &&& m.refine_failure(m.steps.len()) is None
    &&& complete(lanes, m.unit_count())
}

/// What occurrence entry `b` of worker `w` is.
proof fn lemma_worker_entry(m: InventoryModel, lanes: Seq<Seq<usize>>, workers: Seq<WorkerModel>, w: int, b: int) -> (r: (
    int,
    int,
))
    requires
        placing(m, lanes),
        run_lanes(workers, all_units(m), lanes),
        0 <= w < workers.len(),
        0 <= b < workers[w].steps.len(),
    ensures
        ({
            let lane = lanes[busy(lanes, lanes.len())[w]];
            let i = workers[w].steps[b] as int;
            &&& entry_of(all_units(m), lane, b, r.0, r.1)
            &&& lane[r.0] < m.unit_count()
            &&& i < m.steps.len()
            &&& m.unit(i) == lane[r.0]
            &&& m.unit_steps(lane[r.0] as nat)[r.1] == i
        }),
{
    let units = all_units(m);
    lemma_busy(lanes, lanes.len());
    let l = busy(lanes, lanes.len())[w];
    let lane = lanes[l];
    let r = lemma_locate(units, lane, lane.len(), b);
    assert(lanes[l][r.0] < m.unit_count());
    let u = lane[r.0] as nat;
    lemma_units(m, u);
    lemma_members_shape(m, u, m.steps.len());
    assert(m.unit_steps(u)[r.1] < m.steps.len());
    r
}

/// Every occurrence of an inventory is run by exactly one worker of a proposed
/// plan, and only once per cycle.
pub proof fn every_occurrence_runs_once(m: InventoryModel, model: Model, lanes: Seq<Seq<usize>>, i: int)
    requires
        m.wf(),
        m.steps.len() <= u32::MAX,
        m.refine_failure(m.steps.len()) is None,
        lists_of(model.units@) == all_units(m),
        complete(lanes, m.unit_count()),
        0 <= i < m.steps.len(),
    ensures
        ({
            let workers = lane_workers(model, lanes, lanes.len());
            &&& exists|w: int, b: int| #[trigger] runs(workers, w, b, i)
            &&& forall|w: int, b: int, v: int, c: int| #[trigger]
                runs(workers, w, b, i) && #[trigger] runs(workers, v, c, i) ==> w == v && b == c
        }),
{
    let workers = lane_workers(model, lanes, lanes.len());
    lemma_workers(model, lanes, lanes.len());
    let at = lemma_runs_somewhere(m, lanes, workers, i);
    assert(runs(workers, at.0, at.1, i));
    assert forall|w: int, b: int, v: int, c: int| #[trigger] runs(workers, w, b, i) && #[trigger] runs(workers, v, c, i) implies w
        == v && b == c by {
        lemma_runs_once(m, lanes, workers, w, b, v, c);
    }
}

/// Whether entry `b` of worker `w` is occurrence `i`.
pub open spec fn runs(workers: Seq<WorkerModel>, w: int, b: int, i: int) -> bool {
    0 <= w < workers.len() && 0 <= b < workers[w].steps.len() && workers[w].steps[b] == i
}

proof fn lemma_runs_somewhere(m: InventoryModel, lanes: Seq<Seq<usize>>, workers: Seq<WorkerModel>, i: int) -> (r: (
    int,
    int,
))
    requires
        placing(m, lanes),
        run_lanes(workers, all_units(m), lanes),
        0 <= i < m.steps.len(),
    ensures
        runs(workers, r.0, r.1, i),
{
    let units = all_units(m);
    lemma_follows(m, m.steps.len(), i);
    lemma_unit(m, i, m.steps.len());
    let u = m.unit(i);
    assert(in_lanes(lanes, u as int));
    let (l, k) = choose|l: int, k: int| 0 <= l < lanes.len() && 0 <= k < lanes[l].len() && #[trigger] lanes[l][k] == u;
    lemma_members_in(m, u, m.steps.len(), i);
    let o = m.unit_steps(u).index_of(i as usize);
    assert(units[u as int][o] == i);
    let b = lemma_entry(units, lanes[l], lanes[l].len(), k, o);
    lemma_busy(lanes, lanes.len());
    let w = busy(lanes, lanes.len()).index_of(l);
    assert(workers[w].steps == lane_steps(units, lanes[l], lanes[l].len()));
    (w, b)
}

proof fn lemma_runs_once(
    m: InventoryModel,
    lanes: Seq<Seq<usize>>,
    workers: Seq<WorkerModel>,
    w: int,
    b: int,
    v: int,
    c: int,
)
    requires
        placing(m, lanes),
        run_lanes(workers, all_units(m), lanes),
        0 <= w < workers.len(),
        0 <= b < workers[w].steps.len(),
        0 <= v < workers.len(),
        0 <= c < workers[v].steps.len(),
        workers[w].steps[b] == workers[v].steps[c],
    ensures
        w == v,
        b == c,
{
    let list = busy(lanes, lanes.len());
    let x = lemma_worker_entry(m, lanes, workers, w, b);
    let y = lemma_worker_entry(m, lanes, workers, v, c);
    lemma_busy(lanes, lanes.len());
    assert(lanes[list[w]][x.0] == lanes[list[v]][y.0]);
    assert(list[w] == list[v] && x.0 == y.0);
    if w < v {
        assert(list[w] < list[v]);
    } else if v < w {
        assert(list[v] < list[w]);
    }
    let u = lanes[list[w]][x.0] as nat;
    lemma_members_shape(m, u, m.steps.len());
    if x.1 < y.1 {
        assert(m.unit_steps(u)[x.1] < m.unit_steps(u)[y.1]);
    } else if y.1 < x.1 {
        assert(m.unit_steps(u)[y.1] < m.unit_steps(u)[x.1]);
    }
}

// ---------------------------------------------------------------------------
// Validity
// ---------------------------------------------------------------------------

/// The plan without its lanes: what its dependencies order by themselves.
pub open spec fn bare(p: PlanModel) -> PlanModel {
    PlanModel { lanes: Seq::empty(), ..p }
}

/// Whether the dependencies of a plan order, by themselves, everything that
/// must be ordered.
pub open spec fn orders_alone(p: PlanModel, shape: ShapeModel) -> bool {
    &&& required_ordered(bare(p), shape)
    &&& forall|k: int| 0 <= k < shape.components.len() ==> exclusive(bare(p), shape, #[trigger] shape.components[k])
}

/// Whether the dependencies between phases that run together point forward.
pub open spec fn phases_ascend(m: InventoryModel) -> bool {
    forall|d: int|
        0 <= d < m.dependencies.len() && (#[trigger] m.dependencies[d]).cycle_lag == 0 && m.unit(
            m.dependencies[d].from as int,
        ) == m.unit(m.dependencies[d].to as int) ==> m.dependencies[d].from < m.dependencies[d].to
}

proof fn lemma_path_grows(g: Graph, h: Graph, from: int, to: int, lag: int, n: nat)
    requires
        g.len() == h.len(),
        forall|u: int, v: int, l: int| 0 <= u < g.len() && #[trigger] has_edge(g, u, v, l) ==> has_edge(h, u, v, l),
        path(g, from, to, lag, n),
    ensures
        path(h, from, to, lag, n),
    decreases n,
{
    if n > 0 {
        let (mid, k) = choose|mid: int, k: int| #[trigger]
            is_edge(g, mid, k, to) && path(g, from, mid, lag - g[mid][k].1, (n - 1) as nat);
        let l = g[mid][k].1;
        lemma_path_grows(g, h, from, mid, lag - l, (n - 1) as nat);
        assert(has_edge(g, mid, to, l as int));
        let j = choose|j: int| 0 <= j < h[mid].len() && (#[trigger] h[mid][j]).0 == to && h[mid][j].1 == l;
        assert(is_edge(h, mid, j, to));
    }
}

/// What dependencies order by themselves stays ordered on any lanes.
proof fn lemma_bare_precedes(p: PlanModel, from: int, to: int, lag: int)
    requires
        known_dependencies(p),
        forall|a: int, b: int, index: int| #[trigger] p.lists(a, b, index) ==> index < p.steps.len(),
        p.steps.len() > 0,
        precedes(bare(p).graph(), from, to, lag),
    ensures
        precedes(p.graph(), from, to, lag),
{
    let q = bare(p);
    let g = q.graph();
    let h = p.graph();
    plan_edges(p, 0, 0, 0);
    plan_edges(q, 0, 0, 0);
    assert forall|u: int, v: int, l: int| 0 <= u < g.len() && #[trigger] has_edge(g, u, v, l) implies has_edge(h, u, v, l) by {
        plan_edges(q, u, v, l);
        plan_edges(p, u, v, l);
        assert(depends(q, q.dependencies.len() as int, u, v, l));
        let d = choose|d: int|
            0 <= d < q.dependencies.len() && (#[trigger] q.dependencies[d]).from == u && q.dependencies[d].to == v
                && q.dependencies[d].cycle_lag == l;
        assert(p.dependencies[d].from == u && p.dependencies[d].to == v && p.dependencies[d].cycle_lag == l);
        assert(depends(p, p.dependencies.len() as int, u, v, l));
    }
    let n = choose|n: nat| n > 0 && #[trigger] path(g, from, to, lag, n);
    lemma_path_grows(g, h, from, to, lag, n);
    assert(path(h, from, to, lag, n));
}

proof fn lemma_same_occurrence(p: PlanModel, shape: ShapeModel, k: int, c: int)
    requires
        complete_inventory(p, shape),
        0 <= k < shape.keys.len(),
        0 <= c < p.copperlists_per_cycle,
    ensures
        bare(p).occurrence(shape.keys[k], c) == p.occurrence(shape.keys[k], c),
{
    let key = shape.keys[k];
    let i = p.occurrence(key, c);
    let j = bare(p).occurrence(key, c);
    assert(p.is_step(i, key, c));
    assert(bare(p).is_step(i, key, c));
    assert(bare(p).is_step(j, key, c));
    assert(p.is_step(j, key, c));
    if i < j {
        assert(p.steps[i].key != p.steps[j].key || p.steps[i].copperlist != p.steps[j].copperlist);
    } else if j < i {
        assert(p.steps[j].key != p.steps[i].key || p.steps[j].copperlist != p.steps[i].copperlist);
    }
}

proof fn lemma_orders(p: PlanModel, shape: ShapeModel)
    requires
        shape.wf(),
        complete_inventory(p, shape),
        known_dependencies(p),
        forall|a: int, b: int, index: int| #[trigger] p.lists(a, b, index) ==> index < p.steps.len(),
        p.steps.len() > 0,
        orders_alone(p, shape),
    ensures
        required_ordered(p, shape),
        forall|k: int| 0 <= k < shape.components.len() ==> exclusive(p, shape, #[trigger] shape.components[k]),
{
    let q = bare(p);
    assert forall|r: int, c: int|
        #![trigger shape.required[r], p.occurrence(shape.keys[shape.required[r].0 as int], c)]
        0 <= r < shape.required.len() && 0 <= c < p.copperlists_per_cycle implies before(
        p,
        p.occurrence(shape.keys[shape.required[r].0 as int], c),
        p.occurrence(shape.keys[shape.required[r].1 as int], c),
    ) by {
        let (a, b) = shape.required[r];
        lemma_same_occurrence(p, shape, a as int, c);
        lemma_same_occurrence(p, shape, b as int, c);
        assert(before(q, q.occurrence(shape.keys[a as int], c), q.occurrence(shape.keys[b as int], c)));
        lemma_bare_precedes(p, p.occurrence(shape.keys[a as int], c), p.occurrence(shape.keys[b as int], c), 0);
    }
    assert forall|k: int| 0 <= k < shape.components.len() implies exclusive(p, shape, #[trigger] shape.components[k]) by {
        lemma_exclusive(p, shape, k);
    }
}

proof fn lemma_exclusive(p: PlanModel, shape: ShapeModel, k: int)
    requires
        shape.wf(),
        complete_inventory(p, shape),
        known_dependencies(p),
        forall|a: int, b: int, index: int| #[trigger] p.lists(a, b, index) ==> index < p.steps.len(),
        p.steps.len() > 0,
        0 <= k < shape.components.len(),
        exclusive(bare(p), shape, shape.components[k]),
    ensures
        exclusive(p, shape, shape.components[k]),
{
    let q = bare(p);
    let component = shape.components[k];
    let last = p.copperlists_per_cycle - 1;
    assert forall|i: int, c: int| 0 <= i < component.len() && 0 <= c <= last implies #[trigger] call(
        p,
        shape,
        component,
        i,
        c,
    ) == call(q, shape, component, i, c) by {
        assert(shape.components[k][i] < shape.keys.len());
        lemma_same_occurrence(p, shape, component[i] as int, c);
    }
    assert forall|i: int, j: int, c: int|
        #![trigger call(p, shape, component, i, c), call(p, shape, component, j, c)]
        0 <= i < component.len() && 0 <= j < component.len() && i != j && 0 <= c <= last implies before(
        p,
        call(p, shape, component, i, c),
        call(p, shape, component, j, c),
    ) || before(p, call(p, shape, component, j, c), call(p, shape, component, i, c)) by {
        let x = call(q, shape, component, i, c);
        let y = call(q, shape, component, j, c);
        if before(q, x, y) {
            lemma_bare_precedes(p, x, y, 0);
        } else {
            assert(before(q, y, x));
            lemma_bare_precedes(p, y, x, 0);
        }
    }
    assert forall|i: int, j: int, c: int, d: int|
        #![trigger call(p, shape, component, i, c), call(p, shape, component, j, d)]
        0 <= i < component.len() && 0 <= j < component.len() && 0 <= c < last && d == c + 1 implies before(
        p,
        call(p, shape, component, i, c),
        call(p, shape, component, j, d),
    ) by {
        let x = call(q, shape, component, i, c);
        let y = call(q, shape, component, j, d);
        assert(before(q, x, y));
        lemma_bare_precedes(p, x, y, 0);
    }
    assert forall|i: int, j: int|
        #![trigger call(p, shape, component, i, last), call(p, shape, component, j, 0)]
        0 <= i < component.len() && 0 <= j < component.len() implies precedes(
        p.graph(),
        call(p, shape, component, i, last),
        call(p, shape, component, j, 0),
        1,
    ) by {
        let x = call(q, shape, component, i, last);
        let y = call(q, shape, component, j, 0);
        assert(precedes(q.graph(), x, y, 1));
        lemma_bare_precedes(p, x, y, 1);
    }
}

/// A dependency of the same cycle between different units makes one a
/// predecessor of the other.
proof fn lemma_preds(m: InventoryModel, n: nat, d: int)
    requires
        m.wf(),
        m.refine_failure(m.steps.len()) is None,
        0 <= d < n <= m.dependencies.len(),
        m.dependencies[d].cycle_lag == 0,
        m.unit(m.dependencies[d].from as int) != m.unit(m.dependencies[d].to as int),
        m.steps.len() <= usize::MAX,
    ensures
        m.preds(n).len() == m.unit_count(),
        m.preds(n)[m.unit(m.dependencies[d].to as int) as int].contains(m.unit(m.dependencies[d].from as int) as usize),
    decreases n,
{
    lemma_preds_len(m, n);
    lemma_preds_len(m, (n - 1) as nat);
    let last = m.dependencies[n - 1];
    lemma_follows(m, m.steps.len(), last.to as int);
    lemma_unit(m, last.to as int, m.steps.len());
    lemma_follows(m, m.steps.len(), last.from as int);
    lemma_unit(m, last.from as int, m.steps.len());
    let told = m.dependencies[d];
    lemma_follows(m, m.steps.len(), told.to as int);
    lemma_unit(m, told.to as int, m.steps.len());
    lemma_follows(m, m.steps.len(), told.from as int);
    lemma_unit(m, told.from as int, m.steps.len());
    let rest = m.preds((n - 1) as nat);
    let to = m.unit(m.dependencies[d].to as int) as int;
    let from = m.unit(m.dependencies[d].from as int) as usize;
    let at = m.unit(last.to as int) as int;
    let new = m.unit(last.from as int) as usize;
    if d < n - 1 {
        lemma_preds(m, (n - 1) as nat, d);
        if at == to && last.cycle_lag == 0 && m.unit(last.from as int) != at && !rest[at].contains(new) {
            let k = rest[to].index_of(from);
            assert(rest[to].push(new)[k] == from);
        }
    } else {
        if !rest[to].contains(from) {
            let list = rest[to].push(from);
            assert(list[list.len() - 1] == from);
        }
    }
}

proof fn lemma_preds_len(m: InventoryModel, n: nat)
    requires
        m.wf(),
        m.refine_failure(m.steps.len()) is None,
        n <= m.dependencies.len(),
    ensures
        m.preds(n).len() == m.unit_count(),
    decreases n,
{
    if n > 0 {
        lemma_preds_len(m, (n - 1) as nat);
        let to = m.dependencies[n - 1].to as int;
        lemma_follows(m, m.steps.len(), to);
        lemma_unit(m, to, m.steps.len());
    }
}

/// Numbers the occurrences by their unit's number, and within a unit in order.
spec fn step_ranks(m: InventoryModel, rank: Seq<nat>) -> Seq<nat> {
    Seq::new(m.steps.len(), |i: int| rank[m.unit(i) as int] * (m.steps.len() + 1) + i as nat)
}

proof fn lemma_rank_up(a: nat, b: nat, i: nat, j: nat, n: nat)
    requires
        a < b,
        i < n,
        j < n,
    ensures
        a * (n + 1) + i < b * (n + 1) + j,
{
    assert(a * (n + 1) + (n + 1) <= b * (n + 1)) by (nonlinear_arith)
        requires
            a + 1 <= b,
    ;
}

/// Placing units on lanes in an order that the predecessors allow closes no
/// cycle of occurrences.
proof fn lemma_pooled_acyclic(
    m: InventoryModel,
    lanes: Seq<Seq<usize>>,
    workers: Seq<WorkerModel>,
    pool: Seq<char>,
)
    requires
        placing(m, lanes),
        run_lanes(workers, all_units(m), lanes),
        orderable(m.unit_preds(), lanes),
        phases_ascend(m),
        m.steps.len() > 0,
    ensures
        acyclic(pooled(m, workers, pool).graph()),
{
    let p = pooled(m, workers, pool);
    let g = p.graph();
    let n = m.steps.len();
    let rank = choose|rank: Seq<nat>| #[trigger] respects(m.unit_preds(), lanes, rank);
    let steps = step_ranks(m, rank);
    lemma_pooled_lists(m, lanes, workers, pool);
    plan_edges(p, 0, 0, 0);
    lemma_preds_len(m, m.dependencies.len());
    assert forall|x: int, k: int| 0 <= x < g.len() && 0 <= k < g[x].len() && (#[trigger] g[x][k]).1 == 0 implies steps[x]
        < steps[g[x][k].0 as int] by {
        let y = g[x][k].0 as int;
        assert(has_edge(g, x, y, 0));
        plan_edges(p, x, y, 0);
        if exists|w: int, b: int| #[trigger] lane_follows(p, w, b, x, y) {
            let (w, b) = choose|w: int, b: int| #[trigger] lane_follows(p, w, b, x, y);
            lemma_lane_edge(m, lanes, workers, rank, w, b);
        } else {
            let d = choose|d: int|
                0 <= d < p.dependencies.len() && (#[trigger] p.dependencies[d]).from == x && p.dependencies[d].to == y
                    && p.dependencies[d].cycle_lag == 0;
            assert(m.dependencies[d].from == x && m.dependencies[d].to == y);
            lemma_follows(m, n, x);
            lemma_unit(m, x, n);
            lemma_follows(m, n, y);
            lemma_unit(m, y, n);
            if m.unit(x) != m.unit(y) {
                lemma_preds(m, m.dependencies.len(), d);
                let t = m.unit(y) as int;
                let j = m.unit_preds()[t].index_of(m.unit(x) as usize);
                assert(m.unit_preds()[t][j] == m.unit(x));
                lemma_rank_up(rank[m.unit(x) as int], rank[t], x as nat, y as nat, n);
            }
        }
    }
    assert(ranks(g, steps));
}

/// What the lanes of a pooled plan list.
proof fn lemma_pooled_lists(m: InventoryModel, lanes: Seq<Seq<usize>>, workers: Seq<WorkerModel>, pool: Seq<char>)
    requires
        placing(m, lanes),
        run_lanes(workers, all_units(m), lanes),
    ensures
        ({
            let p = pooled(m, workers, pool);
            &&& known_dependencies(p)
            &&& forall|a: int, b: int, index: int| #[trigger] p.lists(a, b, index) ==> index < p.steps.len() && runs(workers, a, b, index)
        }),
{
    let p = pooled(m, workers, pool);
    assert forall|a: int, b: int, index: int| #[trigger] p.lists(a, b, index) implies index < p.steps.len() && runs(
        workers,
        a,
        b,
        index,
    ) by {
        assert(p.lanes[a].steps == workers[a].steps);
        lemma_worker_entry(m, lanes, workers, a, b);
    }
    assert forall|d: int| 0 <= d < p.dependencies.len() implies (#[trigger] p.dependencies[d]).from < p.steps.len()
        && p.dependencies[d].to < p.steps.len() by {
        assert(m.dependencies[d].from < m.steps.len());
    }
}

/// Along a lane the numbers of the occurrences go up.
proof fn lemma_lane_edge(
    m: InventoryModel,
    lanes: Seq<Seq<usize>>,
    workers: Seq<WorkerModel>,
    rank: Seq<nat>,
    w: int,
    b: int,
)
    requires
        placing(m, lanes),
        run_lanes(workers, all_units(m), lanes),
        respects(m.unit_preds(), lanes, rank),
        0 <= w < workers.len(),
        0 <= b < workers[w].steps.len() - 1,
    ensures
        ({
            let x = workers[w].steps[b] as int;
            let y = workers[w].steps[b + 1] as int;
            &&& 0 <= x < m.steps.len()
            &&& 0 <= y < m.steps.len()
            &&& step_ranks(m, rank)[x] < step_ranks(m, rank)[y]
        }),
{
    let units = all_units(m);
    let l = busy(lanes, lanes.len())[w];
    let lane = lanes[l];
    lemma_busy(lanes, lanes.len());
    let r = lemma_worker_entry(m, lanes, workers, w, b);
    let s = lemma_worker_entry(m, lanes, workers, w, b + 1);
    let x = workers[w].steps[b] as int;
    let y = workers[w].steps[b + 1] as int;
    let n = m.steps.len();
    if r.0 == s.0 {
        assert(s.1 == r.1 + 1);
        let u = lane[r.0] as nat;
        lemma_members_shape(m, u, n);
        assert(m.unit_steps(u)[r.1] < m.unit_steps(u)[s.1]);
    } else {
        if s.0 < r.0 {
            lemma_offsets(units, lane, s.0 as nat, r.0 as nat);
            assert(false);
        }
        // The next entry opens the next unit, since no unit is empty.
        lemma_offsets(units, lane, (r.0 + 1) as nat, s.0 as nat);
        lemma_offsets(units, lane, r.0 as nat, (r.0 + 1) as nat);
        if r.0 + 1 < s.0 {
            assert(lanes[l][r.0 + 1] < m.unit_count());
            lemma_units(m, lane[r.0 + 1] as nat);
            assert(units[lane[r.0 + 1] as int].len() > 0);
            assert(false);
        }
        assert(lanes[l][r.0] == lane[r.0]);
        assert(rank[lanes[l][r.0] as int] < rank[lanes[l][r.0 + 1] as int]);
        lemma_rank_up(rank[m.unit(x) as int], rank[m.unit(y) as int], x as nat, y as nat, n);
    }
}

/// Every schedule that places the units of an inventory on workers in an order
/// that the predecessors allow is valid, provided that the inventory holds every
/// step once per CopperList, that its dependencies order by themselves all that
/// must be ordered, and that the pool has a worker for each lane in use.
pub proof fn proposed_plan_is_valid(
    m: InventoryModel,
    model: Model,
    lanes: Seq<Seq<usize>>,
    pool: Seq<char>,
    pools: Seq<ThreadPool>,
    shape: ShapeModel,
)
    requires
        shape.wf(),
        m.wf(),
        0 < m.steps.len() <= u32::MAX,
        m.refine_failure(m.steps.len()) is None,
        lists_of(model.units@) == all_units(m),
        complete(lanes, m.unit_count()),
        lanes.len() <= u32::MAX,
        orderable(m.unit_preds(), lanes),
        phases_ascend(m),
        complete_inventory(pooled(m, lane_workers(model, lanes, lanes.len()), pool), shape),
        orders_alone(pooled(m, lane_workers(model, lanes, lanes.len()), pool), shape),
        pool_threads(pools, pool) matches Some(threads) && lanes.len() <= threads,
    ensures
        valid(pooled(m, lane_workers(model, lanes, lanes.len()), pool), pools, shape),
{
    let workers = lane_workers(model, lanes, lanes.len());
    let p = pooled(m, workers, pool);
    lemma_workers(model, lanes, lanes.len());
    lemma_busy(lanes, lanes.len());
    lemma_busy_len(lanes, lanes.len());
    lemma_pooled_lists(m, lanes, workers, pool);
    let list = busy(lanes, lanes.len());
    lemma_runs_somewhere(m, lanes, workers, 0);
    assert(p.lanes.len() > 0);
    assert forall|l: int| 0 <= l < p.lanes.len() implies placed(pools, (#[trigger] p.lanes[l]).placement)
        && p.lanes[l].steps.len() > 0 by {
        let lane = lanes[list[l]];
        assert(lane.len() > 0);
        assert(lanes[list[l]][0] < m.unit_count());
        lemma_units(m, lane[0] as nat);
        let b = lemma_entry(all_units(m), lane, lane.len(), 0, 0);
        assert(p.lanes[l].steps == workers[l].steps);
    }
    assert forall|a: int, b: int, c: int, d: int, index: int| #[trigger]
        p.lists(a, b, index) && #[trigger] p.lists(c, d, index) implies a == c && b == d by {
        assert(runs(workers, a, b, index) && runs(workers, c, d, index));
        lemma_runs_once(m, lanes, workers, a, b, c, d);
    }
    assert forall|i: int| 0 <= i < p.steps.len() implies #[trigger] p.listed(i) by {
        let at = lemma_runs_somewhere(m, lanes, workers, i);
        assert(p.lanes[at.0].steps == workers[at.0].steps);
        assert(p.lists(at.0, at.1, i));
    }
    assert(complete_lanes(p, pools));
    lemma_pooled_acyclic(m, lanes, workers, pool);
    lemma_orders(p, shape);
}

proof fn lemma_busy_len(lanes: Seq<Seq<usize>>, n: nat)
    ensures
        busy(lanes, n).len() <= n,
    decreases n,
{
    if n > 0 {
        lemma_busy_len(lanes, (n - 1) as nat);
    }
}

// ---------------------------------------------------------------------------
// Exported inventories
// ---------------------------------------------------------------------------

/// A spelled-out precedence is an edge of the dependencies alone.
proof fn lemma_spelled_edge(p: PlanModel, shape: ShapeModel, d: CuPlanDependency)
    requires
        shape.wf(),
        shape.is_serial(p),
        shape.spells_out(d),
        known_dependencies(p),
        d.from < p.steps.len(),
    ensures
        precedes(bare(p).graph(), d.from as int, d.to as int, d.cycle_lag as int),
{
    let q = bare(p);
    assert(p.dependencies.contains(d));
    let i = p.dependencies.index_of(d);
    assert(q.dependencies[i] == d);
    assert(depends(q, q.dependencies.len() as int, d.from as int, d.to as int, d.cycle_lag as int));
    plan_edges(q, d.from as int, d.to as int, d.cycle_lag as int);
    let g = q.graph();
    let k = choose|k: int|
        0 <= k < g[d.from as int].len() && (#[trigger] g[d.from as int][k]).0 == d.to && g[d.from as int][k].1
            == d.cycle_lag;
    edge_precedes(g, d.from as int, k);
}

/// The steps of a component follow each other by the dependencies alone.
proof fn lemma_component_chain(p: PlanModel, shape: ShapeModel, c: int, i: int, j: int)
    requires
        shape.wf(),
        shape.is_serial(p),
        shape.keys.len() <= u32::MAX,
        known_dependencies(p),
        0 <= c < shape.components.len(),
        0 <= i < j < shape.components[c].len(),
    ensures
        precedes(bare(p).graph(), shape.components[c][i] as int, shape.components[c][j] as int, 0),
    decreases j - i,
{
    let list = shape.components[c];
    assert(list[j - 1] < shape.keys.len() && list[j] < shape.keys.len());
    let d = CuPlanDependency { from: list[j - 1] as u32, to: list[j] as u32, cycle_lag: 0 };
    assert(shape.state_follows(c, j - 1, d.from as int, d.to as int));
    lemma_spelled_edge(p, shape, d);
    if i < j - 1 {
        lemma_component_chain(p, shape, c, i, j - 1);
        precedence_is_transitive(bare(p).graph(), list[i] as int, list[j - 1] as int, list[j] as int, 0, 0);
    }
}

/// An exported plan spells out every precedence, so its dependencies order by
/// themselves all that must be ordered: its steps can be placed anywhere.
pub proof fn exported_plan_orders_alone(p: PlanModel, shape: ShapeModel)
    requires
        shape.wf(),
        shape.is_serial(p),
        shape.keys.no_duplicates(),
        shape.keys.len() <= u32::MAX,
    ensures
        complete_inventory(p, shape),
        orders_alone(p, shape),
{
    let q = bare(p);
    let n = shape.keys.len();
    assert forall|k: int, c: int| 0 <= k < n && 0 <= c < p.copperlists_per_cycle implies #[trigger] p.is_step(
        p.occurrence(shape.keys[k], c),
        shape.keys[k],
        c,
    ) by {
        assert(p.is_step(k, shape.keys[k], c));
    }
    assert forall|i: int| 0 <= i < p.steps.len() implies shape.keys.contains((#[trigger] p.steps[i]).key) by {
        assert(shape.keys[i] == p.steps[i].key);
    }
    assert forall|i: int, j: int| 0 <= i < j < p.steps.len() implies (#[trigger] p.steps[i]).key != (
    #[trigger] p.steps[j]).key by {
        assert(shape.keys[i] != shape.keys[j]);
    }
    assert(complete_inventory(p, shape));
    assert forall|k: int, c: int| 0 <= k < n && 0 <= c < p.copperlists_per_cycle implies #[trigger] q.occurrence(
        shape.keys[k],
        c,
    ) == k by {
        lemma_same_occurrence(p, shape, k, c);
        let i = p.occurrence(shape.keys[k], c);
        assert(p.is_step(i, shape.keys[k], c));
        assert(shape.keys[i] == shape.keys[k]);
    }
    assert(known_dependencies(p)) by {
        assert forall|d: int| 0 <= d < p.dependencies.len() implies (#[trigger] p.dependencies[d]).from < p.steps.len()
            && p.dependencies[d].to < p.steps.len() by {
            assert(p.dependencies.contains(p.dependencies[d]));
            lemma_spelled_range(shape, p.dependencies[d]);
        }
    }
    assert forall|r: int, c: int|
        #![trigger shape.required[r], q.occurrence(shape.keys[shape.required[r].0 as int], c)]
        0 <= r < shape.required.len() && 0 <= c < q.copperlists_per_cycle implies before(
        q,
        q.occurrence(shape.keys[shape.required[r].0 as int], c),
        q.occurrence(shape.keys[shape.required[r].1 as int], c),
    ) by {
        let (a, b) = shape.required[r];
        let d = CuPlanDependency { from: a as u32, to: b as u32, cycle_lag: 0 };
        assert(shape.required.contains((d.from as usize, d.to as usize)));
        lemma_spelled_edge(p, shape, d);
        assert(q.occurrence(shape.keys[a as int], c) == a);
        assert(q.occurrence(shape.keys[b as int], c) == b);
    }
    assert forall|k: int| 0 <= k < shape.components.len() implies exclusive(q, shape, #[trigger] shape.components[k]) by {
        let list = shape.components[k];
        let g = q.graph();
        assert forall|i: int| 0 <= i < list.len() implies #[trigger] call(q, shape, list, i, 0) == list[i] by {
            assert(shape.components[k][i] < n);
            assert(q.occurrence(shape.keys[list[i] as int], 0) == list[i]);
        }
        assert forall|i: int, j: int, c: int|
            #![trigger call(q, shape, list, i, c), call(q, shape, list, j, c)]
            0 <= i < list.len() && 0 <= j < list.len() && i != j && 0 <= c <= 0 implies before(
            q,
            call(q, shape, list, i, c),
            call(q, shape, list, j, c),
        ) || before(q, call(q, shape, list, j, c), call(q, shape, list, i, c)) by {
            assert(call(q, shape, list, i, 0) == list[i] && call(q, shape, list, j, 0) == list[j]);
            if i < j {
                lemma_component_chain(p, shape, k, i, j);
            } else {
                lemma_component_chain(p, shape, k, j, i);
            }
        }
        assert forall|i: int, j: int|
            #![trigger call(q, shape, list, i, 0), call(q, shape, list, j, 0)]
            0 <= i < list.len() && 0 <= j < list.len() implies precedes(
            q.graph(),
            call(q, shape, list, i, 0),
            call(q, shape, list, j, 0),
            1,
        ) by {
            let end = list.len() - 1;
            assert(shape.components[k][0] < n && shape.components[k][end] < n);
            let d = CuPlanDependency { from: list[end] as u32, to: list[0] as u32, cycle_lag: 1 };
            assert(shape.state_spans(k, d.to as int, d.from as int));
            lemma_spelled_edge(p, shape, d);
            assert(precedes(g, list[end] as int, list[0] as int, 1));
            if i < end {
                lemma_component_chain(p, shape, k, i, end);
                precedence_is_transitive(g, list[i] as int, list[end] as int, list[0] as int, 0, 1);
            }
            assert(precedes(g, list[i] as int, list[0] as int, 1));
            if j > 0 {
                lemma_component_chain(p, shape, k, 0, j);
                precedence_is_transitive(g, list[i] as int, list[0] as int, list[j] as int, 1, 0);
            }
        }
    }
}

} // verus!
