//! Periodic multicore schedules and their validation against a task graph.

use crate::error::failure_text;
use crate::error::CuError;
use crate::error::CuResult;
use crate::graph::acyclic;
use crate::graph::closed;
use crate::graph::graph_of;
use crate::graph::lemma_full;
use crate::graph::precedes;
use crate::graph::reaches;
use crate::graph::topological_order;
use crate::graph::walk_order;
use crate::graph::Graph;
use crate::strmap::StrMap;
use crate::text::dec;
use crate::text::push_dec;
use vstd::prelude::*;

verus! {

/// A repeating schedule for one mission, potentially spanning several CLs.
///
/// `steps` is an inventory: indices remain stable when an optimizer moves
/// steps between lanes. Each lane lists its exact execution order. Explicit
/// dependencies add precedence across lanes or schedule cycles. A cycle
/// advances CL ids by `copperlists_per_cycle`; each lane finishes its previous
/// cycle before beginning its next one. There is no global barrier between
/// cycles. The first cycle starts with earlier-cycle dependencies satisfied.
#[derive(Debug, PartialEq, Eq)]
pub struct CuMissionPlan {
    /// Number of consecutive CopperLists represented by one schedule cycle.
    pub copperlists_per_cycle: u32,
    /// Each concrete process step occurs once per CL in this inventory.
    pub steps: Vec<CuPlanStep>,
    /// Ordered work and placement for each logical execution lane.
    pub lanes: Vec<CuPlanLane>,
    /// Additional precedence edges. These order work; they do not change
    /// message wiring or transfer payloads between CopperLists.
    pub dependencies: Vec<CuPlanDependency>,
}

/// One occurrence of a concrete process step within a schedule cycle.
#[derive(Debug, PartialEq, Eq)]
pub struct CuPlanStep {
    /// Opaque stable identity exported from the generated process plan.
    pub key: String,
    /// Zero-based CopperList offset within the repeating cycle.
    pub copperlist: u32,
}

/// One sequential lane. Every inventory index must appear in exactly one lane.
#[derive(Debug, PartialEq, Eq)]
pub struct CuPlanLane {
    /// The execution context assigned to this lane.
    pub placement: CuPlanPlacement,
    /// Inventory indices in the order this lane executes them each cycle.
    pub steps: Vec<u32>,
}

/// Logical placement, separate from machine-specific CPU affinity.
///
/// Pool workers use the thread pool of that id. Sharing an affinity CPU does
/// not merge workers or imply precedence.
#[derive(Debug, PartialEq, Eq)]
pub enum CuPlanPlacement {
    /// The application's main execution context.
    Main,
    /// A logical worker in an explicitly configured thread pool.
    Worker { pool: String, index: u32 },
}

/// Precedence from `from` to `to`, addressed by inventory index.
///
/// For cycle `n`, `to(n)` waits for `from(n - cycle_lag)`. Zero means the
/// same cycle; one can express state reuse across the cycle boundary.
#[derive(Clone, Copy, Debug, PartialEq, Eq, PartialOrd, Ord)]
pub struct CuPlanDependency {
    /// Index of the predecessor occurrence in the step inventory.
    pub from: u32,
    /// Index of the dependent occurrence in the step inventory.
    pub to: u32,
    /// Number of schedule cycles between predecessor and dependent.
    pub cycle_lag: u32,
}

/// A configured pool of worker threads.
#[derive(Debug, PartialEq, Eq)]
pub struct ThreadPool {
    pub id: String,
    pub threads: usize,
}

/// What a schedule has to respect: the process steps of one CopperList by
/// index, the pairs of steps that must follow each other within it, and the
/// steps that share one mutable component.
#[derive(Debug, PartialEq, Eq)]
pub struct PlanShape {
    pub keys: Vec<String>,
    pub required: Vec<(usize, usize)>,
    pub components: Vec<Vec<usize>>,
}

/// What a schedule says.
pub struct PlanModel {
    pub copperlists_per_cycle: u32,
    pub steps: Seq<StepModel>,
    pub lanes: Seq<LaneModel>,
    pub dependencies: Seq<CuPlanDependency>,
}

/// What an inventory entry says.
pub struct StepModel {
    pub key: Seq<char>,
    pub copperlist: u32,
}

/// What a lane says.
pub struct LaneModel {
    pub placement: PlacementModel,
    pub steps: Seq<u32>,
}

/// What a placement says.
pub enum PlacementModel {
    Main,
    Worker { pool: Seq<char>, index: u32 },
}

/// What a shape says.
pub struct ShapeModel {
    pub keys: Seq<Seq<char>>,
    pub required: Seq<(usize, usize)>,
    pub components: Seq<Seq<usize>>,
}

impl View for CuPlanStep {
    type V = StepModel;

    open spec fn view(&self) -> StepModel {
        StepModel { key: self.key@, copperlist: self.copperlist }
    }
}

impl View for CuPlanPlacement {
    type V = PlacementModel;

    open spec fn view(&self) -> PlacementModel {
        match *self {
            CuPlanPlacement::Main => PlacementModel::Main,
            CuPlanPlacement::Worker { pool, index } => PlacementModel::Worker { pool: pool@, index },
        }
    }
}

impl View for CuPlanLane {
    type V = LaneModel;

    open spec fn view(&self) -> LaneModel {
        LaneModel { placement: self.placement@, steps: self.steps@ }
    }
}

impl View for CuMissionPlan {
    type V = PlanModel;

    open spec fn view(&self) -> PlanModel {
        PlanModel {
            copperlists_per_cycle: self.copperlists_per_cycle,
            steps: Seq::new(self.steps@.len(), |i: int| self.steps@[i]@),
            lanes: Seq::new(self.lanes@.len(), |l: int| self.lanes@[l]@),
            dependencies: self.dependencies@,
        }
    }
}

impl View for PlanShape {
    type V = ShapeModel;

    open spec fn view(&self) -> ShapeModel {
        ShapeModel {
            keys: texts(self.keys@),
            required: self.required@,
            components: Seq::new(self.components@.len(), |c: int| self.components@[c]@),
        }
    }
}

impl Clone for CuPlanStep {
    fn clone(&self) -> (r: Self)
        ensures
            r == *self,
    {
        CuPlanStep { key: self.key.clone(), copperlist: self.copperlist }
    }
}

impl Clone for CuPlanPlacement {
    fn clone(&self) -> (r: Self)
        ensures
            r == *self,
    {
        match self {
            CuPlanPlacement::Main => CuPlanPlacement::Main,
            CuPlanPlacement::Worker { pool, index } => CuPlanPlacement::Worker { pool: pool.clone(), index: *index },
        }
    }
}

impl Clone for CuPlanLane {
    fn clone(&self) -> (r: Self)
        ensures
            r@ == self@,
    {
        let r = CuPlanLane { placement: self.placement.clone(), steps: self.steps.clone() };
        assert(r.steps@ =~= self.steps@);
        r
    }
}

impl Clone for CuMissionPlan {
    fn clone(&self) -> (r: Self)
        ensures
            r@ == self@,
    {
        let r = CuMissionPlan {
            copperlists_per_cycle: self.copperlists_per_cycle,
            steps: self.steps.clone(),
            lanes: self.lanes.clone(),
            dependencies: self.dependencies.clone(),
        };
        assert(r@.steps =~= self@.steps);
        assert(r@.lanes =~= self@.lanes) by {
            assert forall|l: int| 0 <= l < self.lanes@.len() implies r.lanes@[l]@ == self.lanes@[l]@ by {
                assert(cloned::<CuPlanLane>(self.lanes@[l], r.lanes@[l]));
            }
        }
        assert(r@.dependencies =~= self@.dependencies);
        r
    }
}

impl ShapeModel {
    /// Whether every step index is one of a key, and the steps of each component
    /// ascend.
    pub open spec fn wf(self) -> bool {
        &&& forall|i: int|
            0 <= i < self.required.len() ==> (#[trigger] self.required[i]).0 < self.keys.len() && self.required[i].1
                < self.keys.len()
        &&& forall|c: int, i: int|
            0 <= c < self.components.len() && 0 <= i < self.components[c].len() ==> #[trigger] self.components[c][i]
                < self.keys.len()
        &&& forall|c: int| 0 <= c < self.components.len() ==> ascending(#[trigger] self.components[c])
    }
}

/// Whether numbers ascend strictly.
pub open spec fn ascending(list: Seq<usize>) -> bool {
    forall|i: int, j: int| 0 <= i < j < list.len() ==> #[trigger] list[i] < #[trigger] list[j]
}

/// The texts of a list of strings.
pub open spec fn texts(list: Seq<String>) -> Seq<Seq<char>> {
    Seq::new(list.len(), |i: int| list[i]@)
}

/// The first of two failures.
pub open spec fn or_else(a: Option<Seq<char>>, b: Option<Seq<char>>) -> Option<Seq<char>> {
    if a is Some {
        a
    } else {
        b
    }
}

// ---------------------------------------------------------------------------
// Inventory
// ---------------------------------------------------------------------------

impl PlanModel {
    /// Whether inventory entry `i` is the step `key` of CopperList `cl`.
    pub open spec fn is_step(self, i: int, key: Seq<char>, cl: int) -> bool {
        &&& 0 <= i < self.steps.len()
        &&& self.steps[i].key == key
        &&& self.steps[i].copperlist == cl
    }

    /// The inventory entry of step `key` in CopperList `cl`.
    pub open spec fn occurrence(self, key: Seq<char>, cl: int) -> int {
        choose|i: int| self.is_step(i, key, cl)
    }

    /// What is wrong with inventory entry `i`, given the entries before it.
    pub open spec fn step_failure(self, keys: Seq<Seq<char>>, i: int) -> Option<Seq<char>> {
        let key = self.steps[i].key;
        let cl = self.steps[i].copperlist;
        if !keys.contains(key) {
            Some("Unknown process step '"@ + key + "'"@)
        } else if cl >= self.copperlists_per_cycle {
            Some("CopperList offset "@ + dec(cl as nat) + " is outside the schedule cycle"@)
        } else if exists|j: int| j < i && #[trigger] self.is_step(j, key, cl as int) {
            Some("Duplicate process step '"@ + key + "' in CopperList "@ + dec(cl as nat))
        } else {
            None
        }
    }

    /// What is wrong with the first `n` inventory entries.
    pub open spec fn inventory_failure(self, keys: Seq<Seq<char>>, n: nat) -> Option<Seq<char>>
        decreases n,
    {
        if n == 0 {
            None
        } else {
            or_else(self.inventory_failure(keys, (n - 1) as nat), self.step_failure(keys, n - 1))
        }
    }
}

pub(crate) proof fn lemma_inventory(p: PlanModel, keys: Seq<Seq<char>>, n: nat, i: int)
    requires
        p.inventory_failure(keys, n) is None,
        0 <= i < n,
    ensures
        p.step_failure(keys, i) is None,
    decreases n,
{
    if i + 1 < n {
        lemma_inventory(p, keys, (n - 1) as nat, i);
    }
}

proof fn lemma_inventory_later(p: PlanModel, keys: Seq<Seq<char>>, i: nat, n: nat)
    requires
        p.inventory_failure(keys, i) is Some,
        i <= n,
    ensures
        p.inventory_failure(keys, n) == p.inventory_failure(keys, i),
    decreases n,
{
    if i < n {
        lemma_inventory_later(p, keys, i, (n - 1) as nat);
    }
}

/// In a sound inventory each step occurs once per CopperList.
pub(crate) proof fn lemma_occurrence(p: PlanModel, keys: Seq<Seq<char>>, i: int)
    requires
        p.inventory_failure(keys, p.steps.len()) is None,
        0 <= i < p.steps.len(),
    ensures
        p.occurrence(p.steps[i].key, p.steps[i].copperlist as int) == i,
{
    let key = p.steps[i].key;
    let cl = p.steps[i].copperlist as int;
    assert(p.is_step(i, key, cl));
    let j = p.occurrence(key, cl);
    assert(p.is_step(j, key, cl));
    lemma_inventory(p, keys, p.steps.len(), i);
    lemma_inventory(p, keys, p.steps.len(), j);
}

proof fn lemma_slots_apart(c: int, a1: int, b1: int, a2: int, b2: int)
    by (nonlinear_arith)
    requires
        0 <= b1 < c,
        0 <= b2 < c,
        a1 * c + b1 == a2 * c + b2,
    ensures
        a1 == a2,
        b1 == b2,
{
}

proof fn lemma_slot_bound(k: int, c: int, a: int, b: int)
    by (nonlinear_arith)
    requires
        0 <= a < k,
        0 <= b < c,
    ensures
        0 <= a * c + b < k * c,
{
}

/// The index that `keys` gives each of its texts: the last one of that text.
pub open spec fn index_map(keys: Seq<Seq<char>>, n: nat) -> Map<Seq<char>, usize>
    decreases n,
{
    if n == 0 {
        Map::empty()
    } else {
        index_map(keys, (n - 1) as nat).insert(keys[n - 1], (n - 1) as usize)
    }
}

pub(crate) proof fn lemma_index_map(keys: Seq<Seq<char>>, n: nat)
    requires
        n <= keys.len() <= usize::MAX,
    ensures
        forall|t: Seq<char>| #[trigger]
            index_map(keys, n).dom().contains(t) ==> index_map(keys, n)[t] < n && keys[index_map(keys, n)[t] as int] == t,
        forall|i: int| 0 <= i < n ==> index_map(keys, n).dom().contains(#[trigger] keys[i]),
    decreases n,
{
    if n > 0 {
        let before = index_map(keys, (n - 1) as nat);
        let map = index_map(keys, n);
        lemma_index_map(keys, (n - 1) as nat);
        assert forall|t: Seq<char>| #[trigger] map.dom().contains(t) implies map[t] < n && keys[map[t] as int] == t by {
            if t != keys[n - 1] {
                assert(before.dom().contains(t));
            }
        }
        assert forall|i: int| 0 <= i < n implies map.dom().contains(#[trigger] keys[i]) by {
            if i < n - 1 {
                assert(before.dom().contains(keys[i]));
            }
        }
    }
}

/// The map from each key to its index.
pub(crate) fn index_keys(keys: &Vec<String>) -> (map: StrMap<usize>)
    ensures
        map.map() == index_map(texts(keys@), keys@.len()),
{
    let mut map: StrMap<usize> = StrMap::new();
    let mut i: usize = 0;
    while i < keys.len()
        invariant
            i <= keys@.len(),
            map.map() == index_map(texts(keys@), i as nat),
        decreases keys@.len() - i,
    {
        map.insert(keys[i].clone(), i);
        i = i + 1;
    }
    map
}

/// What the table of occurrences holds after the first `n` inventory entries.
spec fn table_inv(p: PlanModel, keys: Seq<Seq<char>>, table: Seq<Vec<Option<usize>>>, n: int) -> bool {
    let map = index_map(keys, keys.len());
    &&& table.len() == keys.len()
    &&& forall|k: int| 0 <= k < keys.len() ==> (#[trigger] table[k])@.len() == p.copperlists_per_cycle
    &&& forall|k: int, c: int|
        0 <= k < keys.len() && 0 <= c < p.copperlists_per_cycle ==> match #[trigger] table[k]@[c] {
            Some(j) => j < n && p.is_step(j as int, keys[k], c) && map[keys[k]] == k,
            None => true,
        }
    &&& forall|j: int|
        0 <= j < n ==> {
            let key = (#[trigger] p.steps[j]).key;
            &&& map.dom().contains(key)
            &&& p.steps[j].copperlist < p.copperlists_per_cycle
            &&& table[map[key] as int]@[p.steps[j].copperlist as int] == Some(j as usize)
        }
}

/// In a sound inventory of the expected size every step occurs in every
/// CopperList, and no two steps have the same key.
pub(crate) proof fn lemma_inventory_full(p: PlanModel, keys: Seq<Seq<char>>, k: int, c: int)
    requires
        p.inventory_failure(keys, p.steps.len()) is None,
        p.steps.len() == keys.len() * p.copperlists_per_cycle,
        p.steps.len() <= usize::MAX,
        keys.len() <= usize::MAX,
        0 <= k < keys.len(),
        0 <= c < p.copperlists_per_cycle,
    ensures
        exists|i: int| p.is_step(i, keys[k], c),
        p.is_step(p.occurrence(keys[k], c), keys[k], c),
        index_map(keys, keys.len())[keys[k]] == k,
{
    let map = index_map(keys, keys.len());
    let width = p.copperlists_per_cycle as int;
    let n = p.steps.len();
    lemma_index_map(keys, keys.len());
    let slots = Seq::new(n, |j: int| (map[p.steps[j].key] * width + p.steps[j].copperlist) as usize);
    assert forall|j: int| 0 <= j < n implies #[trigger] slots[j] < n && slots[j] == map[p.steps[j].key] * width
        + p.steps[j].copperlist && map.dom().contains(p.steps[j].key) && p.steps[j].copperlist < width by {
        lemma_inventory(p, keys, n, j);
        let key = p.steps[j].key;
        assert(map.dom().contains(keys[keys.index_of(key)]));
        lemma_slot_bound(keys.len() as int, width, map[key] as int, p.steps[j].copperlist as int);
    }
    assert forall|i: int, j: int| 0 <= i < j < n implies slots[i] != slots[j] by {
        if slots[i] == slots[j] {
            let a = p.steps[i];
            let b = p.steps[j];
            lemma_slots_apart(width, map[a.key] as int, a.copperlist as int, map[b.key] as int, b.copperlist as int);
            assert(map.dom().contains(a.key) && map.dom().contains(b.key));
            assert(p.is_step(i, b.key, b.copperlist as int));
            lemma_inventory(p, keys, n, j);
        }
    }
    assert(slots.no_duplicates());
    lemma_full(slots, n);
    lemma_slot_bound(keys.len() as int, width, k, c);
    let slot = (k * width + c) as usize;
    assert(slots.contains(slot));
    let j = choose|j: int| 0 <= j < slots.len() && slots[j] == slot;
    let s = p.steps[j];
    assert(map.dom().contains(s.key));
    lemma_slots_apart(width, map[s.key] as int, s.copperlist as int, k, c);
    assert(p.is_step(j, keys[k], c));
}

impl CuMissionPlan {
    /// Check the inventory against the process steps, and give for each step
    /// its occurrence in each CopperList.
    fn check_inventory(&self, keys: &Vec<String>) -> (r: CuResult<Vec<Vec<usize>>>)
        requires
            self.copperlists_per_cycle > 0,
            self@.steps.len() == keys@.len() * self.copperlists_per_cycle,
        ensures
            failure_text(r) == self@.inventory_failure(texts(keys@), self@.steps.len()),
            r matches Ok(table) ==> self@.is_table(texts(keys@), table@),
    {
        let ghost names = texts(keys@);
        let by_key: StrMap<usize> = index_keys(keys);
        let ghost map = index_map(names, names.len());
        let width: usize = self.copperlists_per_cycle as usize;
        let mut table: Vec<Vec<Option<usize>>> = Vec::new();
        let total: usize = keys.len();
        while table.len() < total
            invariant
                names == texts(keys@),
                total == names.len(),
                width == self.copperlists_per_cycle,
                table@.len() <= total,
                forall|k: int| 0 <= k < table@.len() ==> (#[trigger] table@[k])@.len() == width,
                forall|k: int, c: int| 0 <= k < table@.len() && 0 <= c < width ==> (#[trigger] table@[k]@[c]) is None,
            decreases total - table@.len(),
        {
            let mut row: Vec<Option<usize>> = Vec::new();
            while row.len() < width
                invariant
                    row@.len() <= width,
                    forall|c: int| 0 <= c < row@.len() ==> (#[trigger] row@[c]) is None,
                decreases width - row@.len(),
            {
                row.push(None);
            }
            table.push(row);
        }
        let count: usize = self.steps.len();
        let mut i: usize = 0;
        proof {
            lemma_index_map(names, names.len());
        }
        while i < count
            invariant
                count == self@.steps.len(),
                i <= count,
                names == texts(keys@),
                total == names.len(),
                width == self.copperlists_per_cycle,
                map == index_map(names, names.len()),
                by_key.map() == map,
                table_inv(self@, names, table@, i as int),
                self@.inventory_failure(names, i as nat) is None,
                forall|t: Seq<char>| #[trigger] map.dom().contains(t) ==> map[t] < total && names[map[t] as int] == t,
                forall|k: int| 0 <= k < total ==> map.dom().contains(#[trigger] names[k]),
            decreases count - i,
        {
            let step: &CuPlanStep = &self.steps[i];
            let ghost failure = self@.step_failure(names, i as int);
            proof {
                if failure is Some {
                    lemma_inventory_later(self@, names, (i + 1) as nat, count as nat);
                }
            }
            let found: Option<&usize> = by_key.get(step.key.as_str());
            if found.is_none() {
                proof {
                    if names.contains(step.key@) {
                        let k = names.index_of(step.key@);
                        assert(map.dom().contains(names[k]));
                    }
                }
                let mut m: String = "Unknown process step '".to_owned();
                m.append(step.key.as_str());
                m.append("'");
                return Err(CuError::new(m));
            }
            let k: usize = *found.unwrap();
            assert(names[k as int] == step.key@);
            if step.copperlist >= self.copperlists_per_cycle {
                let mut m: String = "CopperList offset ".to_owned();
                push_dec(&mut m, step.copperlist as u64);
                m.append(" is outside the schedule cycle");
                return Err(CuError::new(m));
            }
            let c: usize = step.copperlist as usize;
            if table[k][c].is_some() {
                proof {
                    let j = table@[k as int]@[c as int]->0;
                    assert(self@.is_step(j as int, step.key@, step.copperlist as int));
                }
                let mut m: String = "Duplicate process step '".to_owned();
                m.append(step.key.as_str());
                m.append("' in CopperList ");
                push_dec(&mut m, step.copperlist as u64);
                return Err(CuError::new(m));
            }
            let ghost before = table@;
            table[k][c] = Some(i);
            proof {
                assert forall|j: int| j < i implies !#[trigger] self@.is_step(j, step.key@, step.copperlist as int) by {
                    if self@.is_step(j, step.key@, step.copperlist as int) {
                        assert(before[k as int]@[c as int] == Some(j as usize));
                    }
                }
                assert forall|a: int, b: int| 0 <= a < total && 0 <= b < width implies #[trigger] table@[a]@[b] == (if a == k && b
                    == c { Some(i) } else { before[a]@[b] }) by {}
                assert forall|a: int| 0 <= a < total implies (#[trigger] table@[a])@.len() == width by {
                    assert(before[a]@.len() == width);
                }
                assert forall|j: int| 0 <= j < i + 1 implies {
                    let key = (#[trigger] self@.steps[j]).key;
                    &&& map.dom().contains(key)
                    &&& self@.steps[j].copperlist < self.copperlists_per_cycle
                    &&& table@[map[key] as int]@[self@.steps[j].copperlist as int] == Some(j as usize)
                } by {
                    if j < i {
                        let s = self@.steps[j];
                        assert(map.dom().contains(s.key));
                        assert(before[map[s.key] as int]@[s.copperlist as int] == Some(j as usize));
                    }
                }
            }
            i = i + 1;
        }
        let mut full: Vec<Vec<usize>> = Vec::new();
        while full.len() < total
            invariant
                count == self@.steps.len(),
                names == texts(keys@),
                total == names.len(),
                width == self.copperlists_per_cycle,
                count == names.len() * self.copperlists_per_cycle,
                table_inv(self@, names, table@, count as int),
                self@.inventory_failure(names, count as nat) is None,
                full@.len() <= total,
                forall|k: int| 0 <= k < full@.len() ==> (#[trigger] full@[k])@.len() == width,
                forall|k: int, c: int|
                    0 <= k < full@.len() && 0 <= c < width ==> self@.is_step(#[trigger] full@[k]@[c] as int, names[k], c)
                        && full@[k]@[c] == self@.occurrence(names[k], c),
            decreases total - full@.len(),
        {
            let k: usize = full.len();
            let mut row: Vec<usize> = Vec::new();
            while row.len() < width
                invariant
                    count == self@.steps.len(),
                    names == texts(keys@),
                total == names.len(),
                    width == self.copperlists_per_cycle,
                    count == names.len() * self.copperlists_per_cycle,
                    table_inv(self@, names, table@, count as int),
                    self@.inventory_failure(names, count as nat) is None,
                    k < total,
                    row@.len() <= width,
                    forall|c: int|
                        0 <= c < row@.len() ==> self@.is_step(#[trigger] row@[c] as int, names[k as int], c) && row@[c]
                            == self@.occurrence(names[k as int], c),
                decreases width - row@.len(),
            {
                let c: usize = row.len();
                proof {
                    lemma_inventory_full(self@, names, k as int, c as int);
                    let i = self@.occurrence(names[k as int], c as int);
                    assert(self@.steps[i].key == names[k as int]);
                }
                assert(table@[k as int]@[c as int] is Some);
                let j: usize = table[k][c].unwrap();
                proof {
                    lemma_occurrence(self@, names, j as int);
                }
                row.push(j);
            }
            full.push(row);
        }
        Ok(full)
    }
}

impl PlanModel {
    /// Whether `table` gives the occurrence of each key in each CopperList.
    spec fn is_table(self, keys: Seq<Seq<char>>, table: Seq<Vec<usize>>) -> bool {
        &&& table.len() == keys.len()
        &&& forall|k: int| 0 <= k < keys.len() ==> (#[trigger] table[k])@.len() == self.copperlists_per_cycle
        &&& forall|k: int, c: int|
            0 <= k < keys.len() && 0 <= c < self.copperlists_per_cycle ==> self.is_step(
                #[trigger] table[k]@[c] as int,
                keys[k],
                c,
            ) && table[k]@[c] == self.occurrence(keys[k], c)
    }
}

// ---------------------------------------------------------------------------
// Lanes
// ---------------------------------------------------------------------------

/// The number of workers in the first pool of that id.
pub open spec fn pool_threads(pools: Seq<ThreadPool>, id: Seq<char>) -> Option<nat>
    decreases pools.len(),
{
    if pools.len() == 0 {
        None
    } else if pools[0].id@ == id {
        Some(pools[0].threads as nat)
    } else {
        pool_threads(pools.drop_first(), id)
    }
}

/// What is wrong with a placement among the configured pools.
pub open spec fn placement_failure(pools: Seq<ThreadPool>, placement: PlacementModel) -> Option<Seq<char>> {
    match placement {
        PlacementModel::Main => None,
        PlacementModel::Worker { pool, index } => match pool_threads(pools, pool) {
            None => Some("Unknown worker pool '"@ + pool + "'"@),
            Some(threads) => if index >= threads {
                Some(
                    "Worker "@ + dec(index as nat) + " is outside pool '"@ + pool + "' ("@ + dec(threads) + " workers)"@,
                )
            } else {
                None
            },
        },
    }
}

impl PlanModel {
    /// Whether entry `b` of lane `a` is the inventory index `index`.
    pub open spec fn lists(self, a: int, b: int, index: int) -> bool {
        &&& 0 <= a < self.lanes.len()
        &&& 0 <= b < self.lanes[a].steps.len()
        &&& self.lanes[a].steps[b] == index
    }

    /// Whether a lane entry before entry `k` of lane `l` is `index`.
    pub open spec fn listed_before(self, l: int, k: int, index: int) -> bool {
        exists|a: int, b: int| #[trigger] self.lists(a, b, index) && (a < l || (a == l && b < k))
    }

    /// Whether some lane holds `index`.
    pub open spec fn listed(self, index: int) -> bool {
        exists|a: int, b: int| #[trigger] self.lists(a, b, index)
    }

    /// What is wrong with entry `k` of lane `l`.
    pub open spec fn entry_failure(self, l: int, k: int) -> Option<Seq<char>> {
        let index = self.lanes[l].steps[k];
        if index >= self.steps.len() {
            Some("Unknown lane step index "@ + dec(index as nat))
        } else if self.listed_before(l, k, index as int) {
            Some("Step index "@ + dec(index as nat) + " is assigned more than once"@)
        } else {
            None
        }
    }

    /// What is wrong with the first `n` entries of lane `l`.
    pub open spec fn entries_failure(self, l: int, n: nat) -> Option<Seq<char>>
        decreases n,
    {
        if n == 0 {
            None
        } else {
            or_else(self.entries_failure(l, (n - 1) as nat), self.entry_failure(l, n - 1))
        }
    }

    /// What is wrong with lane `l`, given the lanes before it.
    pub open spec fn lane_failure(self, pools: Seq<ThreadPool>, l: int) -> Option<Seq<char>> {
        let lane = self.lanes[l];
        if exists|j: int| 0 <= j < l && (#[trigger] self.lanes[j]).placement == lane.placement {
            Some("Two lanes cannot claim the same execution context"@)
        } else {
            or_else(
                placement_failure(pools, lane.placement),
                if lane.steps.len() == 0 {
                    Some("Execution lanes cannot be empty"@)
                } else {
                    self.entries_failure(l, lane.steps.len())
                },
            )
        }
    }

    /// What is wrong with the first `n` lanes.
    pub open spec fn lanes_failure(self, pools: Seq<ThreadPool>, n: nat) -> Option<Seq<char>>
        decreases n,
    {
        if n == 0 {
            None
        } else {
            or_else(self.lanes_failure(pools, (n - 1) as nat), self.lane_failure(pools, n - 1))
        }
    }

    /// What is wrong when an inventory entry is in no lane.
    pub open spec fn assignment_failure(self) -> Option<Seq<char>> {
        if exists|i: int| 0 <= i < self.steps.len() && !#[trigger] self.listed(i) {
            Some("Every process-step occurrence must be assigned to a lane"@)
        } else {
            None
        }
    }

    /// What is wrong when a dependency names no inventory entry.
    pub open spec fn dependency_failure(self) -> Option<Seq<char>> {
        if exists|d: int|
            0 <= d < self.dependencies.len() && ((#[trigger] self.dependencies[d]).from >= self.steps.len()
                || self.dependencies[d].to >= self.steps.len()) {
            Some("Dependency references an unknown step index"@)
        } else {
            None
        }
    }
}

/// The graph with one more edge.
pub open spec fn add_edge(g: Graph, from: int, to: usize, lag: u32) -> Graph {
    g.update(from, g[from].push((to, lag)))
}

/// The graph with the first `n` steps of a lane each followed by the next one.
pub open spec fn add_chain(g: Graph, steps: Seq<u32>, n: nat) -> Graph
    decreases n,
{
    if n == 0 {
        g
    } else {
        add_edge(add_chain(g, steps, (n - 1) as nat), steps[n - 1] as int, steps[n as int] as usize, 0)
    }
}

/// The graph with a lane in it: each step waits for the one before it, and the
/// first for the last one of the previous cycle.
pub open spec fn add_lane(g: Graph, steps: Seq<u32>) -> Graph {
    if steps.len() == 0 {
        g
    } else {
        add_edge(add_chain(g, steps, (steps.len() - 1) as nat), steps.last() as int, steps[0] as usize, 1)
    }
}

impl PlanModel {
    /// The precedence that the first `n` lanes impose.
    pub open spec fn lanes_graph(self, n: nat) -> Graph
        decreases n,
    {
        if n == 0 {
            Seq::new(self.steps.len(), |i: int| Seq::empty())
        } else {
            add_lane(self.lanes_graph((n - 1) as nat), self.lanes[n - 1].steps)
        }
    }

    /// The precedence that all lanes and the first `n` dependencies impose.
    pub open spec fn dependencies_graph(self, n: nat) -> Graph
        decreases n,
    {
        if n == 0 {
            self.lanes_graph(self.lanes.len())
        } else {
            let d = self.dependencies[n - 1];
            add_edge(self.dependencies_graph((n - 1) as nat), d.from as int, d.to as usize, d.cycle_lag)
        }
    }

    /// The precedence that the plan imposes on its inventory.
    pub open spec fn graph(self) -> Graph {
        self.dependencies_graph(self.dependencies.len())
    }
}

/// Append one edge.
pub(crate) fn push_edge(edges: &mut Vec<Vec<(usize, u32)>>, from: usize, to: usize, lag: u32)
    requires
        closed(graph_of(old(edges)@)),
        from < old(edges)@.len(),
        to < old(edges)@.len(),
    ensures
        graph_of(final(edges)@) == add_edge(graph_of(old(edges)@), from as int, to, lag),
        final(edges)@.len() == old(edges)@.len(),
        closed(graph_of(final(edges)@)),
{
    let ghost before = graph_of(edges@);
    edges[from].push((to, lag));
    proof {
        let after = add_edge(before, from as int, to, lag);
        assert forall|i: int| 0 <= i < edges@.len() implies graph_of(edges@)[i] == after[i] by {}
        assert(graph_of(edges@) =~= after);
        assert forall|u: int, k: int| 0 <= u < after.len() && 0 <= k < after[u].len() implies (#[trigger] after[u][k]).0
            < after.len() by {
            if u != from || k < before[u].len() {
                assert(after[u][k] == before[u][k]);
            }
        }
    }
}

/// Append the edges of a lane.
fn push_lane(edges: &mut Vec<Vec<(usize, u32)>>, steps: &Vec<u32>)
    requires
        closed(graph_of(old(edges)@)),
        forall|k: int| 0 <= k < steps@.len() ==> (#[trigger] steps@[k]) < old(edges)@.len(),
    ensures
        graph_of(final(edges)@) == add_lane(graph_of(old(edges)@), steps@),
        final(edges)@.len() == old(edges)@.len(),
        closed(graph_of(final(edges)@)),
{
    let n: usize = steps.len();
    if n == 0 {
        return ;
    }
    let ghost before = graph_of(edges@);
    let mut k: usize = 1;
    while k < n
        invariant
            1 <= k <= n,
            n == steps@.len(),
            edges@.len() == before.len(),
            closed(graph_of(edges@)),
            forall|k: int| 0 <= k < steps@.len() ==> (#[trigger] steps@[k]) < edges@.len(),
            graph_of(edges@) == add_chain(before, steps@, (k - 1) as nat),
        decreases n - k,
    {
        assert(steps@[k - 1] < edges@.len() && steps@[k as int] < edges@.len());
        push_edge(edges, steps[k - 1] as usize, steps[k] as usize, 0);
        k = k + 1;
    }
    assert(steps@[n - 1] < edges@.len() && steps@[0] < edges@.len());
    push_edge(edges, steps[n - 1] as usize, steps[0] as usize, 1);
}

/// Whether two lanes claim the same execution context.
fn placements_equal(a: &CuPlanPlacement, b: &CuPlanPlacement) -> (r: bool)
    ensures
        r == (a@ == b@),
{
    match (a, b) {
        (CuPlanPlacement::Main, CuPlanPlacement::Main) => true,
        (CuPlanPlacement::Worker { pool: p, index: i }, CuPlanPlacement::Worker { pool: q, index: j }) => *p == *q && *i
            == *j,
        _ => false,
    }
}

/// Check that a placement is among the configured pools.
fn check_placement(pools: &Vec<ThreadPool>, placement: &CuPlanPlacement) -> (r: CuResult<()>)
    ensures
        failure_text(r) == placement_failure(pools@, placement@),
{
    match placement {
        CuPlanPlacement::Main => Ok(()),
        CuPlanPlacement::Worker { pool, index } => {
            let mut i: usize = 0;
            assert(pools@.skip(0) =~= pools@);
            while i < pools.len()
                invariant
                    i <= pools@.len(),
                    placement@ == (PlacementModel::Worker { pool: pool@, index: *index }),
                    pool_threads(pools@, pool@) == pool_threads(pools@.skip(i as int), pool@),
                decreases pools@.len() - i,
            {
                assert(pools@.skip(i as int)[0] == pools@[i as int]);
                assert(pools@.skip(i as int).drop_first() =~= pools@.skip(i + 1));
                if pools[i].id == *pool {
                    if *index as u64 >= pools[i].threads as u64 {
                        let mut m: String = "Worker ".to_owned();
                        push_dec(&mut m, *index as u64);
                        m.append(" is outside pool '");
                        m.append(pool.as_str());
                        m.append("' (");
                        push_dec(&mut m, pools[i].threads as u64);
                        m.append(" workers)");
                        return Err(CuError::new(m));
                    }
                    return Ok(());
                }
                i = i + 1;
            }
            let mut m: String = "Unknown worker pool '".to_owned();
            m.append(pool.as_str());
            m.append("'");
            Err(CuError::new(m))
        },
    }
}

proof fn lemma_entries_later(p: PlanModel, l: int, i: nat, n: nat)
    requires
        p.entries_failure(l, i) is Some,
        i <= n,
    ensures
        p.entries_failure(l, n) == p.entries_failure(l, i),
    decreases n,
{
    if i < n {
        lemma_entries_later(p, l, i, (n - 1) as nat);
    }
}

pub(crate) proof fn lemma_entries(p: PlanModel, l: int, n: nat, k: int)
    requires
        p.entries_failure(l, n) is None,
        0 <= k < n,
    ensures
        p.entry_failure(l, k) is None,
    decreases n,
{
    if k + 1 < n {
        lemma_entries(p, l, (n - 1) as nat, k);
    }
}

proof fn lemma_lanes_later(p: PlanModel, pools: Seq<ThreadPool>, i: nat, n: nat)
    requires
        p.lanes_failure(pools, i) is Some,
        i <= n,
    ensures
        p.lanes_failure(pools, n) == p.lanes_failure(pools, i),
    decreases n,
{
    if i < n {
        lemma_lanes_later(p, pools, i, (n - 1) as nat);
    }
}

pub(crate) proof fn lemma_lanes(p: PlanModel, pools: Seq<ThreadPool>, n: nat, l: int)
    requires
        p.lanes_failure(pools, n) is None,
        0 <= l < n,
    ensures
        p.lane_failure(pools, l) is None,
    decreases n,
{
    if l + 1 < n {
        lemma_lanes(p, pools, (n - 1) as nat, l);
    }
}

impl CuMissionPlan {
    /// Check the entries of one lane and mark them as assigned.
    fn check_entries(&self, l: usize, assigned: &mut Vec<bool>) -> (r: CuResult<()>)
        requires
            l < self@.lanes.len(),
            old(assigned)@.len() == self@.steps.len(),
            forall|i: int| 0 <= i < self@.steps.len() ==> #[trigger] old(assigned)@[i] == self@.listed_before(l as int, 0, i),
        ensures
            failure_text(r) == self@.entries_failure(l as int, self@.lanes[l as int].steps.len()),
            final(assigned)@.len() == self@.steps.len(),
            r is Ok ==> forall|i: int|
                0 <= i < self@.steps.len() ==> #[trigger] final(assigned)@[i] == self@.listed_before(l + 1, 0, i),
    {
        let steps: &Vec<u32> = &self.lanes[l].steps;
        let n: usize = steps.len();
        let mut k: usize = 0;
        while k < n
            invariant
                k <= n,
                n == steps@.len(),
                l < self@.lanes.len(),
                steps@ == self@.lanes[l as int].steps,
                assigned@.len() == self@.steps.len(),
                forall|i: int|
                    0 <= i < self@.steps.len() ==> #[trigger] assigned@[i] == self@.listed_before(l as int, k as int, i),
                self@.entries_failure(l as int, k as nat) is None,
            decreases n - k,
        {
            let index: u32 = steps[k];
            let ghost failure = self@.entry_failure(l as int, k as int);
            proof {
                if failure is Some {
                    lemma_entries_later(self@, l as int, (k + 1) as nat, n as nat);
                }
            }
            if index as usize >= assigned.len() {
                let mut m: String = "Unknown lane step index ".to_owned();
                push_dec(&mut m, index as u64);
                return Err(CuError::new(m));
            }
            if assigned[index as usize] {
                let mut m: String = "Step index ".to_owned();
                push_dec(&mut m, index as u64);
                m.append(" is assigned more than once");
                return Err(CuError::new(m));
            }
            let ghost before = assigned@;
            assigned.set(index as usize, true);
            proof {
                assert(self@.lists(l as int, k as int, index as int));
                assert forall|i: int| 0 <= i < self@.steps.len() implies #[trigger] assigned@[i] == self@.listed_before(
                    l as int,
                    k + 1,
                    i,
                ) by {
                    assert(before[i] == self@.listed_before(l as int, k as int, i));
                    if self@.listed_before(l as int, k as int, i) {
                        let (a, b) = choose|a: int, b: int| #[trigger]
                            self@.lists(a, b, i) && (a < l || (a == l && b < k));
                        assert(self@.lists(a, b, i));
                    }
                    if self@.listed_before(l as int, k + 1, i) && i != index {
                        let (a, b) = choose|a: int, b: int| #[trigger]
                            self@.lists(a, b, i) && (a < l || (a == l && b < k + 1));
                        assert(self@.lists(a, b, i));
                        assert(b != k || a != l);
                    }
                }
            }
            k = k + 1;
        }
        proof {
            assert forall|i: int| 0 <= i < self@.steps.len() implies #[trigger] assigned@[i] == self@.listed_before(
                l + 1,
                0,
                i,
            ) by {
                if self@.listed_before(l as int, n as int, i) {
                    let (a, b) = choose|a: int, b: int| #[trigger]
                        self@.lists(a, b, i) && (a < l || (a == l && b < n));
                    assert(self@.lists(a, b, i));
                }
                if self@.listed_before(l + 1, 0, i) {
                    let (a, b) = choose|a: int, b: int| #[trigger]
                        self@.lists(a, b, i) && (a < l + 1 || (a == l + 1 && b < 0));
                    assert(self@.lists(a, b, i));
                }
            }
        }
        Ok(())
    }

    /// Check the lanes, and give the precedence they impose.
    fn check_lanes(&self, pools: &Vec<ThreadPool>) -> (r: CuResult<Vec<Vec<(usize, u32)>>>)
        ensures
            failure_text(r) == or_else(
                self@.lanes_failure(pools@, self@.lanes.len()),
                self@.assignment_failure(),
            ),
            r matches Ok(edges) ==> {
                &&& graph_of(edges@) == self@.lanes_graph(self@.lanes.len())
                &&& edges@.len() == self@.steps.len()
                &&& closed(graph_of(edges@))
            },
    {
        let count: usize = self.steps.len();
        let lanes: usize = self.lanes.len();
        let mut assigned: Vec<bool> = Vec::new();
        let mut edges: Vec<Vec<(usize, u32)>> = Vec::new();
        while assigned.len() < count
            invariant
                assigned@.len() <= count,
                assigned@.len() == edges@.len(),
                forall|i: int| 0 <= i < assigned@.len() ==> !#[trigger] assigned@[i],
                forall|i: int| 0 <= i < edges@.len() ==> (#[trigger] edges@[i])@.len() == 0,
            decreases count - assigned@.len(),
        {
            assigned.push(false);
            edges.push(Vec::new());
        }
        proof {
            assert(graph_of(edges@) =~= self@.lanes_graph(0)) by {
                assert forall|i: int| 0 <= i < count implies graph_of(edges@)[i] == Seq::<(usize, u32)>::empty() by {
                    assert(edges@[i]@ =~= Seq::empty());
                }
            }
        }
        let mut l: usize = 0;
        while l < lanes
            invariant
                l <= lanes,
                lanes == self@.lanes.len(),
                count == self@.steps.len(),
                assigned@.len() == count,
                edges@.len() == count,
                forall|i: int| 0 <= i < count ==> #[trigger] assigned@[i] == self@.listed_before(l as int, 0, i),
                self@.lanes_failure(pools@, l as nat) is None,
                graph_of(edges@) == self@.lanes_graph(l as nat),
                closed(graph_of(edges@)),
            decreases lanes - l,
        {
            let lane: &CuPlanLane = &self.lanes[l];
            proof {
                if self@.lane_failure(pools@, l as int) is Some {
                    lemma_lanes_later(self@, pools@, (l + 1) as nat, lanes as nat);
                }
            }
            let mut j: usize = 0;
            while j < l
                invariant
                    j <= l < self@.lanes.len(),
                    lane@ == self@.lanes[l as int],
                    self@.lanes_failure(pools@, l as nat) is None,
                    self@.lane_failure(pools@, l as int) is Some ==> self@.lanes_failure(pools@, self@.lanes.len())
                        == self@.lane_failure(pools@, l as int),
                    forall|i: int| 0 <= i < j ==> (#[trigger] self@.lanes[i]).placement != lane.placement@,
                decreases l - j,
            {
                if placements_equal(&self.lanes[j].placement, &lane.placement) {
                    assert(self@.lanes[j as int].placement == lane.placement@);
                    return Err(CuError::of("Two lanes cannot claim the same execution context"));
                }
                j = j + 1;
            }
            match check_placement(pools, &lane.placement) {
                Err(e) => {
                    return Err(e);
                },
                Ok(_) => {},
            }
            if lane.steps.len() == 0 {
                return Err(CuError::of("Execution lanes cannot be empty"));
            }
            match self.check_entries(l, &mut assigned) {
                Err(e) => {
                    return Err(e);
                },
                Ok(_) => {},
            }
            proof {
                assert forall|k: int| 0 <= k < lane.steps@.len() implies (#[trigger] lane.steps@[k]) < edges@.len() by {
                    lemma_entries(self@, l as int, lane.steps@.len(), k);
                }
            }
            push_lane(&mut edges, &lane.steps);
            l = l + 1;
        }
        proof {
            assert forall|i: int| 0 <= i < count implies #[trigger] assigned@[i] == self@.listed(i) by {
                if self@.listed(i) {
                    let (a, b) = choose|a: int, b: int| #[trigger] self@.lists(a, b, i);
                    assert(self@.lists(a, b, i) && a < lanes);
                    assert(self@.listed_before(lanes as int, 0, i));
                }
            }
        }
        let mut i: usize = 0;
        while i < count
            invariant
                i <= count,
                count == self@.steps.len(),
                assigned@.len() == count,
                self@.lanes_failure(pools@, self@.lanes.len()) is None,
                forall|i: int| 0 <= i < count ==> #[trigger] assigned@[i] == self@.listed(i),
                forall|j: int| 0 <= j < i ==> #[trigger] self@.listed(j),
            decreases count - i,
        {
            assert(assigned@[i as int] == self@.listed(i as int));
            if !assigned[i] {
                return Err(CuError::of("Every process-step occurrence must be assigned to a lane"));
            }
            i = i + 1;
        }
        Ok(edges)
    }
}

// ---------------------------------------------------------------------------
// Precedence
// ---------------------------------------------------------------------------

impl PlanModel {
    /// What is wrong when inventory entry `to` need not wait for `from` of
    /// `lag` cycles earlier.
    pub open spec fn precedence_failure(self, from: int, to: int, lag: nat) -> Option<Seq<char>> {
        if precedes(self.graph(), from, to, lag as int) {
            None
        } else {
            Some(
                "Missing precedence: '"@ + self.steps[from].key + "' (CL "@ + dec(self.steps[from].copperlist as nat)
                    + ") must finish before '"@ + self.steps[to].key + "' (CL "@ + dec(
                    self.steps[to].copperlist as nat,
                ) + ", cycle lag "@ + dec(lag) + ")"@,
            )
        }
    }

    /// What is wrong with the first `n` required pairs in CopperList `cl`.
    pub open spec fn pairs_failure(self, shape: ShapeModel, cl: int, n: nat) -> Option<Seq<char>>
        decreases n,
    {
        if n == 0 {
            None
        } else {
            let (from, to) = shape.required[n - 1];
            or_else(
                self.pairs_failure(shape, cl, (n - 1) as nat),
                self.precedence_failure(
                    self.occurrence(shape.keys[from as int], cl),
                    self.occurrence(shape.keys[to as int], cl),
                    0,
                ),
            )
        }
    }

    /// What is wrong with the required pairs in the first `n` CopperLists.
    pub open spec fn required_failure(self, shape: ShapeModel, n: nat) -> Option<Seq<char>>
        decreases n,
    {
        if n == 0 {
            None
        } else {
            or_else(
                self.required_failure(shape, (n - 1) as nat),
                self.pairs_failure(shape, n - 1, shape.required.len()),
            )
        }
    }

    /// The place of an inventory entry in the topological walk of the plan.
    pub open spec fn rank(self, i: int) -> int {
        walk_order(self.graph()).index_of(i as usize)
    }

    /// `s`, ordered by place, with `x` put behind the entries of no later place.
    pub open spec fn insert_ranked(self, s: Seq<usize>, x: usize) -> Seq<usize>
        decreases s.len(),
    {
        if s.len() == 0 {
            seq![x]
        } else if self.rank(s.last() as int) <= self.rank(x as int) {
            s.push(x)
        } else {
            self.insert_ranked(s.drop_last(), x).push(s.last())
        }
    }

    /// The calls of a component's first `n` steps in CopperList `cl`, ordered
    /// by their place in the topological walk.
    pub open spec fn calls_of(self, shape: ShapeModel, component: Seq<usize>, cl: int, n: nat) -> Seq<usize>
        decreases n,
    {
        if n == 0 {
            Seq::empty()
        } else {
            self.insert_ranked(
                self.calls_of(shape, component, cl, (n - 1) as nat),
                self.occurrence(shape.keys[component[n - 1] as int], cl) as usize,
            )
        }
    }

    /// The calls of a component in CopperList `cl`, ordered by their place in
    /// the topological walk.
    pub open spec fn calls(self, shape: ShapeModel, component: Seq<usize>, cl: int) -> Seq<usize> {
        self.calls_of(shape, component, cl, component.len())
    }

    /// What is wrong with the first `n` consecutive pairs of `s`.
    pub open spec fn chain_failure(self, s: Seq<usize>, n: nat) -> Option<Seq<char>>
        decreases n,
    {
        if n == 0 {
            None
        } else {
            or_else(
                self.chain_failure(s, (n - 1) as nat),
                self.precedence_failure(s[n - 1] as int, s[n as int] as int, 0),
            )
        }
    }

    /// What is wrong with a component's calls within the first `n` CopperLists.
    pub open spec fn within_failure(self, shape: ShapeModel, component: Seq<usize>, n: nat) -> Option<Seq<char>>
        decreases n,
    {
        if n == 0 {
            None
        } else {
            or_else(
                self.within_failure(shape, component, (n - 1) as nat),
                self.chain_failure(self.calls(shape, component, n - 1), (component.len() - 1) as nat),
            )
        }
    }

    /// What is wrong with a component's calls from one to the next of the
    /// CopperLists up to `n`.
    pub open spec fn between_failure(self, shape: ShapeModel, component: Seq<usize>, n: nat) -> Option<Seq<char>>
        decreases n,
    {
        if n == 0 {
            None
        } else {
            or_else(
                self.between_failure(shape, component, (n - 1) as nat),
                self.precedence_failure(
                    self.calls(shape, component, n - 1).last() as int,
                    self.calls(shape, component, n as int)[0] as int,
                    0,
                ),
            )
        }
    }

    /// What is wrong with the calls of a component: they have one mutable
    /// state, so they are ordered within each CopperList, from each CopperList
    /// to the next, and from the last of a cycle to the first of the next.
    pub open spec fn component_failure(self, shape: ShapeModel, component: Seq<usize>) -> Option<Seq<char>> {
        if component.len() == 0 {
            None
        } else {
            let last = (self.copperlists_per_cycle - 1) as nat;
            or_else(
                self.within_failure(shape, component, self.copperlists_per_cycle as nat),
                or_else(
                    self.between_failure(shape, component, last),
                    self.precedence_failure(
                        self.calls(shape, component, last as int).last() as int,
                        self.calls(shape, component, 0)[0] as int,
                        1,
                    ),
                ),
            )
        }
    }

    /// What is wrong with the calls of the first `n` components.
    pub open spec fn components_failure(self, shape: ShapeModel, n: nat) -> Option<Seq<char>>
        decreases n,
    {
        if n == 0 {
            None
        } else {
            or_else(
                self.components_failure(shape, (n - 1) as nat),
                self.component_failure(shape, shape.components[n - 1]),
            )
        }
    }

    /// The first thing that is wrong with a plan, nothing for a valid one.
    pub open spec fn failure(self, pools: Seq<ThreadPool>, shape: ShapeModel) -> Option<Seq<char>> {
        let expected = shape.keys.len() * self.copperlists_per_cycle as nat;
        if self.copperlists_per_cycle == 0 {
            Some("copperlists_per_cycle must be positive"@)
        } else if expected > usize::MAX {
            Some("Execution plan step count overflow"@)
        } else if self.steps.len() != expected {
            Some("Expected "@ + dec(expected) + " process-step occurrences, found "@ + dec(self.steps.len()))
        } else {
            or_else(self.inventory_failure(shape.keys, self.steps.len()), self.order_failure(pools, shape))
        }
    }

    /// The first thing that is wrong with a plan whose inventory is sound.
    pub open spec fn order_failure(self, pools: Seq<ThreadPool>, shape: ShapeModel) -> Option<Seq<char>> {
        if self.lanes.len() == 0 {
            Some("Execution plan needs at least one lane"@)
        } else {
            or_else(
                self.lanes_failure(pools, self.lanes.len()),
                or_else(
                    self.assignment_failure(),
                    or_else(
                        self.dependency_failure(),
                        if !acyclic(self.graph()) {
                            Some("Execution plan contains a dependency/lane-order cycle"@)
                        } else {
                            or_else(
                                self.required_failure(shape, self.copperlists_per_cycle as nat),
                                self.components_failure(shape, shape.components.len()),
                            )
                        },
                    ),
                ),
            )
        }
    }
}

impl CuMissionPlan {
    /// Add the dependencies to the precedence that the lanes impose.
    fn push_dependencies(&self, edges: &mut Vec<Vec<(usize, u32)>>) -> (r: CuResult<()>)
        requires
            graph_of(old(edges)@) == self@.lanes_graph(self@.lanes.len()),
            old(edges)@.len() == self@.steps.len(),
            closed(graph_of(old(edges)@)),
        ensures
            failure_text(r) == self@.dependency_failure(),
            r is Ok ==> {
                &&& graph_of(final(edges)@) == self@.graph()
                &&& final(edges)@.len() == self@.steps.len()
                &&& closed(graph_of(final(edges)@))
            },
    {
        let n: usize = self.dependencies.len();
        let mut d: usize = 0;
        while d < n
            invariant
                d <= n,
                n == self@.dependencies.len(),
                edges@.len() == self@.steps.len(),
                graph_of(edges@) == self@.dependencies_graph(d as nat),
                closed(graph_of(edges@)),
                forall|i: int|
                    0 <= i < d ==> (#[trigger] self@.dependencies[i]).from < self@.steps.len() && self@.dependencies[i].to
                        < self@.steps.len(),
            decreases n - d,
        {
            let dependency: CuPlanDependency = self.dependencies[d];
            if dependency.from as usize >= edges.len() || dependency.to as usize >= edges.len() {
                assert(self@.dependencies[d as int] == dependency);
                return Err(CuError::of("Dependency references an unknown step index"));
            }
            push_edge(edges, dependency.from as usize, dependency.to as usize, dependency.cycle_lag);
            d = d + 1;
        }
        Ok(())
    }

    /// Check that inventory entry `to` waits for `from` of `lag` cycles earlier.
    fn require(&self, edges: &Vec<Vec<(usize, u32)>>, from: usize, to: usize, lag: u32) -> (r: CuResult<()>)
        requires
            graph_of(edges@) == self@.graph(),
            closed(self@.graph()),
            edges@.len() == self@.steps.len(),
            from < self@.steps.len(),
            to < self@.steps.len(),
        ensures
            failure_text(r) == self@.precedence_failure(from as int, to as int, lag as nat),
    {
        if reaches(edges, from, to, lag) {
            return Ok(());
        }
        let mut m: String = "Missing precedence: '".to_owned();
        m.append(self.steps[from].key.as_str());
        m.append("' (CL ");
        push_dec(&mut m, self.steps[from].copperlist as u64);
        m.append(") must finish before '");
        m.append(self.steps[to].key.as_str());
        m.append("' (CL ");
        push_dec(&mut m, self.steps[to].copperlist as u64);
        m.append(", cycle lag ");
        push_dec(&mut m, lag as u64);
        m.append(")");
        Err(CuError::new(m))
    }
}

proof fn lemma_pairs_later(p: PlanModel, shape: ShapeModel, cl: int, i: nat, n: nat)
    requires
        p.pairs_failure(shape, cl, i) is Some,
        i <= n,
    ensures
        p.pairs_failure(shape, cl, n) == p.pairs_failure(shape, cl, i),
    decreases n,
{
    if i < n {
        lemma_pairs_later(p, shape, cl, i, (n - 1) as nat);
    }
}

proof fn lemma_required_later(p: PlanModel, shape: ShapeModel, i: nat, n: nat)
    requires
        p.required_failure(shape, i) is Some,
        i <= n,
    ensures
        p.required_failure(shape, n) == p.required_failure(shape, i),
    decreases n,
{
    if i < n {
        lemma_required_later(p, shape, i, (n - 1) as nat);
    }
}

proof fn lemma_chain_later(p: PlanModel, s: Seq<usize>, i: nat, n: nat)
    requires
        p.chain_failure(s, i) is Some,
        i <= n,
    ensures
        p.chain_failure(s, n) == p.chain_failure(s, i),
    decreases n,
{
    if i < n {
        lemma_chain_later(p, s, i, (n - 1) as nat);
    }
}

proof fn lemma_within_later(p: PlanModel, shape: ShapeModel, component: Seq<usize>, i: nat, n: nat)
    requires
        p.within_failure(shape, component, i) is Some,
        i <= n,
    ensures
        p.within_failure(shape, component, n) == p.within_failure(shape, component, i),
    decreases n,
{
    if i < n {
        lemma_within_later(p, shape, component, i, (n - 1) as nat);
    }
}

proof fn lemma_between_later(p: PlanModel, shape: ShapeModel, component: Seq<usize>, i: nat, n: nat)
    requires
        p.between_failure(shape, component, i) is Some,
        i <= n,
    ensures
        p.between_failure(shape, component, n) == p.between_failure(shape, component, i),
    decreases n,
{
    if i < n {
        lemma_between_later(p, shape, component, i, (n - 1) as nat);
    }
}

proof fn lemma_components_later(p: PlanModel, shape: ShapeModel, i: nat, n: nat)
    requires
        p.components_failure(shape, i) is Some,
        i <= n,
    ensures
        p.components_failure(shape, n) == p.components_failure(shape, i),
    decreases n,
{
    if i < n {
        lemma_components_later(p, shape, i, (n - 1) as nat);
    }
}

impl PlanModel {
    /// What the precedence checks go by: the plan's graph and the occurrence
    /// of each key in each CopperList.
    spec fn prepared(self, shape: ShapeModel, edges: Seq<Vec<(usize, u32)>>, table: Seq<Vec<usize>>) -> bool {
        &&& shape.wf()
        &&& self.copperlists_per_cycle > 0
        &&& self.is_table(shape.keys, table)
        &&& graph_of(edges) == self.graph()
        &&& closed(self.graph())
        &&& edges.len() == self.steps.len()
    }
}

impl CuMissionPlan {
    /// Check the required pairs in every CopperList.
    fn check_required(&self, shape: &PlanShape, edges: &Vec<Vec<(usize, u32)>>, table: &Vec<Vec<usize>>) -> (r: CuResult<()>)
        requires
            self@.prepared(shape@, edges@, table@),
        ensures
            failure_text(r) == self@.required_failure(shape@, self.copperlists_per_cycle as nat),
    {
        let n: usize = shape.required.len();
        let mut cl: u32 = 0;
        while cl < self.copperlists_per_cycle
            invariant
                cl <= self.copperlists_per_cycle,
                n == shape.required@.len(),
                self@.prepared(shape@, edges@, table@),
                self@.required_failure(shape@, cl as nat) is None,
            decreases self.copperlists_per_cycle - cl,
        {
            let mut i: usize = 0;
            while i < n
                invariant
                    i <= n,
                    n == shape.required@.len(),
                    cl < self.copperlists_per_cycle,
                    self@.prepared(shape@, edges@, table@),
                    self@.required_failure(shape@, cl as nat) is None,
                    self@.pairs_failure(shape@, cl as int, i as nat) is None,
                decreases n - i,
            {
                let (from, to) = shape.required[i];
                assert(shape.required@[i as int] == (from, to));
                let a: usize = table[from][cl as usize];
                let b: usize = table[to][cl as usize];
                match self.require(edges, a, b, 0) {
                    Err(e) => {
                        proof {
                            lemma_pairs_later(self@, shape@, cl as int, (i + 1) as nat, n as nat);
                            lemma_required_later(
                                self@,
                                shape@,
                                (cl + 1) as nat,
                                self.copperlists_per_cycle as nat,
                            );
                        }
                        return Err(e);
                    },
                    Ok(_) => {},
                }
                i = i + 1;
            }
            cl = cl + 1;
        }
        Ok(())
    }
}

impl PlanModel {
    /// Whether `places` gives the place of each inventory entry in the
    /// topological walk.
    spec fn is_ranking(self, places: Seq<usize>) -> bool {
        &&& places.len() == self.steps.len()
        &&& forall|i: int| 0 <= i < places.len() ==> #[trigger] places[i] == self.rank(i)
    }
}

impl CuMissionPlan {
    /// The calls of a component in CopperList `cl`, ordered by their place in
    /// the topological walk.
    fn ranked_calls(
        &self,
        shape: &PlanShape,
        component: &Vec<usize>,
        table: &Vec<Vec<usize>>,
        places: &Vec<usize>,
        cl: u32,
    ) -> (s: Vec<usize>)
        requires
            self@.is_table(shape@.keys, table@),
            self@.is_ranking(places@),
            cl < self.copperlists_per_cycle,
            forall|i: int| 0 <= i < component@.len() ==> (#[trigger] component@[i]) < shape.keys@.len(),
        ensures
            s@ == self@.calls(shape@, component@, cl as int),
            s@.len() == component@.len(),
            forall|i: int| 0 <= i < s@.len() ==> (#[trigger] s@[i]) < self@.steps.len(),
    {
        let mut s: Vec<usize> = Vec::new();
        let mut i: usize = 0;
        while i < component.len()
            invariant
                i <= component@.len(),
                self@.is_table(shape@.keys, table@),
                self@.is_ranking(places@),
                cl < self.copperlists_per_cycle,
                forall|i: int| 0 <= i < component@.len() ==> (#[trigger] component@[i]) < shape.keys@.len(),
                s@ == self@.calls_of(shape@, component@, cl as int, i as nat),
                s@.len() == i,
                forall|i: int| 0 <= i < s@.len() ==> (#[trigger] s@[i]) < self@.steps.len(),
            decreases component@.len() - i,
        {
            assert(component@[i as int] < shape.keys@.len());
            let x: usize = table[component[i]][cl as usize];
            let place: usize = places[x];
            let ghost before = s@;
            let mut at: usize = s.len();
            assert(before.take(at as int) =~= before);
            assert(self@.insert_ranked(before, x) =~= self@.insert_ranked(before.take(at as int), x) + before.skip(at as int));
            while at > 0 && places[s[at - 1]] > place
                invariant
                    at <= s@.len(),
                    s@ == before,
                    x < self@.steps.len(),
                    place == self@.rank(x as int),
                    self@.is_ranking(places@),
                    forall|i: int| 0 <= i < s@.len() ==> (#[trigger] s@[i]) < self@.steps.len(),
                    self@.insert_ranked(before, x) == self@.insert_ranked(before.take(at as int), x) + before.skip(at as int),
                decreases at,
            {
                proof {
                    let t = before.take(at as int);
                    assert(t.last() == before[at - 1]);
                    assert(places@[before[at - 1] as int] == self@.rank(before[at - 1] as int));
                    assert(t.drop_last() =~= before.take(at - 1));
                    assert(self@.insert_ranked(before.take(at - 1), x).push(before[at - 1]) + before.skip(at as int)
                        =~= self@.insert_ranked(before.take(at - 1), x) + before.skip(at - 1));
                }
                at = at - 1;
            }
            proof {
                let t = before.take(at as int);
                if at > 0 {
                    assert(t.last() == before[at - 1]);
                    assert(places@[before[at - 1] as int] == self@.rank(before[at - 1] as int));
                }
                assert(self@.insert_ranked(t, x) =~= t.push(x));
                assert(before.insert(at as int, x) =~= t.push(x) + before.skip(at as int));
            }
            s.insert(at, x);
            assert forall|i: int| 0 <= i < s@.len() implies (#[trigger] s@[i]) < self@.steps.len() by {
                if i < at {
                    assert(s@[i] == before[i]);
                } else if i > at {
                    assert(s@[i] == before[i - 1]);
                }
            }
            i = i + 1;
        }
        s
    }

    /// Check that each entry of `s` is waited for by the next one.
    fn check_chain(&self, edges: &Vec<Vec<(usize, u32)>>, s: &Vec<usize>) -> (r: CuResult<()>)
        requires
            graph_of(edges@) == self@.graph(),
            closed(self@.graph()),
            edges@.len() == self@.steps.len(),
            s@.len() > 0,
            forall|i: int| 0 <= i < s@.len() ==> (#[trigger] s@[i]) < self@.steps.len(),
        ensures
            failure_text(r) == self@.chain_failure(s@, (s@.len() - 1) as nat),
    {
        let mut k: usize = 1;
        while k < s.len()
            invariant
                1 <= k <= s@.len(),
                graph_of(edges@) == self@.graph(),
                closed(self@.graph()),
                edges@.len() == self@.steps.len(),
                forall|i: int| 0 <= i < s@.len() ==> (#[trigger] s@[i]) < self@.steps.len(),
                self@.chain_failure(s@, (k - 1) as nat) is None,
            decreases s@.len() - k,
        {
            assert(s@[k - 1] < self@.steps.len() && s@[k as int] < self@.steps.len());
            match self.require(edges, s[k - 1], s[k], 0) {
                Err(e) => {
                    proof {
                        lemma_chain_later(self@, s@, k as nat, (s@.len() - 1) as nat);
                    }
                    return Err(e);
                },
                Ok(_) => {},
            }
            k = k + 1;
        }
        Ok(())
    }

    /// Check the calls of one component.
    fn check_component(
        &self,
        shape: &PlanShape,
        component: &Vec<usize>,
        edges: &Vec<Vec<(usize, u32)>>,
        table: &Vec<Vec<usize>>,
        places: &Vec<usize>,
    ) -> (r: CuResult<()>)
        requires
            self@.prepared(shape@, edges@, table@),
            self@.is_ranking(places@),
            forall|i: int| 0 <= i < component@.len() ==> (#[trigger] component@[i]) < shape.keys@.len(),
        ensures
            failure_text(r) == self@.component_failure(shape@, component@),
    {
        if component.len() == 0 {
            return Ok(());
        }
        let mut endpoints: Vec<(usize, usize)> = Vec::new();
        let mut cl: u32 = 0;
        let cls: u32 = self.copperlists_per_cycle;
        while cl < cls
            invariant
                cl <= cls == self.copperlists_per_cycle,
                component@.len() > 0,
                self@.prepared(shape@, edges@, table@),
                self@.is_ranking(places@),
                forall|i: int| 0 <= i < component@.len() ==> (#[trigger] component@[i]) < shape.keys@.len(),
                self@.within_failure(shape@, component@, cl as nat) is None,
                endpoints@.len() == cl,
                forall|c: int|
                    0 <= c < cl ==> {
                        &&& (#[trigger] endpoints@[c]).0 == self@.calls(shape@, component@, c)[0]
                        &&& endpoints@[c].1 == self@.calls(shape@, component@, c).last()
                        &&& endpoints@[c].0 < self@.steps.len()
                        &&& endpoints@[c].1 < self@.steps.len()
                    },
            decreases cls - cl,
        {
            let steps: Vec<usize> = self.ranked_calls(shape, component, table, places, cl);
            match self.check_chain(edges, &steps) {
                Err(e) => {
                    proof {
                        lemma_within_later(self@, shape@, component@, (cl + 1) as nat, cls as nat);
                    }
                    return Err(e);
                },
                Ok(_) => {},
            }
            assert(steps@[0] < self@.steps.len() && steps@[steps@.len() - 1] < self@.steps.len());
            endpoints.push((steps[0], steps[steps.len() - 1]));
            cl = cl + 1;
        }
        let n: usize = endpoints.len();
        let mut k: usize = 1;
        while k < n
            invariant
                1 <= k <= n,
                n == endpoints@.len(),
                n == self.copperlists_per_cycle,
                component@.len() > 0,
                self@.prepared(shape@, edges@, table@),
                self@.within_failure(shape@, component@, n as nat) is None,
                self@.between_failure(shape@, component@, (k - 1) as nat) is None,
                forall|c: int|
                    0 <= c < n ==> {
                        &&& (#[trigger] endpoints@[c]).0 == self@.calls(shape@, component@, c)[0]
                        &&& endpoints@[c].1 == self@.calls(shape@, component@, c).last()
                        &&& endpoints@[c].0 < self@.steps.len()
                        &&& endpoints@[c].1 < self@.steps.len()
                    },
            decreases n - k,
        {
            assert(endpoints@[k - 1].1 < self@.steps.len() && endpoints@[k as int].0 < self@.steps.len());
            match self.require(edges, endpoints[k - 1].1, endpoints[k].0, 0) {
                Err(e) => {
                    proof {
                        lemma_between_later(self@, shape@, component@, k as nat, (n - 1) as nat);
                    }
                    return Err(e);
                },
                Ok(_) => {},
            }
            k = k + 1;
        }
        assert(endpoints@[n - 1].1 < self@.steps.len() && endpoints@[0].0 < self@.steps.len());
        self.require(edges, endpoints[n - 1].1, endpoints[0].0, 1)
    }

    /// The place of each inventory entry in a complete topological walk.
    fn places_in(&self, order: &Vec<usize>) -> (places: Vec<usize>)
        requires
            order@ == walk_order(self@.graph()),
            order@.len() == self@.steps.len(),
            order@.no_duplicates(),
            forall|i: int| 0 <= i < order@.len() ==> (#[trigger] order@[i]) < self@.steps.len(),
        ensures
            self@.is_ranking(places@),
    {
        let n: usize = order.len();
        let mut places: Vec<usize> = Vec::new();
        while places.len() < n
            invariant
                places@.len() <= n,
            decreases n - places@.len(),
        {
            places.push(0);
        }
        let mut k: usize = 0;
        while k < n
            invariant
                k <= n,
                n == order@.len(),
                n == places@.len(),
                order@.no_duplicates(),
                forall|i: int| 0 <= i < order@.len() ==> (#[trigger] order@[i]) < n,
                forall|i: int| 0 <= i < k ==> places@[(#[trigger] order@[i]) as int] == i,
            decreases n - k,
        {
            assert(order@[k as int] < n);
            let ghost before = places@;
            places.set(order[k], k);
            assert forall|i: int| 0 <= i < k + 1 implies places@[(#[trigger] order@[i]) as int] == i by {
                if i < k {
                    assert(order@[i] != order@[k as int]);
                    assert(before[order@[i] as int] == i);
                }
            }
            k = k + 1;
        }
        proof {
            lemma_full(order@, n as nat);
            assert forall|i: int| 0 <= i < n implies #[trigger] places@[i] == self@.rank(i) by {
                assert(order@.contains(i as usize));
                let at = order@.index_of(i as usize);
                assert(order@[at] == i as usize);
            }
        }
        places
    }

    /// Check the plan against the configured pools and the shape of the task
    /// graph: inventory, lanes, dependencies, required pairs and components.
    pub fn validate(&self, pools: &Vec<ThreadPool>, shape: &PlanShape) -> (r: CuResult<()>)
        requires
            shape@.wf(),
        ensures
            failure_text(r) == self@.failure(pools@, shape@),
    {
        if self.copperlists_per_cycle == 0 {
            return Err(CuError::of("copperlists_per_cycle must be positive"));
        }
        let expected: usize = match shape.keys.len().checked_mul(self.copperlists_per_cycle as usize) {
            Some(n) => n,
            None => {
                return Err(CuError::of("Execution plan step count overflow"));
            },
        };
        if self.steps.len() != expected {
            let mut m: String = "Expected ".to_owned();
            push_dec(&mut m, expected as u64);
            m.append(" process-step occurrences, found ");
            push_dec(&mut m, self.steps.len() as u64);
            return Err(CuError::new(m));
        }
        let table: Vec<Vec<usize>> = match self.check_inventory(&shape.keys) {
            Ok(table) => table,
            Err(e) => {
                return Err(e);
            },
        };
        if self.lanes.len() == 0 {
            return Err(CuError::of("Execution plan needs at least one lane"));
        }
        let mut edges: Vec<Vec<(usize, u32)>> = match self.check_lanes(pools) {
            Ok(edges) => edges,
            Err(e) => {
                return Err(e);
            },
        };
        match self.push_dependencies(&mut edges) {
            Err(e) => {
                return Err(e);
            },
            Ok(_) => {},
        }
        let order: Vec<usize> = match topological_order(&edges) {
            Some(order) => order,
            None => {
                return Err(CuError::of("Execution plan contains a dependency/lane-order cycle"));
            },
        };
        let places: Vec<usize> = self.places_in(&order);
        match self.check_required(shape, &edges, &table) {
            Err(e) => {
                return Err(e);
            },
            Ok(_) => {},
        }
        let n: usize = shape.components.len();
        let mut c: usize = 0;
        while c < n
            invariant
                c <= n,
                n == shape.components@.len(),
                self@.prepared(shape@, edges@, table@),
                self@.is_ranking(places@),
                self@.components_failure(shape@, c as nat) is None,
                self@.failure(pools@, shape@) == self@.components_failure(shape@, n as nat),
            decreases n - c,
        {
            assert(shape.components@[c as int]@ == shape@.components[c as int]);
            assert forall|i: int| 0 <= i < shape.components@[c as int]@.len() implies (
            #[trigger] shape.components@[c as int]@[i]) < shape.keys@.len() by {
                assert(shape@.components[c as int][i] < shape@.keys.len());
            }
            match self.check_component(shape, &shape.components[c], &edges, &table, &places) {
                Err(e) => {
                    proof {
                        lemma_components_later(self@, shape@, (c + 1) as nat, n as nat);
                    }
                    return Err(e);
                },
                Ok(_) => {},
            }
            c = c + 1;
        }
        Ok(())
    }
}

// ---------------------------------------------------------------------------
// Serial execution
// ---------------------------------------------------------------------------

impl PlanModel {
    /// What stops a plan from being executed serially.
    pub open spec fn serial_failure(self) -> Option<Seq<char>> {
        if self.copperlists_per_cycle != 1 || self.lanes.len() != 1 || !(self.lanes[0].placement is Main) {
            Some(
                "This plan is valid but requires a multicore/multi-CopperList executor. Fixed currently executes one main lane and one CopperList per cycle; placement and dependencies will not be ignored."@,
            )
        } else if exists|k: int|
            0 <= k < self.lanes[0].steps.len() && (#[trigger] self.lanes[0].steps[k]) >= self.steps.len() {
            Some("Unknown lane step"@)
        } else {
            None
        }
    }
}

impl CuMissionPlan {
    /// The keys of the plan's only lane, in execution order.
    pub fn serial_keys(&self) -> (r: CuResult<Vec<String>>)
        ensures
            failure_text(r) == self@.serial_failure(),
            r matches Ok(keys) ==> keys@.len() == self@.lanes[0].steps.len() && forall|k: int|
                0 <= k < keys@.len() ==> (#[trigger] keys@[k])@ == self@.steps[self@.lanes[0].steps[k] as int].key,
    {
        if self.copperlists_per_cycle != 1 || self.lanes.len() != 1 || !is_main(&self.lanes[0].placement) {
            return Err(
                CuError::of(
                    "This plan is valid but requires a multicore/multi-CopperList executor. Fixed currently executes one main lane and one CopperList per cycle; placement and dependencies will not be ignored.",
                ),
            );
        }
        let order: &Vec<u32> = &self.lanes[0].steps;
        let mut keys: Vec<String> = Vec::new();
        let mut k: usize = 0;
        while k < order.len()
            invariant
                k <= order@.len(),
                self.copperlists_per_cycle == 1,
                self@.lanes.len() == 1,
                self@.lanes[0].placement is Main,
                order@ == self@.lanes[0].steps,
                keys@.len() == k,
                forall|j: int| 0 <= j < k ==> (#[trigger] order@[j]) < self@.steps.len(),
                forall|j: int| 0 <= j < k ==> (#[trigger] keys@[j])@ == self@.steps[order@[j] as int].key,
            decreases order@.len() - k,
        {
            let index: usize = order[k] as usize;
            if index >= self.steps.len() {
                assert(self@.lanes[0].steps[k as int] >= self@.steps.len());
                return Err(CuError::of("Unknown lane step"));
            }
            keys.push(self.steps[index].key.clone());
            k = k + 1;
        }
        Ok(keys)
    }
}

fn is_main(placement: &CuPlanPlacement) -> (r: bool)
    ensures
        r == placement is Main,
{
    match placement {
        CuPlanPlacement::Main => true,
        CuPlanPlacement::Worker { .. } => false,
    }
}

/// A pool is found by its id; of several with that id, the first.
pub proof fn pools_are_found_by_id(pools: Seq<ThreadPool>, id: Seq<char>)
    ensures
        pool_threads(pools, id) is None <==> forall|i: int| 0 <= i < pools.len() ==> (#[trigger] pools[i]).id@ != id,
        pool_threads(pools, id) is Some ==> exists|i: int|
            0 <= i < pools.len() && (#[trigger] pools[i]).id@ == id && pool_threads(pools, id) == Some(
                pools[i].threads as nat,
            ) && forall|j: int| 0 <= j < i ==> (#[trigger] pools[j]).id@ != id,
    decreases pools.len(),
{
    if pools.len() > 0 && pools[0].id@ != id {
        let rest = pools.drop_first();
        pools_are_found_by_id(rest, id);
        if pool_threads(rest, id) is None {
            assert forall|i: int| 0 <= i < pools.len() implies (#[trigger] pools[i]).id@ != id by {
                if i > 0 {
                    assert(rest[i - 1].id@ != id);
                }
            }
        } else {
            let i = choose|i: int|
                0 <= i < rest.len() && (#[trigger] rest[i]).id@ == id && pool_threads(rest, id) == Some(
                    rest[i].threads as nat,
                ) && forall|j: int| 0 <= j < i ==> (#[trigger] rest[j]).id@ != id;
            assert(pools[i + 1].id@ == id);
            assert forall|j: int| 0 <= j < i + 1 implies (#[trigger] pools[j]).id@ != id by {
                if j > 0 {
                    assert(rest[j - 1].id@ != id);
                }
            }
        }
    }
}

/// Each text has the index of the last key of that text.
pub proof fn keys_are_indexed_by_the_last(keys: Seq<Seq<char>>, n: nat, t: Seq<char>)
    requires
        n <= keys.len() <= usize::MAX,
    ensures
        index_map(keys, n).dom().contains(t) <==> keys.take(n as int).contains(t),
        index_map(keys, n).dom().contains(t) ==> {
            &&& index_map(keys, n)[t] < n
            &&& keys[index_map(keys, n)[t] as int] == t
            &&& forall|j: int| index_map(keys, n)[t] < j < n ==> #[trigger] keys[j] != t
        },
    decreases n,
{
    if n > 0 {
        keys_are_indexed_by_the_last(keys, (n - 1) as nat, t);
        let (all, rest) = (keys.take(n as int), keys.take(n - 1));
        assert(all =~= rest.push(keys[n - 1]));
        if t == keys[n - 1] {
            assert(all[n - 1] == t);
        } else if all.contains(t) {
            let i = choose|i: int| 0 <= i < all.len() && all[i] == t;
            assert(rest[i] == t);
        } else if rest.contains(t) {
            let i = choose|i: int| 0 <= i < rest.len() && rest[i] == t;
            assert(all[i] == t);
        }
    }
}

/// Of the inventory's wrong entries, the first is told.
pub proof fn the_first_wrong_step_is_told(p: PlanModel, keys: Seq<Seq<char>>, i: int)
    requires
        0 <= i < p.steps.len(),
        p.step_failure(keys, i) is Some,
        forall|j: int| 0 <= j < i ==> #[trigger] p.step_failure(keys, j) is None,
    ensures
        p.inventory_failure(keys, p.steps.len()) == p.step_failure(keys, i),
{
    lemma_no_wrong_step(p, keys, i as nat);
    lemma_inventory_later(p, keys, (i + 1) as nat, p.steps.len());
}

proof fn lemma_no_wrong_step(p: PlanModel, keys: Seq<Seq<char>>, n: nat)
    requires
        forall|j: int| 0 <= j < n ==> #[trigger] p.step_failure(keys, j) is None,
    ensures
        p.inventory_failure(keys, n) is None,
    decreases n,
{
    if n > 0 {
        assert(p.step_failure(keys, n - 1) is None);
        lemma_no_wrong_step(p, keys, (n - 1) as nat);
    }
}

/// Of the wrong lanes, the first is told.
pub proof fn the_first_wrong_lane_is_told(p: PlanModel, pools: Seq<ThreadPool>, l: int)
    requires
        0 <= l < p.lanes.len(),
        p.lane_failure(pools, l) is Some,
        forall|m: int| 0 <= m < l ==> #[trigger] p.lane_failure(pools, m) is None,
    ensures
        p.lanes_failure(pools, p.lanes.len()) == p.lane_failure(pools, l),
{
    lemma_no_wrong_lane(p, pools, l as nat);
    lemma_lanes_later(p, pools, (l + 1) as nat, p.lanes.len());
}

proof fn lemma_no_wrong_lane(p: PlanModel, pools: Seq<ThreadPool>, n: nat)
    requires
        forall|m: int| 0 <= m < n ==> #[trigger] p.lane_failure(pools, m) is None,
    ensures
        p.lanes_failure(pools, n) is None,
    decreases n,
{
    if n > 0 {
        assert(p.lane_failure(pools, n - 1) is None);
        lemma_no_wrong_lane(p, pools, (n - 1) as nat);
    }
}

/// Of the wrong entries of a lane, the first is told.
pub proof fn the_first_wrong_entry_is_told(p: PlanModel, l: int, k: int)
    requires
        0 <= l < p.lanes.len(),
        0 <= k < p.lanes[l].steps.len(),
        p.entry_failure(l, k) is Some,
        forall|j: int| 0 <= j < k ==> #[trigger] p.entry_failure(l, j) is None,
    ensures
        p.entries_failure(l, p.lanes[l].steps.len()) == p.entry_failure(l, k),
{
    lemma_no_wrong_entry(p, l, k as nat);
    lemma_entries_later(p, l, (k + 1) as nat, p.lanes[l].steps.len());
}

proof fn lemma_no_wrong_entry(p: PlanModel, l: int, n: nat)
    requires
        forall|j: int| 0 <= j < n ==> #[trigger] p.entry_failure(l, j) is None,
    ensures
        p.entries_failure(l, n) is None,
    decreases n,
{
    if n > 0 {
        assert(p.entry_failure(l, n - 1) is None);
        lemma_no_wrong_entry(p, l, (n - 1) as nat);
    }
}

proof fn lemma_same_steps(p: PlanModel, q: PlanModel, keys: Seq<Seq<char>>, n: nat)
    requires
        p.steps == q.steps,
        p.copperlists_per_cycle == q.copperlists_per_cycle,
    ensures
        p.inventory_failure(keys, n) == q.inventory_failure(keys, n),
    decreases n,
{
    if n > 0 {
        lemma_same_steps(p, q, keys, (n - 1) as nat);
        let (key, cl) = (p.steps[n - 1].key, p.steps[n - 1].copperlist as int);
        assert forall|j: int| #[trigger] p.is_step(j, key, cl) <==> q.is_step(j, key, cl) by {}
        if exists|j: int| j < n - 1 && #[trigger] p.is_step(j, key, cl) {
            let j = choose|j: int| j < n - 1 && #[trigger] p.is_step(j, key, cl);
            assert(q.is_step(j, key, cl));
        }
        if exists|j: int| j < n - 1 && #[trigger] q.is_step(j, key, cl) {
            let j = choose|j: int| j < n - 1 && #[trigger] q.is_step(j, key, cl);
            assert(p.is_step(j, key, cl));
        }
    }
}

proof fn lemma_same_entries(p: PlanModel, q: PlanModel, l: int, n: nat)
    requires
        p.steps == q.steps,
        p.lanes == q.lanes,
    ensures
        p.entries_failure(l, n) == q.entries_failure(l, n),
    decreases n,
{
    if n > 0 {
        lemma_same_entries(p, q, l, (n - 1) as nat);
        let index = p.lanes[l].steps[n - 1] as int;
        if p.listed_before(l, n - 1, index) {
            let (a, b) = choose|a: int, b: int| #[trigger]
                p.lists(a, b, index) && (a < l || (a == l && b < n - 1));
            assert(q.lists(a, b, index));
        }
        if q.listed_before(l, n - 1, index) {
            let (a, b) = choose|a: int, b: int| #[trigger]
                q.lists(a, b, index) && (a < l || (a == l && b < n - 1));
            assert(p.lists(a, b, index));
        }
    }
}

proof fn lemma_same_lanes(p: PlanModel, q: PlanModel, pools: Seq<ThreadPool>, n: nat)
    requires
        p.steps == q.steps,
        p.lanes == q.lanes,
    ensures
        p.lanes_failure(pools, n) == q.lanes_failure(pools, n),
    decreases n,
{
    if n > 0 {
        lemma_same_lanes(p, q, pools, (n - 1) as nat);
        lemma_same_entries(p, q, n - 1, p.lanes[n - 1].steps.len());
    }
}

/// What is wrong with the inventory is told whatever the lanes are, and what is
/// wrong with a lane whatever the dependencies are.
pub proof fn inventory_and_lanes_are_checked_first(p: PlanModel, q: PlanModel, pools: Seq<ThreadPool>, shape: ShapeModel)
    requires
        p.steps == q.steps,
        p.copperlists_per_cycle == q.copperlists_per_cycle,
    ensures
        p.inventory_failure(shape.keys, p.steps.len()) is Some ==> p.failure(pools, shape) == q.failure(pools, shape),
        p.lanes == q.lanes && p.lanes_failure(pools, p.lanes.len()) is Some ==> p.failure(pools, shape) == q.failure(
            pools,
            shape,
        ),
{
    lemma_same_steps(p, q, shape.keys, p.steps.len());
    if p.lanes == q.lanes {
        lemma_same_lanes(p, q, pools, p.lanes.len());
    }
}

/// The keys of a serial plan can be told exactly when it has one CopperList per
/// cycle and one lane, in the main context, of known occurrences.
pub proof fn serial_plans_have_one_main_lane(p: PlanModel)
    ensures
        p.serial_failure() is None <==> {
            &&& p.copperlists_per_cycle == 1
            &&& p.lanes.len() == 1
            &&& p.lanes[0].placement is Main
            &&& forall|k: int| 0 <= k < p.lanes[0].steps.len() ==> (#[trigger] p.lanes[0].steps[k]) < p.steps.len()
        },
{
}

} // verus!
