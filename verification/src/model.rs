//! The response-time model's view of one mission: cost per unit, precedence
//! among units, and what each chain and source of the contract maps to.

use crate::error::failure_text;
use crate::error::CuError;
use crate::error::CuResult;
use crate::graph::acyclic;
use crate::inventory::belongs_to;
use crate::inventory::lemma_base_of_unit;
use crate::inventory::lemma_follows;
use crate::inventory::lemma_unit;
use crate::inventory::lemma_units;
use crate::inventory::optional_text;
use crate::inventory::refinements_need_a_base;
use crate::inventory::same_optional;
use crate::inventory::same_text;
use crate::inventory::units_hold_every_occurrence_once;
use crate::inventory::CuInventory;
use crate::inventory::InventoryModel;
use crate::inventory::KeyFacts;
use crate::keys::is_refine_key;
use crate::keys::key_task;
use crate::order::first_unit_on_a_cycle;
use crate::order::on_a_cycle;
use crate::order::successor_graph;
use crate::order::units_known;
use crate::schedule::or_else;
use crate::shape::lists_of;
use crate::strmap::StrMap;
use crate::sums::lemma_sum_empty;
use crate::sums::lemma_sum_push;
use crate::sums::places;
use crate::sums::sum;
use crate::text::chars_of;
use vstd::prelude::*;

verus! {

/// An end-to-end path with a deadline.
#[derive(Debug, PartialEq, Eq)]
pub struct CuChain {
    pub id: String,
    pub source: String,
    pub sink: String,
    pub deadline_ms: u32,
}

/// The period of a source task.
#[derive(Debug, PartialEq, Eq)]
pub struct CuSourceRate {
    pub task: String,
    pub period_ms: u32,
}

/// How the operating system schedules a thread.
#[derive(Clone, Copy, Debug, PartialEq, Eq)]
pub enum SchedulingPolicy {
    Fair,
    Nice(i8),
    Fifo { priority: u8 },
    RoundRobin { priority: u8 },
}

/// A thread of its own.
#[derive(Clone, Copy, Debug, PartialEq, Eq)]
pub struct CuPlanThread {
    pub cpu: Option<usize>,
    pub policy: SchedulingPolicy,
}

/// What a plan has to achieve, and with what.
#[derive(Debug, PartialEq, Eq)]
pub struct CuContract {
    pub chains: Vec<CuChain>,
    pub sources: Vec<CuSourceRate>,
    pub cpus: Vec<usize>,
    /// CopperLists in flight at once.
    pub max_in_flight: u32,
    /// Whether missed deadlines count before the sum of the chains.
    pub deadline_objective: bool,
    pub worker_policy: SchedulingPolicy,
    pub dispatcher: Option<CuPlanThread>,
}

/// What was measured of a mission.
#[derive(Debug, PartialEq, Eq)]
pub struct CuProfile {
    /// Signature of the graph that was measured.
    pub config_signature: String,
    /// Length of the recording.
    pub window_ns: u64,
    /// CopperLists in the recording.
    pub copperlists: u64,
    /// Expected cost of each step per CopperList, by key.
    pub costs: StrMap<u64>,
}

/// The period of a CopperList: that of the target rate, or the mean of the
/// recording.
pub open spec fn period_ns(rate_target_hz: Option<u64>, profile: CuProfile) -> nat {
    match rate_target_hz {
        Some(rate) => 1_000_000_000nat / (if rate == 0 { 1 } else { rate as nat }),
        None => {
            let mean = profile.window_ns as nat / (if profile.copperlists == 0 { 1 } else { profile.copperlists as nat });
            if mean == 0 {
                1
            } else {
                mean
            }
        },
    }
}

/// The period of a CopperList.
pub fn copperlist_period(rate_target_hz: Option<u64>, profile: &CuProfile) -> (ns: u64)
    ensures
        ns == period_ns(rate_target_hz, *profile),
{
    match rate_target_hz {
        Some(rate) => {
            let rate: u64 = if rate == 0 { 1 } else { rate };
            1_000_000_000 / rate
        },
        None => {
            let count: u64 = if profile.copperlists == 0 { 1 } else { profile.copperlists };
            let mean: u64 = profile.window_ns / count;
            if mean == 0 {
                1
            } else {
                mean
            }
        },
    }
}

impl InventoryModel {
    /// The key that unit `u` is measured under: that of its base.
    pub open spec fn unit_key(self, u: nat) -> Seq<char> {
        self.steps[self.unit_steps(u)[0] as int].key
    }

    /// Whether unit `u` only polls and dispatches: its compute runs on a pool.
    pub open spec fn in_background(self, u: nat) -> bool {
        key_task(self.unit_key(u)) matches Some(task) && self.background.contains(task)
    }

    /// The expected cost of unit `u` per cycle.
    pub open spec fn unit_cost(self, costs: Map<Seq<char>, u64>, u: nat) -> u64 {
        if self.in_background(u) {
            0
        } else {
            costs[self.unit_key(u)]
        }
    }

    /// What is missing for the cost of the first `n` units.
    pub open spec fn cost_failure(self, costs: Map<Seq<char>, u64>, n: nat) -> Option<Seq<char>>
        decreases n,
    {
        if n == 0 {
            None
        } else {
            or_else(
                self.cost_failure(costs, (n - 1) as nat),
                if self.in_background((n - 1) as nat) || costs.dom().contains(self.unit_key((n - 1) as nat)) {
                    None
                } else {
                    Some("The profile has no measurement for '"@ + self.unit_key((n - 1) as nat) + "'"@)
                },
            )
        }
    }

    /// The predecessors of each unit by the first `n` dependencies: those of
    /// the same cycle between different units.
    pub open spec fn preds(self, n: nat) -> Seq<Seq<usize>>
        decreases n,
    {
        if n == 0 {
            Seq::new(self.unit_count(), |u: int| Seq::empty())
        } else {
            let rest = self.preds((n - 1) as nat);
            let d = self.dependencies[n - 1];
            let from = self.unit(d.from as int);
            let to = self.unit(d.to as int) as int;
            if d.cycle_lag == 0 && from != to && !rest[to].contains(from as usize) {
                rest.update(to, rest[to].push(from as usize))
            } else {
                rest
            }
        }
    }

    /// The predecessors of each unit.
    pub open spec fn unit_preds(self) -> Seq<Seq<usize>> {
        self.preds(self.dependencies.len())
    }

    /// Whether `u` is the first unit on a cycle of units.
    pub open spec fn closes_cycle(self, u: int) -> bool {
        on_a_cycle(self.unit_preds(), u) && forall|v: int| v < u ==> !#[trigger] on_a_cycle(self.unit_preds(), v)
    }

    /// What is wrong when running an anytime task's phases together closes a
    /// cycle through another component.
    pub open spec fn cycle_failure(self) -> Option<Seq<char>> {
        if exists|u: int| self.closes_cycle(u) {
            let u = choose|u: int| self.closes_cycle(u);
            Some(
                "Step '"@ + self.unit_key(u as nat)
                    + "' and its refinements cannot run together: an edge leads out of one of its phases and back into an earlier one through another component"@,
            )
        } else {
            None
        }
    }

    /// Whether occurrence `i` is the whole or base step of `task` at that offset.
    pub open spec fn is_step_of(self, i: int, task: Seq<char>, offset: int) -> bool {
        &&& self.steps[i].copperlist == offset
        &&& !self.refine(i)
        &&& self.task(i) == Some(task)
    }

    /// The first occurrence from `i` on that is a step of `task` at that offset.
    pub open spec fn step_from(self, task: Seq<char>, offset: int, i: int) -> Option<int>
        decreases self.steps.len() - i,
    {
        if i < 0 || i >= self.steps.len() {
            None
        } else if self.is_step_of(i, task, offset) {
            Some(i)
        } else {
            self.step_from(task, offset, i + 1)
        }
    }

    /// The unit of `task` at each of the first `n` offsets that has one.
    pub open spec fn units_of(self, task: Seq<char>, n: nat) -> Seq<usize>
        decreases n,
    {
        if n == 0 {
            Seq::empty()
        } else {
            let rest = self.units_of(task, (n - 1) as nat);
            match self.step_from(task, n - 1, 0) {
                Some(i) => rest.push(self.unit(i) as usize),
                None => rest,
            }
        }
    }

    /// The unit of `task` at each offset that has one.
    pub open spec fn task_units(self, task: Seq<char>) -> Seq<usize> {
        self.units_of(task, self.copperlists_per_cycle as nat)
    }

    /// Whether both ends of a chain have a unit at every offset.
    pub open spec fn has_chain(self, chain: CuChain) -> bool {
        &&& self.task_units(chain.source@).len() == self.copperlists_per_cycle
        &&& self.task_units(chain.sink@).len() == self.copperlists_per_cycle
    }

    /// The source and sink unit of a chain at each offset.
    pub open spec fn chain_units(self, chain: CuChain) -> Seq<(usize, usize)> {
        Seq::new(
            self.copperlists_per_cycle as nat,
            |c: int| (self.task_units(chain.source@)[c], self.task_units(chain.sink@)[c]),
        )
    }

    /// What is wrong with the first `n` chains.
    pub open spec fn chain_failure(self, chains: Seq<CuChain>, n: nat) -> Option<Seq<char>>
        decreases n,
    {
        if n == 0 {
            None
        } else {
            or_else(
                self.chain_failure(chains, (n - 1) as nat),
                if self.has_chain(chains[n - 1]) {
                    None
                } else {
                    Some("Chain '"@ + chains[n - 1].id@ + "' names a task without a whole-phase step"@)
                },
            )
        }
    }

    /// What stops an inventory from being modelled.
    pub open spec fn model_failure(self, contract: CuContract, profile: CuProfile) -> Option<Seq<char>> {
        or_else(
            self.refine_failure(self.steps.len()),
            or_else(
                self.cost_failure(profile.costs.map(), self.unit_count()),
                or_else(self.cycle_failure(), self.chain_failure(contract.chains@, contract.chains@.len())),
            ),
        )
    }
}

/// The model's view of one mission plan's inventory.
///
/// A unit is one occurrence, or an anytime base occurrence with its refine
/// occurrences: the executor runs those phases together on one worker, so
/// the search never separates them.
#[derive(Debug)]
pub struct Model {
    pub inventory: CuInventory,
    /// Occurrence indices of each unit, in phase order.
    pub units: Vec<Vec<usize>>,
    /// Expected cost of each unit per cycle, in nanoseconds.
    pub cost: Vec<u64>,
    /// Zero-lag predecessor units of each unit.
    pub preds: Vec<Vec<usize>>,
    /// CopperList period, the dispatch granularity.
    pub copperlist_ns: u64,
    /// Cycle period.
    pub cycle_ns: u64,
    /// Per chain: source unit and sink unit per CL offset.
    pub chains: Vec<Vec<(usize, usize)>>,
    pub chain_deadlines: Vec<u32>,
    /// Per contract source: its units.
    pub sources: Vec<Vec<usize>>,
    pub cpus: Vec<usize>,
    /// CopperLists in flight at once, at least one cycle's worth.
    pub max_in_flight: u32,
    pub policy: SchedulingPolicy,
    pub deadline_objective: bool,
}

/// Sum of the first `n` costs.
pub open spec fn total_cost(cost: Seq<u64>, n: nat) -> nat
    decreases n,
{
    if n == 0 {
        0
    } else {
        total_cost(cost, (n - 1) as nat) + cost[n - 1] as nat
    }
}

impl Model {
    /// Whether every list speaks of units, and the units can run in some order.
    pub open spec fn wf(self) -> bool {
        let n = self.units@.len();
        &&& self.cost@.len() == n
        &&& self.preds@.len() == n
        &&& units_known(lists_of(self.preds@), n)
        &&& acyclic(successor_graph(lists_of(self.preds@)))
        &&& units_known(lists_of(self.units@), self.inventory.steps@.len())
        &&& self.chain_deadlines@.len() == self.chains@.len()
        &&& forall|c: int, k: int|
            0 <= c < self.chains@.len() && 0 <= k < self.chains@[c]@.len() ==> (#[trigger] self.chains@[c]@[k]).0 < n
                && self.chains@[c]@[k].1 < n
        &&& units_known(lists_of(self.sources@), n)
    }

    /// Whether this is the model of an inventory under a contract and a profile.
    pub open spec fn models(
        self,
        inventory: InventoryModel,
        contract: CuContract,
        profile: CuProfile,
        rate_target_hz: Option<u64>,
    ) -> bool {
        let n = inventory.unit_count();
        &&& self.inventory@ == inventory
        &&& lists_of(self.units@) == Seq::new(n, |u: int| inventory.unit_steps(u as nat))
        &&& self.cost@ == Seq::new(n, |u: int| inventory.unit_cost(profile.costs.map(), u as nat))
        &&& lists_of(self.preds@) == inventory.unit_preds()
        &&& self.copperlist_ns == period_ns(rate_target_hz, profile)
        &&& self.cycle_ns == self.copperlist_ns * inventory.copperlists_per_cycle
        &&& self.chains@.len() == contract.chains@.len()
        &&& forall|c: int|
            0 <= c < self.chains@.len() ==> (#[trigger] self.chains@[c])@ == inventory.chain_units(contract.chains@[c])
        &&& self.chain_deadlines@ == Seq::new(contract.chains@.len(), |c: int| contract.chains@[c].deadline_ms)
        &&& lists_of(self.sources@) == Seq::new(
            contract.sources@.len(),
            |s: int| inventory.task_units(contract.sources@[s].task@),
        )
        &&& self.cpus@ == contract.cpus@
        &&& self.max_in_flight == (if contract.max_in_flight >= inventory.copperlists_per_cycle {
            contract.max_in_flight
        } else {
            inventory.copperlists_per_cycle
        })
        &&& self.policy == contract.worker_policy
        &&& self.deadline_objective == contract.deadline_objective
    }
}

proof fn lemma_cost_later(m: InventoryModel, costs: Map<Seq<char>, u64>, i: nat, n: nat)
    requires
        m.cost_failure(costs, i) is Some,
        i <= n,
    ensures
        m.cost_failure(costs, n) == m.cost_failure(costs, i),
    decreases n,
{
    if i < n {
        lemma_cost_later(m, costs, i, (n - 1) as nat);
    }
}

proof fn lemma_chain_later(m: InventoryModel, chains: Seq<CuChain>, i: nat, n: nat)
    requires
        m.chain_failure(chains, i) is Some,
        i <= n,
    ensures
        m.chain_failure(chains, n) == m.chain_failure(chains, i),
    decreases n,
{
    if i < n {
        lemma_chain_later(m, chains, i, (n - 1) as nat);
    }
}

impl CuInventory {
    /// Whether a task is one of the background tasks.
    fn is_background(&self, task: &Option<Vec<char>>) -> (r: bool)
        ensures
            r == (optional_text(*task) matches Some(t) && self@.background.contains(t)),
    {
        let mut i: usize = 0;
        match task {
            None => {
                return false;
            },
            Some(wanted) => {
                while i < self.background.len()
                    invariant
                        i <= self.background@.len(),
                        optional_text(*task) == Some(wanted@),
                        forall|j: int| 0 <= j < i ==> #[trigger] self@.background[j] != wanted@,
                    decreases self.background@.len() - i,
                {
                    let name: Vec<char> = chars_of(self.background[i].as_str());
                    assert(self@.background[i as int] == name@);
                    if same_text(&name, wanted) {
                        return true;
                    }
                    i = i + 1;
                }
            },
        }
        false
    }

    /// The expected cost of each unit.
    fn unit_costs(&self, facts: &KeyFacts, units: &Vec<Vec<usize>>, costs: &StrMap<u64>) -> (r: CuResult<Vec<u64>>)
        requires
            facts.tell(self@),
            self@.refine_failure(self@.steps.len()) is None,
            units@.len() == self@.unit_count(),
            forall|u: int| 0 <= u < units@.len() ==> (#[trigger] units@[u])@ == self@.unit_steps(u as nat),
        ensures
            failure_text(r) == self@.cost_failure(costs.map(), self@.unit_count()),
            r matches Ok(cost) ==> cost@ == Seq::new(
                self@.unit_count(),
                |u: int| self@.unit_cost(costs.map(), u as nat),
            ),
    {
        let n: usize = units.len();
        let steps: usize = self.steps.len();
        let mut cost: Vec<u64> = Vec::new();
        let mut u: usize = 0;
        while u < n
            invariant
                u <= n,
                n == units@.len(),
                n == self@.unit_count(),
                steps == self@.steps.len(),
                facts.tell(self@),
                self@.refine_failure(self@.steps.len()) is None,
                forall|u: int| 0 <= u < units@.len() ==> (#[trigger] units@[u])@ == self@.unit_steps(u as nat),
                self@.cost_failure(costs.map(), u as nat) is None,
                cost@.len() == u,
                forall|v: int| 0 <= v < u ==> #[trigger] cost@[v] == self@.unit_cost(costs.map(), v as nat),
            decreases n - u,
        {
            proof {
                lemma_units(self@, u as nat);
            }
            assert(units@[u as int]@ == self@.unit_steps(u as nat));
            let first: usize = units[u][0];
            assert(optional_text(facts.task@[first as int]) == self@.task(first as int));
            let step = &self.steps[first];
            assert(self@.steps[first as int].key == step.key@);
            if self.is_background(&facts.task[first]) {
                // The gateway only publishes and dispatches; the compute runs
                // on its pool.
                cost.push(0);
            } else {
                match costs.get(step.key.as_str()) {
                    Some(expected) => {
                        cost.push(*expected);
                    },
                    None => {
                        proof {
                            lemma_cost_later(self@, costs.map(), (u + 1) as nat, n as nat);
                        }
                        let mut m: String = "The profile has no measurement for '".to_owned();
                        m.append(step.key.as_str());
                        m.append("'");
                        return Err(CuError::new(m));
                    },
                }
            }
            u = u + 1;
        }
        assert(cost@ =~= Seq::new(self@.unit_count(), |u: int| self@.unit_cost(costs.map(), u as nat)));
        Ok(cost)
    }

    /// The predecessors of each unit.
    fn collect_preds(&self, unit_of: &Vec<usize>, count: usize) -> (preds: Vec<Vec<usize>>)
        requires
            self@.wf(),
            count == self@.unit_count(),
            unit_of@.len() == self@.steps.len(),
            forall|i: int| 0 <= i < unit_of@.len() ==> #[trigger] unit_of@[i] == self@.unit(i) && unit_of@[i] < count,
        ensures
            lists_of(preds@) == self@.unit_preds(),
            preds@.len() == count,
            units_known(lists_of(preds@), count as nat),
    {
        let mut preds: Vec<Vec<usize>> = Vec::new();
        while preds.len() < count
            invariant
                preds@.len() <= count,
                forall|u: int| 0 <= u < preds@.len() ==> (#[trigger] preds@[u])@.len() == 0,
            decreases count - preds@.len(),
        {
            preds.push(Vec::new());
        }
        proof {
            assert forall|u: int| 0 <= u < count implies lists_of(preds@)[u] == Seq::<usize>::empty() by {
                assert(preds@[u]@ =~= Seq::empty());
            }
            assert(lists_of(preds@) =~= self@.preds(0));
        }
        let mut d: usize = 0;
        while d < self.dependencies.len()
            invariant
                d <= self.dependencies@.len(),
                self.dependencies@ == self@.dependencies,
                self@.wf(),
                unit_of@.len() == self@.steps.len(),
                forall|i: int| 0 <= i < unit_of@.len() ==> #[trigger] unit_of@[i] == self@.unit(i) && unit_of@[i] < count,
                preds@.len() == count,
                lists_of(preds@) == self@.preds(d as nat),
                units_known(lists_of(preds@), count as nat),
            decreases self.dependencies@.len() - d,
        {
            let edge = self.dependencies[d];
            assert(self@.dependencies[d as int] == edge);
            let from: usize = unit_of[edge.from as usize];
            let to: usize = unit_of[edge.to as usize];
            assert(unit_of@[edge.from as int] == self@.unit(edge.from as int));
            assert(unit_of@[edge.to as int] == self@.unit(edge.to as int));
            if edge.cycle_lag == 0 && from != to && !lists_unit(&preds[to], from) {
                let ghost before = lists_of(preds@);
                preds[to].push(from);
                proof {
                    let after = before.update(to as int, before[to as int].push(from));
                    assert(lists_of(preds@) =~= after);
                    assert forall|t: int, k: int| 0 <= t < after.len() && 0 <= k < after[t].len() implies (
                    #[trigger] after[t][k]) < count by {
                        if t != to || k < before[t].len() {
                            assert(after[t][k] == before[t][k]);
                        }
                    }
                }
            }
            d = d + 1;
        }
        preds
    }

    /// A task's unit at each CopperList offset that has one.
    fn collect_units(&self, facts: &KeyFacts, unit_of: &Vec<usize>, count: usize, task: &str) -> (units: Vec<usize>)
        requires
            facts.tell(self@),
            unit_of@.len() == self@.steps.len(),
            forall|i: int| 0 <= i < unit_of@.len() ==> #[trigger] unit_of@[i] == self@.unit(i) && unit_of@[i] < count,
        ensures
            units@ == self@.task_units(task@),
            forall|k: int| 0 <= k < units@.len() ==> (#[trigger] units@[k]) < count,
            units@.len() <= self@.copperlists_per_cycle,
    {
        let name: Option<Vec<char>> = Some(chars_of(task));
        let n: usize = self.steps.len();
        let mut units: Vec<usize> = Vec::new();
        let mut offset: u32 = 0;
        while offset < self.copperlists_per_cycle
            invariant
                offset <= self.copperlists_per_cycle,
                n == self.steps@.len(),
                optional_text(name) == Some(task@),
                facts.tell(self@),
                unit_of@.len() == self@.steps.len(),
                forall|i: int| 0 <= i < unit_of@.len() ==> #[trigger] unit_of@[i] == self@.unit(i) && unit_of@[i] < count,
                units@ == self@.units_of(task@, offset as nat),
                forall|k: int| 0 <= k < units@.len() ==> (#[trigger] units@[k]) < count,
                units@.len() <= offset,
            decreases self.copperlists_per_cycle - offset,
        {
            let mut found: Option<usize> = None;
            let mut i: usize = 0;
            while i < n && found.is_none()
                invariant
                    i <= n,
                    n == self.steps@.len(),
                    optional_text(name) == Some(task@),
                    facts.tell(self@),
                    match found {
                        Some(j) => j < n && self@.step_from(task@, offset as int, 0) == Some(j as int),
                        None => self@.step_from(task@, offset as int, 0) == self@.step_from(
                            task@,
                            offset as int,
                            i as int,
                        ),
                    },
                decreases n - i, (if found is None { 1int } else { 0int }),
            {
                assert(self@.steps[i as int] == self.steps@[i as int]@);
                assert(facts.refine@[i as int] == self@.refine(i as int));
                assert(optional_text(facts.task@[i as int]) == self@.task(i as int));
                if self.steps[i].copperlist == offset && !facts.refine[i] && same_optional(&facts.task[i], &name) {
                    found = Some(i);
                } else {
                    i = i + 1;
                }
            }
            if let Some(j) = found {
                assert(unit_of@[j as int] == self@.unit(j as int));
                units.push(unit_of[j]);
            }
            offset = offset + 1;
        }
        units
    }
}

/// Whether a list holds a unit.
fn lists_unit(list: &Vec<usize>, unit: usize) -> (r: bool)
    ensures
        r == list@.contains(unit),
{
    let mut i: usize = 0;
    while i < list.len()
        invariant
            i <= list@.len(),
            forall|j: int| 0 <= j < i ==> #[trigger] list@[j] != unit,
        decreases list@.len() - i,
    {
        if list[i] == unit {
            return true;
        }
        i = i + 1;
    }
    false
}

impl Model {
    /// Model an inventory under a contract and a profile.
    pub fn new(
        inventory: CuInventory,
        contract: &CuContract,
        profile: &CuProfile,
        rate_target_hz: Option<u64>,
    ) -> (r: CuResult<Model>)
        requires
            inventory@.wf(),
            period_ns(rate_target_hz, *profile) * inventory.copperlists_per_cycle <= u64::MAX,
        ensures
            failure_text(r) == inventory@.model_failure(*contract, *profile),
            r matches Ok(model) ==> model.wf() && model.models(inventory@, *contract, *profile, rate_target_hz),
    {
        let copperlist_ns: u64 = copperlist_period(rate_target_hz, profile);
        let facts: KeyFacts = inventory.key_facts();
        // A refine occurrence joins the unit of its task's base occurrence in
        // the same CopperList; the profile measures the whole job under the
        // base key.
        let (units, unit_of) = match inventory.group_units(&facts) {
            Ok(groups) => groups,
            Err(e) => {
                return Err(e);
            },
        };
        let cost: Vec<u64> = match inventory.unit_costs(&facts, &units, &profile.costs) {
            Ok(cost) => cost,
            Err(e) => {
                return Err(e);
            },
        };
        let count: usize = units.len();
        let preds: Vec<Vec<usize>> = inventory.collect_preds(&unit_of, count);
        // Running an anytime task's phases together must not close a cycle
        // through another component (a resource or state edge into a
        // refinement and out of the base).
        if let Some(unit) = first_unit_on_a_cycle(&preds) {
            proof {
                let m = inventory@;
                assert(m.closes_cycle(unit as int));
                let u = choose|u: int| m.closes_cycle(u);
                assert(u == unit);
                assert(0 <= unit < count);
                assert(inventory.steps.len() == m.steps.len());
                lemma_units(m, unit as nat);
                assert(units@[unit as int]@ == m.unit_steps(unit as nat));
            }
            let first: usize = units[unit][0];
            assert(inventory@.steps[first as int].key == inventory.steps@[first as int].key@);
            let mut m: String = "Step '".to_owned();
            m.append(inventory.steps[first].key.as_str());
            m.append(
                "' and its refinements cannot run together: an edge leads out of one of its phases and back into an earlier one through another component",
            );
            return Err(CuError::new(m));
        }
        let offsets: usize = inventory.copperlists_per_cycle as usize;
        let mut chains: Vec<Vec<(usize, usize)>> = Vec::new();
        let mut chain_deadlines: Vec<u32> = Vec::new();
        let mut c: usize = 0;
        while c < contract.chains.len()
            invariant
                c <= contract.chains@.len(),
                facts.tell(inventory@),
                inventory@.refine_failure(inventory@.steps.len()) is None,
                inventory@.cost_failure(profile.costs.map(), inventory@.unit_count()) is None,
                inventory@.cycle_failure() is None,
                inventory@.chain_failure(contract.chains@, c as nat) is None,
                offsets == inventory@.copperlists_per_cycle,
                unit_of@.len() == inventory@.steps.len(),
                forall|i: int|
                    0 <= i < unit_of@.len() ==> #[trigger] unit_of@[i] == inventory@.unit(i) && unit_of@[i] < count,
                chains@.len() == c,
                forall|d: int|
                    0 <= d < c ==> (#[trigger] chains@[d])@ == inventory@.chain_units(contract.chains@[d]),
                forall|d: int, k: int|
                    0 <= d < c && 0 <= k < chains@[d]@.len() ==> (#[trigger] chains@[d]@[k]).0 < count && chains@[d]@[k].1
                        < count,
                chain_deadlines@.len() == c,
                forall|d: int| 0 <= d < c ==> #[trigger] chain_deadlines@[d] == contract.chains@[d].deadline_ms,
            decreases contract.chains@.len() - c,
        {
            let chain: &CuChain = &contract.chains[c];
            let sources: Vec<usize> = inventory.collect_units(&facts, &unit_of, count, chain.source.as_str());
            let sinks: Vec<usize> = inventory.collect_units(&facts, &unit_of, count, chain.sink.as_str());
            if sources.len() != offsets || sinks.len() != sources.len() {
                proof {
                    lemma_chain_later(inventory@, contract.chains@, (c + 1) as nat, contract.chains@.len());
                }
                let mut m: String = "Chain '".to_owned();
                m.append(chain.id.as_str());
                m.append("' names a task without a whole-phase step");
                return Err(CuError::new(m));
            }
            let mut pairs: Vec<(usize, usize)> = Vec::new();
            let mut k: usize = 0;
            while k < offsets
                invariant
                    k <= offsets,
                    offsets == sources@.len(),
                    offsets == sinks@.len(),
                    forall|j: int| 0 <= j < offsets ==> (#[trigger] sources@[j]) < count,
                    forall|j: int| 0 <= j < offsets ==> (#[trigger] sinks@[j]) < count,
                    pairs@.len() == k,
                    forall|j: int| 0 <= j < k ==> #[trigger] pairs@[j] == (sources@[j], sinks@[j]),
                decreases offsets - k,
            {
                pairs.push((sources[k], sinks[k]));
                k = k + 1;
            }
            assert(pairs@ =~= inventory@.chain_units(*chain));
            assert forall|k: int| 0 <= k < pairs@.len() implies (#[trigger] pairs@[k]).0 < count && pairs@[k].1 < count by {
                assert(pairs@[k] == (sources@[k], sinks@[k]));
            }
            chains.push(pairs);
            chain_deadlines.push(chain.deadline_ms);
            c = c + 1;
        }
        let mut sources: Vec<Vec<usize>> = Vec::new();
        let mut s: usize = 0;
        while s < contract.sources.len()
            invariant
                s <= contract.sources@.len(),
                facts.tell(inventory@),
                unit_of@.len() == inventory@.steps.len(),
                forall|i: int|
                    0 <= i < unit_of@.len() ==> #[trigger] unit_of@[i] == inventory@.unit(i) && unit_of@[i] < count,
                sources@.len() == s,
                forall|d: int|
                    0 <= d < s ==> lists_of(sources@)[d] == inventory@.task_units(contract.sources@[d].task@),
                units_known(lists_of(sources@), count as nat),
            decreases contract.sources@.len() - s,
        {
            let ghost before = lists_of(sources@);
            let list: Vec<usize> = inventory.collect_units(
                &facts,
                &unit_of,
                count,
                contract.sources[s].task.as_str(),
            );
            sources.push(list);
            proof {
                let after = lists_of(sources@);
                assert forall|d: int| 0 <= d < s implies after[d] == before[d] by {}
                assert forall|t: int, k: int| 0 <= t < after.len() && 0 <= k < after[t].len() implies (
                #[trigger] after[t][k]) < count by {
                    if t < s {
                        assert(after[t][k] == before[t][k]);
                    }
                }
            }
            s = s + 1;
        }
        let per_cycle: u32 = inventory.copperlists_per_cycle;
        let max_in_flight: u32 = if contract.max_in_flight >= per_cycle {
            contract.max_in_flight
        } else {
            per_cycle
        };
        let cycle_ns: u64 = copperlist_ns * (per_cycle as u64);
        let cpus: Vec<usize> = contract.cpus.clone();
        proof {
            assert(cpus@ =~= contract.cpus@);
            let m = inventory@;
            assert(inventory.steps.len() == m.steps.len());
            assert(lists_of(units@) =~= Seq::new(m.unit_count(), |u: int| m.unit_steps(u as nat)));
            assert forall|t: int, k: int| 0 <= t < units@.len() && 0 <= k < lists_of(units@)[t].len() implies (
            #[trigger] lists_of(units@)[t][k]) < inventory.steps@.len() by {
                lemma_units(m, t as nat);
                assert(units@[t]@ == m.unit_steps(t as nat));
                assert(m.unit_steps(t as nat)[k] < m.steps.len());
            }
            assert(chain_deadlines@ =~= Seq::new(contract.chains@.len(), |c: int| contract.chains@[c].deadline_ms));
            assert(lists_of(sources@) =~= Seq::new(
                contract.sources@.len(),
                |s: int| m.task_units(contract.sources@[s].task@),
            ));
        }
        Ok(
            Model {
                inventory,
                units,
                cost,
                preds,
                copperlist_ns,
                cycle_ns,
                chains,
                chain_deadlines,
                sources,
                cpus,
                max_in_flight,
                policy: contract.worker_policy,
                deadline_objective: contract.deadline_objective,
            },
        )
    }
}

// ---------------------------------------------------------------------------
// Laws
// ---------------------------------------------------------------------------

/// Whether dependency `d` makes unit `u` wait for unit `v` within a cycle.
pub open spec fn makes_wait(m: InventoryModel, d: int, v: int, u: int) -> bool {
    &&& 0 <= d < m.dependencies.len()
    &&& m.dependencies[d].cycle_lag == 0
    &&& m.unit(m.dependencies[d].from as int) == v
    &&& m.unit(m.dependencies[d].to as int) == u
}

proof fn lemma_preds(m: InventoryModel, n: nat)
    requires
        m.wf(),
        m.steps.len() <= usize::MAX,
        m.refine_failure(m.steps.len()) is None,
        n <= m.dependencies.len(),
    ensures
        m.preds(n).len() == m.unit_count(),
        forall|u: int, v: usize|
            0 <= u < m.unit_count() ==> (#[trigger] m.preds(n)[u].contains(v) <==> v != u && exists|d: int|
                d < n && #[trigger] makes_wait(m, d, v as int, u)),
        forall|u: int| 0 <= u < m.unit_count() ==> (#[trigger] m.preds(n)[u]).no_duplicates(),
    decreases n,
{
    if n > 0 {
        lemma_preds(m, (n - 1) as nat);
        let rest = m.preds((n - 1) as nat);
        let all = m.preds(n);
        let d = m.dependencies[n - 1];
        assert(d.from < m.steps.len() && d.to < m.steps.len());
        lemma_follows(m, m.steps.len(), d.from as int);
        lemma_follows(m, m.steps.len(), d.to as int);
        lemma_unit(m, d.from as int, m.steps.len());
        lemma_unit(m, d.to as int, m.steps.len());
        let from = m.unit(d.from as int);
        let to = m.unit(d.to as int) as int;
        assert forall|u: int, v: usize| 0 <= u < m.unit_count() implies (#[trigger] all[u].contains(v) <==> v != u
            && exists|e: int| e < n && #[trigger] makes_wait(m, e, v as int, u)) by {
            let old = rest[u];
            let new = all[u];
            assert(old.contains(v) <==> v != u && exists|e: int| e < n - 1 && #[trigger] makes_wait(m, e, v as int, u));
            if old.contains(v) {
                let k = old.index_of(v);
                assert(new[k] == v);
                let e = choose|e: int| e < n - 1 && #[trigger] makes_wait(m, e, v as int, u);
                assert(makes_wait(m, e, v as int, u));
            } else if new.contains(v) {
                let k = new.index_of(v);
                if k < old.len() {
                    assert(old[k] == v);
                }
                assert(makes_wait(m, n - 1, v as int, u));
            } else if v != u && exists|e: int| e < n && #[trigger] makes_wait(m, e, v as int, u) {
                let e = choose|e: int| e < n && #[trigger] makes_wait(m, e, v as int, u);
                if e == n - 1 {
                    assert(new[old.len() as int] == v);
                }
            }
        }
        assert forall|u: int| 0 <= u < m.unit_count() implies (#[trigger] all[u]).no_duplicates() by {
            assert(rest[u].no_duplicates());
            if all[u] != rest[u] {
                assert(!rest[u].contains(from as usize));
            }
        }
    }
}

/// A unit waits for another exactly when a dependency of the same cycle leads
/// from an occurrence of that one to an occurrence of its own; each is listed
/// once.
pub proof fn units_wait_for_their_dependencies(
    model: Model,
    m: InventoryModel,
    contract: CuContract,
    profile: CuProfile,
    rate_target_hz: Option<u64>,
    u: int,
    v: usize,
)
    requires
        model.models(m, contract, profile, rate_target_hz),
        m.wf(),
        m.steps.len() <= usize::MAX,
        m.refine_failure(m.steps.len()) is None,
        0 <= u < m.unit_count(),
    ensures
        model.preds@.len() == m.unit_count(),
        model.preds@[u]@.no_duplicates(),
        model.preds@[u]@.contains(v) <==> v != u && exists|d: int| #[trigger] makes_wait(m, d, v as int, u),
{
    lemma_preds(m, m.dependencies.len());
    assert(lists_of(model.preds@)[u] == model.preds@[u]@);
    if exists|d: int| #[trigger] makes_wait(m, d, v as int, u) {
        let d = choose|d: int| #[trigger] makes_wait(m, d, v as int, u);
        assert(d < m.dependencies.len());
    }
    assert(m.unit_preds()[u].contains(v) <==> v != u && exists|d: int|
        d < m.dependencies.len() && #[trigger] makes_wait(m, d, v as int, u));
}

/// A unit costs what its step was measured at, and nothing when the step's
/// compute runs on a pool.
pub proof fn units_cost_what_was_measured(
    model: Model,
    m: InventoryModel,
    contract: CuContract,
    profile: CuProfile,
    rate_target_hz: Option<u64>,
    i: int,
)
    requires
        model.models(m, contract, profile, rate_target_hz),
        m.steps.len() <= usize::MAX,
        m.refine_failure(m.steps.len()) is None,
        0 <= i < m.steps.len(),
        !is_refine_key(m.steps[i].key),
    ensures
        m.unit(i) < model.cost@.len(),
        ({
            let cost = model.cost@[m.unit(i) as int];
            match key_task(m.steps[i].key) {
                Some(task) => if m.background.contains(task) {
                    cost == 0
                } else {
                    cost == profile.costs.map()[m.steps[i].key]
                },
                None => cost == profile.costs.map()[m.steps[i].key],
            }
        }),
{
    units_hold_every_occurrence_once(m, i, i);
}

proof fn lemma_step_from(m: InventoryModel, task: Seq<char>, offset: int, i: int)
    requires
        0 <= i,
    ensures
        match m.step_from(task, offset, i) {
            Some(k) => i <= k < m.steps.len() && m.is_step_of(k, task, offset) && forall|j: int|
                i <= j < k ==> !#[trigger] m.is_step_of(j, task, offset),
            None => forall|j: int| i <= j < m.steps.len() ==> !#[trigger] m.is_step_of(j, task, offset),
        },
    decreases m.steps.len() - i,
{
    if i < m.steps.len() && !m.is_step_of(i, task, offset) {
        lemma_step_from(m, task, offset, i + 1);
    }
}

/// Whether occurrence `i` is the first one that is a step of `task` in that
/// CopperList of the cycle, and no refinement.
pub open spec fn is_task_step(m: InventoryModel, task: Seq<char>, offset: int, i: int) -> bool {
    &&& 0 <= i < m.steps.len()
    &&& m.steps[i].copperlist == offset
    &&& !is_refine_key(m.steps[i].key)
    &&& key_task(m.steps[i].key) == Some(task)
    &&& forall|j: int|
        0 <= j < i && (#[trigger] m.steps[j]).copperlist == offset && key_task(m.steps[j].key) == Some(task)
            ==> is_refine_key(m.steps[j].key)
}

/// Whether a task has a step in that CopperList of the cycle.
pub open spec fn has_task_step(m: InventoryModel, task: Seq<char>, offset: int) -> bool {
    exists|i: int| #[trigger] is_task_step(m, task, offset, i)
}

proof fn lemma_task_step(m: InventoryModel, task: Seq<char>, offset: int)
    ensures
        m.step_from(task, offset, 0) is Some <==> has_task_step(m, task, offset),
        m.step_from(task, offset, 0) matches Some(k) ==> is_task_step(m, task, offset, k),
        forall|i: int| #[trigger] is_task_step(m, task, offset, i) ==> m.step_from(task, offset, 0) == Some(i),
{
    lemma_step_from(m, task, offset, 0);
    if m.step_from(task, offset, 0) is Some {
        let k = m.step_from(task, offset, 0)->0;
        assert forall|j: int|
            0 <= j < k && (#[trigger] m.steps[j]).copperlist == offset && key_task(m.steps[j].key) == Some(task) implies is_refine_key(
            m.steps[j].key,
        ) by {
            assert(!m.is_step_of(j, task, offset));
        }
        assert(is_task_step(m, task, offset, k));
    }
    assert forall|i: int| #[trigger] is_task_step(m, task, offset, i) implies m.step_from(task, offset, 0) == Some(i) by {
        assert(m.is_step_of(i, task, offset));
        let k = m.step_from(task, offset, 0)->0;
        if k < i {
            assert(m.is_step_of(k, task, offset));
            assert(is_refine_key(m.steps[k].key));
        }
    }
}

proof fn lemma_units_of(m: InventoryModel, task: Seq<char>, n: nat)
    ensures
        m.units_of(task, n).len() <= n,
        m.units_of(task, n).len() == n <==> forall|c: int| 0 <= c < n ==> #[trigger] has_task_step(m, task, c),
        m.units_of(task, n).len() == n ==> forall|c: int, i: int|
            0 <= c < n && #[trigger] is_task_step(m, task, c, i) ==> m.units_of(task, n)[c] == m.unit(i) as usize,
    decreases n,
{
    if n > 0 {
        lemma_units_of(m, task, (n - 1) as nat);
        lemma_task_step(m, task, n - 1);
        let rest = m.units_of(task, (n - 1) as nat);
        if m.units_of(task, n).len() == n {
            assert(rest.len() == n - 1);
            assert forall|c: int, i: int| 0 <= c < n && #[trigger] is_task_step(m, task, c, i) implies m.units_of(
                task,
                n,
            )[c] == m.unit(i) as usize by {
                if c < n - 1 {
                    assert(rest[c] == m.unit(i) as usize);
                }
            }
        }
    }
}

/// A chain goes, at every CopperList of a cycle, from the unit of its source's
/// step to the unit of its sink's step.
pub proof fn chains_go_from_source_to_sink(
    model: Model,
    m: InventoryModel,
    contract: CuContract,
    profile: CuProfile,
    rate_target_hz: Option<u64>,
    c: int,
    k: int,
    i: int,
    j: int,
)
    requires
        model.models(m, contract, profile, rate_target_hz),
        m.steps.len() <= usize::MAX,
        m.refine_failure(m.steps.len()) is None,
        m.chain_failure(contract.chains@, contract.chains@.len()) is None,
        0 <= c < contract.chains@.len(),
        0 <= k < m.copperlists_per_cycle,
        is_task_step(m, contract.chains@[c].source@, k, i),
        is_task_step(m, contract.chains@[c].sink@, k, j),
    ensures
        model.chains@.len() == contract.chains@.len(),
        model.chains@[c]@.len() == m.copperlists_per_cycle,
        model.chains@[c]@[k].0 == m.unit(i),
        model.chains@[c]@[k].1 == m.unit(j),
        model.chain_deadlines@[c] == contract.chains@[c].deadline_ms,
{
    let chain = contract.chains@[c];
    let n = m.copperlists_per_cycle as nat;
    lemma_chains_known(m, contract.chains@, contract.chains@.len());
    assert(m.has_chain(chain));
    lemma_units_of(m, chain.source@, n);
    lemma_units_of(m, chain.sink@, n);
    assert(model.chains@[c]@ == m.chain_units(chain));
    lemma_follows(m, m.steps.len(), i);
    lemma_follows(m, m.steps.len(), j);
    lemma_unit(m, i, m.steps.len());
    lemma_unit(m, j, m.steps.len());
}

proof fn lemma_chains_known(m: InventoryModel, chains: Seq<CuChain>, n: nat)
    requires
        n <= chains.len(),
    ensures
        m.chain_failure(chains, n) is None <==> forall|c: int| 0 <= c < n ==> m.has_chain(#[trigger] chains[c]),
    decreases n,
{
    if n > 0 {
        lemma_chains_known(m, chains, (n - 1) as nat);
        if m.chain_failure(chains, n) is Some && m.chain_failure(chains, (n - 1) as nat) is None {
            assert(!m.has_chain(chains[n - 1]));
        }
    }
}

proof fn lemma_costs_known(m: InventoryModel, costs: Map<Seq<char>, u64>, n: nat)
    ensures
        m.cost_failure(costs, n) is None <==> forall|u: int|
            0 <= u < n ==> #[trigger] m.in_background(u as nat) || costs.dom().contains(m.unit_key(u as nat)),
    decreases n,
{
    if n > 0 {
        lemma_costs_known(m, costs, (n - 1) as nat);
        if m.cost_failure(costs, n) is Some && m.cost_failure(costs, (n - 1) as nat) is None {
            assert(!m.in_background((n - 1) as nat));
        }
    }
}

/// Whether a step's compute runs on a pool.
pub open spec fn runs_on_a_pool(m: InventoryModel, i: int) -> bool {
    key_task(m.steps[i].key) matches Some(task) && m.background.contains(task)
}

/// Whether a chain has a step of its source and of its sink in every CopperList
/// of the cycle.
pub open spec fn chain_has_steps(m: InventoryModel, chain: CuChain) -> bool {
    &&& forall|k: int| 0 <= k < m.copperlists_per_cycle ==> #[trigger] has_task_step(m, chain.source@, k)
    &&& forall|k: int| 0 <= k < m.copperlists_per_cycle ==> #[trigger] has_task_step(m, chain.sink@, k)
}

/// An inventory can be modelled exactly when every refinement comes after its
/// step, every step is measured or runs on a pool, no units wait for each
/// other, and every chain has its steps in every CopperList of the cycle.
pub proof fn what_can_be_modelled(m: InventoryModel, contract: CuContract, profile: CuProfile)
    requires
        m.wf(),
        m.steps.len() <= usize::MAX,
    ensures
        m.model_failure(contract, profile) is None <==> {
            &&& forall|i: int|
                0 <= i < m.steps.len() && is_refine_key((#[trigger] m.steps[i]).key) ==> exists|j: int|
                    0 <= j < i && #[trigger] belongs_to(m, i, j)
            &&& forall|i: int|
                0 <= i < m.steps.len() && !is_refine_key((#[trigger] m.steps[i]).key) ==> runs_on_a_pool(m, i)
                    || profile.costs.map().dom().contains(m.steps[i].key)
            &&& forall|u: int| !#[trigger] on_a_cycle(m.unit_preds(), u)
            &&& forall|c: int| 0 <= c < contract.chains@.len() ==> chain_has_steps(m, #[trigger] contract.chains@[c])
        },
{
    let n = m.steps.len();
    let costs = profile.costs.map();
    refinements_need_a_base(m, n);
    if m.refine_failure(n) is None {
        lemma_costs_known(m, costs, m.unit_count());
        lemma_measured(m, costs);
        lemma_chains_known(m, contract.chains@, contract.chains@.len());
        assert forall|c: int| 0 <= c < contract.chains@.len() implies (m.has_chain(#[trigger] contract.chains@[c])
            <==> chain_has_steps(m, contract.chains@[c])) by {
            lemma_units_of(m, contract.chains@[c].source@, m.copperlists_per_cycle as nat);
            lemma_units_of(m, contract.chains@[c].sink@, m.copperlists_per_cycle as nat);
        }
        if exists|u: int| on_a_cycle(m.unit_preds(), u) {
            let u = choose|u: int| on_a_cycle(m.unit_preds(), u);
            let v = lemma_first_on_a_cycle(m.unit_preds(), u);
            assert(m.closes_cycle(v));
        }
        if exists|u: int| m.closes_cycle(u) {
            let u = choose|u: int| m.closes_cycle(u);
            assert(on_a_cycle(m.unit_preds(), u));
        }
    }
}

proof fn lemma_first_on_a_cycle(preds: Seq<Seq<usize>>, u: int) -> (v: int)
    requires
        on_a_cycle(preds, u),
    ensures
        on_a_cycle(preds, v),
        forall|w: int| w < v ==> !#[trigger] on_a_cycle(preds, w),
    decreases u,
{
    if exists|w: int| w < u && #[trigger] on_a_cycle(preds, w) {
        let w = choose|w: int| w < u && #[trigger] on_a_cycle(preds, w);
        lemma_first_on_a_cycle(preds, w)
    } else {
        u
    }
}

proof fn lemma_measured(m: InventoryModel, costs: Map<Seq<char>, u64>)
    requires
        m.steps.len() <= usize::MAX,
        m.refine_failure(m.steps.len()) is None,
    ensures
        (forall|u: int|
            0 <= u < m.unit_count() ==> #[trigger] m.in_background(u as nat) || costs.dom().contains(
                m.unit_key(u as nat),
            )) <==> forall|i: int|
            0 <= i < m.steps.len() && !is_refine_key((#[trigger] m.steps[i]).key) ==> runs_on_a_pool(m, i)
                || costs.dom().contains(m.steps[i].key),
{
    let n = m.steps.len();
    if forall|u: int|
        0 <= u < m.unit_count() ==> #[trigger] m.in_background(u as nat) || costs.dom().contains(m.unit_key(u as nat)) {
        assert forall|i: int| 0 <= i < n && !is_refine_key((#[trigger] m.steps[i]).key) implies runs_on_a_pool(m, i)
            || costs.dom().contains(m.steps[i].key) by {
            units_hold_every_occurrence_once(m, i, i);
            assert(m.in_background(m.unit(i)) || costs.dom().contains(m.unit_key(m.unit(i))));
        }
    }
    if forall|i: int|
        0 <= i < n && !is_refine_key((#[trigger] m.steps[i]).key) ==> runs_on_a_pool(m, i) || costs.dom().contains(
            m.steps[i].key,
        ) {
        assert forall|u: int| 0 <= u < m.unit_count() implies #[trigger] m.in_background(u as nat)
            || costs.dom().contains(m.unit_key(u as nat)) by {
            let i = lemma_base_of_unit(m, u as nat, n);
            assert(m.unit(i) == u);
            units_hold_every_occurrence_once(m, i, i);
            assert(!is_refine_key(m.steps[i].key));
        }
    }
}

/// The period of a CopperList is that of the target rate, or the mean of the
/// recording, at least one nanosecond; a cycle takes as many as it holds.
pub proof fn periods_follow_the_rate(
    model: Model,
    m: InventoryModel,
    contract: CuContract,
    profile: CuProfile,
    rate_target_hz: Option<u64>,
)
    requires
        model.models(m, contract, profile, rate_target_hz),
    ensures
        rate_target_hz matches Some(rate) ==> rate > 0 ==> model.copperlist_ns * rate <= 1_000_000_000 < (
        model.copperlist_ns + 1) * rate,
        rate_target_hz == Some(0u64) ==> model.copperlist_ns == 1_000_000_000,
        rate_target_hz is None && profile.copperlists > 0 && profile.window_ns >= profile.copperlists
            ==> model.copperlist_ns * profile.copperlists <= profile.window_ns < (model.copperlist_ns + 1)
            * profile.copperlists,
        rate_target_hz is None && profile.window_ns < profile.copperlists ==> model.copperlist_ns == 1,
        model.cycle_ns == model.copperlist_ns * m.copperlists_per_cycle,
{
    if rate_target_hz is Some {
        let rate = rate_target_hz->0 as int;
        if rate > 0 {
            lemma_quotient(1_000_000_000, rate);
        }
    } else {
        let (window, count) = (profile.window_ns as int, profile.copperlists as int);
        if count > 0 {
            lemma_quotient(window, count);
            if window >= count {
                assert(window / count > 0) by (nonlinear_arith)
                    requires
                        window >= count,
                        count > 0,
                ;
            } else {
                assert(window / count == 0) by (nonlinear_arith)
                    requires
                        0 <= window < count,
                ;
            }
        }
    }
}

proof fn lemma_quotient(a: int, b: int)
    requires
        a >= 0,
        b > 0,
    ensures
        (a / b) * b <= a < (a / b + 1) * b,
{
    vstd::arithmetic::div_mod::lemma_fundamental_div_mod(a, b);
    let q = a / b;
    assert(q * b <= a < (q + 1) * b) by (nonlinear_arith)
        requires
            a == b * q + a % b,
            0 <= a % b < b,
    ;
}

/// A model takes the CPUs, the policy and the objective of its contract, and
/// lets in flight what the contract says, but at least a cycle's worth.
pub proof fn models_keep_their_contract(
    model: Model,
    m: InventoryModel,
    contract: CuContract,
    profile: CuProfile,
    rate_target_hz: Option<u64>,
)
    requires
        model.models(m, contract, profile, rate_target_hz),
    ensures
        model.inventory@ == m,
        model.cpus@ == contract.cpus@,
        model.policy == contract.worker_policy,
        model.deadline_objective == contract.deadline_objective,
        model.max_in_flight >= contract.max_in_flight,
        model.max_in_flight >= m.copperlists_per_cycle,
        model.max_in_flight == contract.max_in_flight || model.max_in_flight == m.copperlists_per_cycle,
        model.units@.len() == m.unit_count(),
        forall|u: int| 0 <= u < m.unit_count() ==> (#[trigger] model.units@[u])@ == m.unit_steps(u as nat),
{
    assert(lists_of(model.units@).len() == model.units@.len());
    assert forall|u: int| 0 <= u < m.unit_count() implies (#[trigger] model.units@[u])@ == m.unit_steps(u as nat) by {
        assert(lists_of(model.units@)[u] == model.units@[u]@);
    }
}

proof fn lemma_total_cost_sum(cost: Seq<u64>, n: nat)
    requires
        n <= cost.len(),
    ensures
        total_cost(cost, n) == sum(Seq::new(n, |u: int| cost[u] as nat)),
    decreases n,
{
    let all = Seq::new(n, |u: int| cost[u] as nat);
    if n == 0 {
        assert(all =~= Seq::<nat>::empty());
        lemma_sum_empty();
    } else {
        lemma_total_cost_sum(cost, (n - 1) as nat);
        let rest = Seq::new((n - 1) as nat, |u: int| cost[u] as nat);
        assert(all =~= rest.push(cost[n - 1] as nat));
        lemma_sum_push(rest, cost[n - 1] as nat);
    }
}

/// The total cost is the sum of the costs.
pub proof fn total_cost_adds_up(cost: Seq<u64>)
    ensures
        total_cost(cost, cost.len()) == sum(Seq::new(cost.len(), |u: int| cost[u] as nat)),
{
    lemma_total_cost_sum(cost, cost.len());
}

/// The first chain that names a task without a step is told.
pub proof fn the_first_unknown_chain_is_told(m: InventoryModel, chains: Seq<CuChain>, c: int, n: nat)
    requires
        0 <= c < n <= chains.len(),
        !m.has_chain(chains[c]),
        forall|d: int| 0 <= d < c ==> m.has_chain(#[trigger] chains[d]),
    ensures
        m.chain_failure(chains, n) == Some("Chain '"@ + chains[c].id@ + "' names a task without a whole-phase step"@),
    decreases n,
{
    if c == n - 1 {
        lemma_chains_known(m, chains, (n - 1) as nat);
    } else {
        the_first_unknown_chain_is_told(m, chains, c, (n - 1) as nat);
    }
}

/// The first unit that waits for itself is told.
pub proof fn the_first_unit_on_a_cycle_is_told(m: InventoryModel, u: int)
    requires
        on_a_cycle(m.unit_preds(), u),
        forall|v: int| v < u ==> !#[trigger] on_a_cycle(m.unit_preds(), v),
    ensures
        m.cycle_failure() == Some(
            "Step '"@ + m.unit_key(u as nat)
                + "' and its refinements cannot run together: an edge leads out of one of its phases and back into an earlier one through another component"@,
        ),
{
    assert(m.closes_cycle(u));
    let v = choose|v: int| m.closes_cycle(v);
    if v < u {
        assert(on_a_cycle(m.unit_preds(), v));
    }
    if u < v {
        assert(on_a_cycle(m.unit_preds(), u));
    }
}

proof fn lemma_measured_so_far(m: InventoryModel, costs: Map<Seq<char>, u64>, n: nat)
    requires
        forall|v: int|
            0 <= v < n ==> m.in_background(v as nat) || costs.dom().contains(#[trigger] m.unit_key(v as nat)),
    ensures
        m.cost_failure(costs, n) is None,
    decreases n,
{
    if n > 0 {
        lemma_measured_so_far(m, costs, (n - 1) as nat);
        assert(costs.dom().contains(m.unit_key((n - 1) as nat)) || m.in_background((n - 1) as nat));
    }
}

/// The first unit that neither runs on a pool nor was measured is told.
pub proof fn the_first_unmeasured_unit_is_told(m: InventoryModel, costs: Map<Seq<char>, u64>, u: nat, n: nat)
    requires
        u < n,
        !m.in_background(u),
        !costs.dom().contains(m.unit_key(u)),
        forall|v: int|
            0 <= v < u ==> m.in_background(v as nat) || costs.dom().contains(#[trigger] m.unit_key(v as nat)),
    ensures
        m.cost_failure(costs, n) == Some("The profile has no measurement for '"@ + m.unit_key(u) + "'"@),
    decreases n,
{
    if u == n - 1 {
        lemma_measured_so_far(m, costs, u);
    } else {
        the_first_unmeasured_unit_is_told(m, costs, u, (n - 1) as nat);
    }
}

/// What is wrong is told in this order: a stray refinement, a missing measurement,
/// units that wait for each other, a chain of unknown tasks.
pub proof fn what_is_told_of_first(m: InventoryModel, contract: CuContract, profile: CuProfile)
    ensures
        ({
            let told = m.model_failure(contract, profile);
            let stray = m.refine_failure(m.steps.len());
            let cost = m.cost_failure(profile.costs.map(), m.unit_count());
            let cycle = m.cycle_failure();
            &&& stray is Some ==> told == stray
            &&& stray is None && cost is Some ==> told == cost
            &&& stray is None && cost is None && cycle is Some ==> told == cycle
            &&& stray is None && cost is None && cycle is None ==> told == m.chain_failure(
                contract.chains@,
                contract.chains@.len(),
            )
        }),
{
}

/// Whether a task has a step in a CopperList of the cycle, as a function.
pub open spec fn runs_in_copperlist(m: InventoryModel, task: Seq<char>) -> spec_fn(int) -> bool {
    |c: int| has_task_step(m, task, c)
}

/// The unit of a task's step in a CopperList of the cycle.
pub open spec fn unit_in_copperlist(m: InventoryModel, task: Seq<char>) -> spec_fn(int) -> usize {
    |c: int| m.unit(choose|i: int| is_task_step(m, task, c, i)) as usize
}

/// The units of a task are those of its step in each CopperList of the cycle that
/// has one, in order.
pub proof fn tasks_have_a_unit_per_copperlist(m: InventoryModel, task: Seq<char>, n: nat)
    ensures
        m.units_of(task, n) == places(n).filter(runs_in_copperlist(m, task)).map_values(unit_in_copperlist(m, task)),
    decreases n,
{
    reveal(Seq::filter);
    let f = runs_in_copperlist(m, task);
    let g = unit_in_copperlist(m, task);
    if n == 0 {
        assert(places(n).filter(f) =~= Seq::<int>::empty());
        assert(m.units_of(task, n) =~= places(n).filter(f).map_values(g));
    } else {
        tasks_have_a_unit_per_copperlist(m, task, (n - 1) as nat);
        lemma_task_step(m, task, n - 1);
        assert(places(n).drop_last() =~= places((n - 1) as nat));
        assert(places(n).last() == n - 1);
        let c = n - 1;
        if has_task_step(m, task, c) {
            let i = choose|i: int| is_task_step(m, task, c, i);
            assert(is_task_step(m, task, c, i));
            assert(g(c) == m.unit(i) as usize);
        }
        assert(m.units_of(task, n) =~= places(n).filter(f).map_values(g));
    }
}

/// A source of the contract has the units of its task.
pub proof fn sources_have_the_units_of_their_task(
    model: Model,
    m: InventoryModel,
    contract: CuContract,
    profile: CuProfile,
    rate_target_hz: Option<u64>,
    s: int,
)
    requires
        model.models(m, contract, profile, rate_target_hz),
        0 <= s < contract.sources@.len(),
    ensures
        model.sources@.len() == contract.sources@.len(),
        model.sources@[s]@ == places(m.copperlists_per_cycle as nat).filter(
            runs_in_copperlist(m, contract.sources@[s].task@),
        ).map_values(unit_in_copperlist(m, contract.sources@[s].task@)),
{
    tasks_have_a_unit_per_copperlist(m, contract.sources@[s].task@, m.copperlists_per_cycle as nat);
    assert(lists_of(model.sources@).len() == model.sources@.len());
    assert(lists_of(model.sources@)[s] == model.sources@[s]@);
}

} // verus!
