//! What a process plan demands of a schedule, and the schedule that runs the
//! plan serially.

use crate::assembled::execution_keys;
use crate::assembled::AssembledPlan;
use crate::assembled::CuExecutionUnit;
use crate::assembled::PlanEntity;
use crate::assembled::PlanEntityKind;
use crate::error::failure_text;
use crate::error::CuError;
use crate::error::CuResult;
use crate::schedule::ascending;
use crate::schedule::CuMissionPlan;
use crate::schedule::CuPlanDependency;
use crate::schedule::CuPlanLane;
use crate::schedule::CuPlanPlacement;
use crate::schedule::CuPlanStep;
use crate::schedule::PlanModel;
use crate::schedule::PlanShape;
use crate::schedule::ShapeModel;
use crate::sorted::insert;
use crate::sorted::lemma_insert;
use crate::sorted::lemma_same_elements;
use crate::sorted::lemma_sort;
use crate::sorted::position;
use crate::sorted::sorted;
use crate::sorted::Ordered;
use vstd::prelude::*;

verus! {

impl AssembledPlan {
    /// The last of the first `n` steps that writes at `culist_index`.
    pub open spec fn producer(self, culist_index: u32, n: nat) -> Option<int>
        decreases n,
    {
        if n == 0 {
            None
        } else if self.step(n - 1).output_msg_pack matches Some(pack) && pack.culist_index == culist_index {
            Some(n - 1)
        } else {
            self.producer(culist_index, (n - 1) as nat)
        }
    }

    /// The step that writes what input `k` of step `i` reads.
    pub open spec fn source(self, i: int, k: int) -> Option<int> {
        self.producer(self.step(i).input_msg_indices_types@[k].culist_index, self.execution.steps@.len())
    }

    /// Whether step `i` has an input `k`.
    pub open spec fn reads(self, i: int, k: int) -> bool {
        0 <= i < self.execution.steps@.len() && 0 <= k < self.step(i).input_msg_indices_types@.len()
    }

    /// Whether `b` is the step after `a` of the same node.
    pub open spec fn phases_follow(self, a: int, b: int) -> bool {
        &&& 0 <= a < b < self.execution.steps@.len()
        &&& self.step(a).node_id == self.step(b).node_id
        &&& forall|c: int| a < c < b ==> #[trigger] self.step(c).node_id != self.step(a).node_id
    }

    /// Whether step `b` reads what step `a` writes.
    pub open spec fn message_flows(self, a: int, b: int) -> bool {
        exists|k: int| #[trigger] self.reads(b, k) && self.source(b, k) == Some(a)
    }

    /// The component whose state a step of this entity changes: tasks before
    /// bridges, each by index. A stateless task has none.
    pub open spec fn component_of(entity: PlanEntity) -> Option<(usize, usize)> {
        match entity.kind {
            PlanEntityKind::Task { task_index, stateless, .. } => if stateless {
                None
            } else {
                Some((0, task_index))
            },
            PlanEntityKind::BridgeRx { bridge_config_index, .. } => Some((1, bridge_config_index)),
            PlanEntityKind::BridgeTx { bridge_config_index, .. } => Some((1, bridge_config_index)),
        }
    }

    /// The component whose state step `i` changes.
    pub open spec fn component(self, i: int) -> Option<(usize, usize)> {
        Self::component_of(self.entities@[self.step(i).node_id as int])
    }

    /// Those of the first `n` steps that change the state of `component`.
    pub open spec fn component_steps(self, component: (usize, usize), n: nat) -> Seq<usize>
        decreases n,
    {
        if n == 0 {
            Seq::empty()
        } else {
            let rest = self.component_steps(component, (n - 1) as nat);
            if self.component(n - 1) == Some(component) {
                rest.push((n - 1) as usize)
            } else {
                rest
            }
        }
    }

    /// Whether `names` are the components that the first `n` steps change,
    /// ascending, and `lists` their steps.
    pub open spec fn are_components(self, names: Seq<(usize, usize)>, lists: Seq<Seq<usize>>, n: nat) -> bool {
        &&& sorted(names)
        &&& forall|name: (usize, usize)| #[trigger]
            names.contains(name) <==> exists|i: int| 0 <= i < n && #[trigger] self.component(i) == Some(name)
        &&& lists.len() == names.len()
        &&& forall|c: int| 0 <= c < lists.len() ==> #[trigger] lists[c] == self.component_steps(names[c], n)
    }

    /// What stops a plan from being scheduled.
    pub open spec fn shape_failure(self) -> Option<Seq<char>> {
        if !self.flat() {
            Some("Nested loops are not supported by plan version 1"@)
        } else if exists|i: int, k: int| #[trigger] self.reads(i, k) && self.source(i, k) is None {
            Some("Missing process-step producer"@)
        } else {
            None
        }
    }

    /// Whether `shape` is what the plan demands of a schedule: its steps, each
    /// message producer before its consumers, the phases of a task in order,
    /// and the steps of each component.
    pub open spec fn has_shape(self, mission: Seq<char>, shape: ShapeModel) -> bool {
        let n = self.execution.steps@.len();
        &&& shape.keys == Seq::new(n, |i: int| self.key(mission, i))
        &&& sorted(shape.required)
        &&& forall|a: usize, b: usize| #[trigger]
            shape.required.contains((a, b)) <==> self.phases_follow(a as int, b as int) || self.message_flows(
                a as int,
                b as int,
            )
        &&& exists|names: Seq<(usize, usize)>| self.are_components(names, shape.components, n)
    }

    /// What the plan demands of a schedule.
    pub open spec fn shape(self, mission: Seq<char>) -> ShapeModel {
        choose|shape: ShapeModel| self.has_shape(mission, shape)
    }
}

/// A plan demands one thing of a schedule.
pub proof fn shape_is_unique(plan: AssembledPlan, mission: Seq<char>, shape: ShapeModel)
    requires
        plan.has_shape(mission, shape),
    ensures
        plan.shape(mission) == shape,
{
    let other = plan.shape(mission);
    let n = plan.execution.steps@.len();
    assert forall|pair: (usize, usize)| #[trigger] shape.required.contains(pair) <==> other.required.contains(pair) by {
        assert(shape.required.contains((pair.0, pair.1)) <==> other.required.contains((pair.0, pair.1)));
    }
    lemma_same_elements(shape.required, other.required);
    let a = choose|names: Seq<(usize, usize)>| plan.are_components(names, shape.components, n);
    let b = choose|names: Seq<(usize, usize)>| plan.are_components(names, other.components, n);
    assert forall|name: (usize, usize)| #[trigger] a.contains(name) <==> b.contains(name) by {}
    lemma_same_elements(a, b);
    assert(shape.components =~= other.components);
}

proof fn lemma_component_steps(plan: AssembledPlan, component: (usize, usize), n: nat)
    requires
        n <= usize::MAX,
    ensures
        ascending(plan.component_steps(component, n)),
        forall|i: int|
            0 <= i < plan.component_steps(component, n).len() ==> (#[trigger] plan.component_steps(component, n)[i]) < n,
        forall|i: int|
            0 <= i < n && #[trigger] plan.component(i) == Some(component) ==> plan.component_steps(component, n).contains(
                i as usize,
            ),
    decreases n,
{
    if n > 0 {
        let rest = plan.component_steps(component, (n - 1) as nat);
        let all = plan.component_steps(component, n);
        lemma_component_steps(plan, component, (n - 1) as nat);
        assert forall|i: int, j: int| 0 <= i < j < all.len() implies #[trigger] all[i] < #[trigger] all[j] by {
            if j < rest.len() {
                assert(rest[i] < rest[j]);
            } else {
                assert(rest[i] < n - 1);
            }
        }
        assert forall|i: int| 0 <= i < n && #[trigger] plan.component(i) == Some(component) implies all.contains(i as usize) by {
            if i < n - 1 {
                let at = rest.index_of(i as usize);
                assert(all[at] == i as usize);
            } else {
                assert(all[rest.len() as int] == i as usize);
            }
        }
    }
}

proof fn lemma_component_members(plan: AssembledPlan, component: (usize, usize), n: nat, i: usize)
    requires
        n <= usize::MAX,
    ensures
        plan.component_steps(component, n).contains(i) <==> i < n && plan.component(i as int) == Some(component),
    decreases n,
{
    lemma_component_steps(plan, component, n);
    if n > 0 {
        lemma_component_members(plan, component, (n - 1) as nat, i);
        let rest = plan.component_steps(component, (n - 1) as nat);
        let all = plan.component_steps(component, n);
        if all.contains(i) {
            let at = all.index_of(i);
            if at < rest.len() {
                assert(rest[at] == i);
            }
        }
    }
}

/// Whether step `i` belongs to component `c`.
pub open spec fn belongs(shape: ShapeModel, c: int, i: usize) -> bool {
    0 <= c < shape.components.len() && shape.components[c].contains(i)
}

/// Two steps share a component exactly when they change the state of the same
/// task or bridge. A step of a stateless task belongs to no component.
pub proof fn components_share_state(plan: AssembledPlan, mission: Seq<char>, shape: ShapeModel, i: usize, j: usize)
    requires
        plan.has_shape(mission, shape),
        plan.execution.steps@.len() <= usize::MAX,
        i < plan.execution.steps@.len(),
        j < plan.execution.steps@.len(),
    ensures
        (exists|c: int| #[trigger] belongs(shape, c, i) && belongs(shape, c, j)) <==> plan.component(i as int) is Some
            && plan.component(i as int) == plan.component(j as int),
        plan.component(i as int) is None ==> forall|c: int| !#[trigger] belongs(shape, c, i),
{
    let n = plan.execution.steps@.len();
    let names = choose|names: Seq<(usize, usize)>| plan.are_components(names, shape.components, n);
    assert forall|c: int, k: usize| #[trigger] belongs(shape, c, k) implies plan.component(k as int) == Some(names[c]) by {
        assert(shape.components[c] == plan.component_steps(names[c], n));
        lemma_component_members(plan, names[c], n, k);
    }
    if plan.component(i as int) is Some && plan.component(i as int) == plan.component(j as int) {
        let name = plan.component(i as int)->0;
        assert(names.contains(name));
        let c = names.index_of(name);
        assert(shape.components[c] == plan.component_steps(name, n));
        lemma_component_members(plan, name, n, i);
        lemma_component_members(plan, name, n, j);
        assert(belongs(shape, c, i) && belongs(shape, c, j));
    }
}

/// Whether two nodes call the same instance, which has one mutable state: the
/// same task that is not stateless, or the same bridge from either end.
pub open spec fn same_instance(a: PlanEntity, b: PlanEntity) -> bool {
    match (a.kind, b.kind) {
        (
            PlanEntityKind::Task { task_index: i, stateless: x, .. },
            PlanEntityKind::Task { task_index: j, stateless: y, .. },
        ) => i == j && !x && !y,
        (
            PlanEntityKind::BridgeRx { bridge_config_index: i, .. },
            PlanEntityKind::BridgeRx { bridge_config_index: j, .. },
        ) => i == j,
        (
            PlanEntityKind::BridgeRx { bridge_config_index: i, .. },
            PlanEntityKind::BridgeTx { bridge_config_index: j, .. },
        ) => i == j,
        (
            PlanEntityKind::BridgeTx { bridge_config_index: i, .. },
            PlanEntityKind::BridgeRx { bridge_config_index: j, .. },
        ) => i == j,
        (
            PlanEntityKind::BridgeTx { bridge_config_index: i, .. },
            PlanEntityKind::BridgeTx { bridge_config_index: j, .. },
        ) => i == j,
        _ => false,
    }
}

/// Two steps lie in the same component exactly when they call the same
/// instance: a task or bridge instance has one mutable state across all
/// CopperLists, and a stateless task has none.
pub proof fn components_are_instances(plan: AssembledPlan, mission: Seq<char>, shape: ShapeModel, i: usize, j: usize)
    requires
        plan.has_shape(mission, shape),
        plan.execution.steps@.len() <= usize::MAX,
        i < plan.execution.steps@.len(),
        j < plan.execution.steps@.len(),
    ensures
        (exists|c: int|
            0 <= c < shape.components.len() && (#[trigger] shape.components[c]).contains(i) && shape.components[c].contains(
                j,
            )) <==> same_instance(
            plan.entities@[plan.step(i as int).node_id as int],
            plan.entities@[plan.step(j as int).node_id as int],
        ),
{
    components_share_state(plan, mission, shape, i, j);
    if exists|c: int| #[trigger] belongs(shape, c, i) && belongs(shape, c, j) {
        let c = choose|c: int| #[trigger] belongs(shape, c, i) && belongs(shape, c, j);
        assert(shape.components[c].contains(i) && shape.components[c].contains(j));
    }
    if exists|c: int|
        0 <= c < shape.components.len() && (#[trigger] shape.components[c]).contains(i) && shape.components[c].contains(j) {
        let c = choose|c: int|
            0 <= c < shape.components.len() && (#[trigger] shape.components[c]).contains(i) && shape.components[c].contains(
                j,
            );
        assert(belongs(shape, c, i) && belongs(shape, c, j));
    }
}

/// Every member of a component is a step, and is listed in it once, in
/// execution order.
pub proof fn components_list_steps_in_order(plan: AssembledPlan, mission: Seq<char>, shape: ShapeModel, c: int)
    requires
        plan.has_shape(mission, shape),
        plan.execution.steps@.len() <= usize::MAX,
        0 <= c < shape.components.len(),
    ensures
        shape.components[c].len() > 0,
        forall|k: int|
            0 <= k < shape.components[c].len() ==> (#[trigger] shape.components[c][k]) < plan.execution.steps@.len(),
        forall|k: int, m: int|
            0 <= k < m < shape.components[c].len() ==> #[trigger] shape.components[c][k] < #[trigger] shape.components[c][m],
{
    let n = plan.execution.steps@.len();
    let names = choose|names: Seq<(usize, usize)>| plan.are_components(names, shape.components, n);
    assert(names.contains(names[c]));
    let i = choose|i: int| 0 <= i < n && #[trigger] plan.component(i) == Some(names[c]);
    lemma_component_steps(plan, names[c], n);
    assert(shape.components[c] == plan.component_steps(names[c], n));
    assert(shape.components[c].contains(i as usize));
}

proof fn lemma_last_writer(plan: AssembledPlan, culist_index: u32, n: nat)
    ensures
        match plan.producer(culist_index, n) {
            Some(a) => 0 <= a < n && plan.writes(a, culist_index) && forall|b: int|
                a < b < n ==> !#[trigger] plan.writes(b, culist_index),
            None => forall|b: int| 0 <= b < n ==> !#[trigger] plan.writes(b, culist_index),
        },
    decreases n,
{
    if n > 0 {
        lemma_last_writer(plan, culist_index, (n - 1) as nat);
    }
}

impl AssembledPlan {
    /// Whether step `i` writes at a place of the CopperList.
    pub open spec fn writes(self, i: int, culist_index: u32) -> bool {
        self.step(i).output_msg_pack matches Some(pack) && pack.culist_index == culist_index
    }

    /// Whether a step writes at a place of the CopperList.
    pub open spec fn is_written(self, culist_index: u32) -> bool {
        exists|i: int| 0 <= i < self.execution.steps@.len() && #[trigger] self.writes(i, culist_index)
    }
}

/// A message producer is required before its consumers: where one step alone
/// writes at a place, every other step that reads there has to wait for it.
pub proof fn producers_are_required_before_consumers(
    plan: AssembledPlan,
    mission: Seq<char>,
    shape: ShapeModel,
    a: usize,
    b: usize,
    k: int,
)
    requires
        plan.has_shape(mission, shape),
        plan.execution.steps@.len() <= usize::MAX,
        a < plan.execution.steps@.len(),
        b < plan.execution.steps@.len(),
        0 <= k < plan.step(b as int).input_msg_indices_types@.len(),
        plan.writes(a as int, plan.step(b as int).input_msg_indices_types@[k].culist_index),
        forall|c: int|
            a < c < plan.execution.steps@.len() ==> !#[trigger] plan.writes(
                c,
                plan.step(b as int).input_msg_indices_types@[k].culist_index,
            ),
    ensures
        shape.required.contains((a, b)),
{
    let index = plan.step(b as int).input_msg_indices_types@[k].culist_index;
    lemma_last_writer(plan, index, plan.execution.steps@.len());
    assert(plan.reads(b as int, k) && plan.source(b as int, k) == Some(a as int)) by {
        assert(plan.writes(a as int, index));
    }
    assert(plan.message_flows(a as int, b as int));
}

/// What is required is a message from the first step to the second, or that
/// both belong to the same node, one after the other; and the steps of a node
/// are all required in their order.
pub proof fn required_pairs_are_messages_or_phases(
    plan: AssembledPlan,
    mission: Seq<char>,
    shape: ShapeModel,
    a: usize,
    b: usize,
)
    requires
        plan.has_shape(mission, shape),
        plan.execution.steps@.len() <= usize::MAX,
    ensures
        shape.required.contains((a, b)) ==> a < plan.execution.steps@.len() && b < plan.execution.steps@.len() && {
            ||| a < b && plan.step(a as int).node_id == plan.step(b as int).node_id
            ||| exists|k: int|
                0 <= k < plan.step(b as int).input_msg_indices_types@.len() && plan.writes(
                    a as int,
                    (#[trigger] plan.step(b as int).input_msg_indices_types@[k]).culist_index,
                )
        },
        a < b < plan.execution.steps@.len() && plan.step(a as int).node_id == plan.step(b as int).node_id && (forall|c: int|
            a < c < b ==> #[trigger] plan.step(c).node_id != plan.step(a as int).node_id) ==> shape.required.contains(
            (a, b),
        ),
{
    if shape.required.contains((a, b)) && !plan.phases_follow(a as int, b as int) {
        let k = choose|k: int| #[trigger] plan.reads(b as int, k) && plan.source(b as int, k) == Some(a as int);
        let input = plan.step(b as int).input_msg_indices_types@[k];
        lemma_last_writer(plan, input.culist_index, plan.execution.steps@.len());
        assert(plan.writes(a as int, plan.step(b as int).input_msg_indices_types@[k].culist_index));
    }
}

/// A plan can be scheduled exactly when it holds steps only and each message
/// that is read is written.
pub proof fn plans_with_producers_can_be_scheduled(plan: AssembledPlan)
    ensures
        plan.shape_failure() is None <==> plan.flat() && forall|b: int, k: int|
            0 <= b < plan.execution.steps@.len() && 0 <= k < plan.step(b).input_msg_indices_types@.len()
                ==> plan.is_written((#[trigger] plan.step(b).input_msg_indices_types@[k]).culist_index),
{
    let n = plan.execution.steps@.len();
    if plan.shape_failure() is None {
        assert forall|b: int, k: int|
            0 <= b < n && 0 <= k < plan.step(b).input_msg_indices_types@.len() implies plan.is_written(
            (#[trigger] plan.step(b).input_msg_indices_types@[k]).culist_index,
        ) by {
            assert(plan.reads(b, k));
            let index = plan.step(b).input_msg_indices_types@[k].culist_index;
            lemma_last_writer(plan, index, n);
            assert(plan.writes(plan.source(b, k)->0, index));
        }
    } else if plan.flat() {
        let (b, k) = choose|b: int, k: int| #[trigger] plan.reads(b, k) && plan.source(b, k) is None;
        let index = plan.step(b).input_msg_indices_types@[k].culist_index;
        lemma_last_writer(plan, index, n);
        assert(!plan.is_written(plan.step(b).input_msg_indices_types@[k].culist_index));
    }
}

/// The component whose state a step of this entity changes.
fn component_of(entity: &PlanEntity) -> (r: Option<(usize, usize)>)
    ensures
        r == AssembledPlan::component_of(*entity),
{
    match &entity.kind {
        PlanEntityKind::Task { task_index, stateless, .. } => if *stateless {
            None
        } else {
            Some((0, *task_index))
        },
        PlanEntityKind::BridgeRx { bridge_config_index, .. } => Some((1, *bridge_config_index)),
        PlanEntityKind::BridgeTx { bridge_config_index, .. } => Some((1, *bridge_config_index)),
    }
}

/// The lists held by executable lists.
pub open spec fn lists_of(lists: Seq<Vec<usize>>) -> Seq<Seq<usize>> {
    Seq::new(lists.len(), |i: int| lists[i]@)
}

/// The steps of each component, in the order of the components.
fn collect_components(plan: &AssembledPlan) -> (lists: Vec<Vec<usize>>)
    requires
        plan.wf(),
        plan.flat(),
    ensures
        exists|names: Seq<(usize, usize)>| plan.are_components(names, lists_of(lists@), plan.execution.steps@.len()),
{
    let n: usize = plan.execution.steps.len();
    let mut names: Vec<(usize, usize)> = Vec::new();
    let mut lists: Vec<Vec<usize>> = Vec::new();
    let mut i: usize = 0;
    while i < n
        invariant
            i <= n,
            n == plan.execution.steps@.len(),
            plan.wf(),
            plan.flat(),
            plan.are_components(names@, lists_of(lists@), i as nat),
        decreases n - i,
    {
        let ghost before_names = names@;
        let ghost before_lists = lists_of(lists@);
        assert(plan.execution.steps@[i as int] is Step);
        if let CuExecutionUnit::Step(step) = &plan.execution.steps[i] {
            assert(plan.step(i as int) == *step);
            match component_of(&plan.entities[step.node_id as usize]) {
                None => {
                    assert(plan.component(i as int) is None);
                },
                Some(name) => {
                    let (at, found) = position(&names, &name);
                    if found {
                        lists[at].push(i);
                        proof {
                            assert forall|c: int| 0 <= c < lists@.len() implies #[trigger] lists_of(lists@)[c]
                                == plan.component_steps(names@[c], (i + 1) as nat) by {
                                assert(before_lists[c] == plan.component_steps(names@[c], i as nat));
                                if c != at {
                                    if names@[c] == name {
                                        if c < at {
                                            <(usize, usize)>::irreflexive(name);
                                        } else {
                                            assert(names@[at as int].less(names@[c]));
                                            <(usize, usize)>::irreflexive(name);
                                        }
                                    }
                                }
                            }
                        }
                    } else {
                        let mut list: Vec<usize> = Vec::new();
                        list.push(i);
                        proof {
                            lemma_insert(names@, at as int, name);
                        }
                        names.insert(at, name);
                        lists.insert(at, list);
                        proof {
                            assert(plan.component_steps(name, i as nat).len() == 0) by {
                                lemma_no_component_steps(*plan, name, i as nat);
                            }
                            assert forall|c: int| 0 <= c < lists@.len() implies #[trigger] lists_of(lists@)[c]
                                == plan.component_steps(names@[c], (i + 1) as nat) by {
                                if c == at {
                                    assert(lists@[c]@ =~= plan.component_steps(name, i as nat).push(i));
                                } else {
                                    let b = if c < at { c } else { c - 1 };
                                    assert(lists@[c]@ == before_lists[b]);
                                    assert(names@[c] == before_names[b]);
                                    if before_names[b] == name {
                                        assert(before_names.contains(name));
                                    }
                                }
                            }
                        }
                    }
                },
            }
            proof {
                assert forall|name: (usize, usize)| #[trigger] names@.contains(name) <==> exists|j: int|
                    0 <= j < i + 1 && #[trigger] plan.component(j) == Some(name) by {
                    if before_names.contains(name) {
                        let j = choose|j: int| 0 <= j < i && #[trigger] plan.component(j) == Some(name);
                        assert(plan.component(j) == Some(name));
                    }
                    if plan.component(i as int) == Some(name) {
                        assert(names@.contains(name));
                    }
                    if names@.contains(name) && !before_names.contains(name) {
                        assert(plan.component(i as int) == Some(name));
                    }
                }
            }
        }
        i = i + 1;
    }
    proof {
        assert(plan.are_components(names@, lists_of(lists@), plan.execution.steps@.len()));
    }
    lists
}

proof fn lemma_no_component_steps(plan: AssembledPlan, name: (usize, usize), n: nat)
    requires
        forall|i: int| 0 <= i < n ==> #[trigger] plan.component(i) != Some(name),
    ensures
        plan.component_steps(name, n).len() == 0,
    decreases n,
{
    if n > 0 {
        lemma_no_component_steps(plan, name, (n - 1) as nat);
        assert(plan.component(n - 1) != Some(name));
    }
}

/// Every step pair of message producer and consumer with a consumer before `m`,
/// or with consumer `m` and one of its first `k` inputs.
proof fn lemma_list_messages(plan: AssembledPlan, m: nat, k: nat) -> (list: Seq<(usize, usize)>)
    requires
        plan.flat(),
        plan.execution.steps@.len() <= usize::MAX,
        m < plan.execution.steps@.len() && k <= plan.step(m as int).input_msg_indices_types@.len() || m
            == plan.execution.steps@.len() && k == 0,
        forall|i: int, j: int| #[trigger] plan.reads(i, j) ==> plan.source(i, j) is Some,
    ensures
        forall|a: usize, b: usize| #[trigger]
            list.contains((a, b)) <==> exists|j: int| #[trigger]
                plan.reads(b as int, j) && plan.source(b as int, j) == Some(a as int) && (b < m || (b == m && j < k)),
    decreases m, k,
{
    if k > 0 {
        let rest = lemma_list_messages(plan, m, (k - 1) as nat);
        assert(plan.reads(m as int, k - 1));
        let source = plan.source(m as int, k - 1)->0;
        lemma_producer(
            plan,
            plan.step(m as int).input_msg_indices_types@[k - 1].culist_index,
            plan.execution.steps@.len(),
        );
        let pair = (source as usize, m as usize);
        let list = rest.push(pair);
        assert forall|a: usize, b: usize| #[trigger] list.contains((a, b)) <==> exists|j: int| #[trigger]
            plan.reads(b as int, j) && plan.source(b as int, j) == Some(a as int) && (b < m || (b == m && j < k)) by {
            if list.contains((a, b)) {
                let at = choose|at: int| 0 <= at < list.len() && list[at] == (a, b);
                if at < rest.len() {
                    assert(rest[at] == (a, b));
                    assert(rest.contains((a, b)));
                }
            }
            if rest.contains((a, b)) {
                let at = choose|at: int| 0 <= at < rest.len() && rest[at] == (a, b);
                assert(list[at] == (a, b));
            }
            if pair == (a, b) {
                assert(list[rest.len() as int] == (a, b));
            }
            if exists|j: int| #[trigger]
                plan.reads(b as int, j) && plan.source(b as int, j) == Some(a as int) && (b < m || (b == m && j < k)) {
                let j = choose|j: int| #[trigger]
                    plan.reads(b as int, j) && plan.source(b as int, j) == Some(a as int) && (b < m || (b == m && j < k));
                if !(b == m && j == k - 1) {
                    assert(rest.contains((a, b)));
                }
            }
        }
        list
    } else if m > 0 {
        let inputs = plan.step(m - 1).input_msg_indices_types@.len();
        let list = lemma_list_messages(plan, (m - 1) as nat, inputs);
        assert forall|a: usize, b: usize| #[trigger] list.contains((a, b)) <==> exists|j: int| #[trigger]
            plan.reads(b as int, j) && plan.source(b as int, j) == Some(a as int) && (b < m || (b == m && j < k)) by {
            if exists|j: int| #[trigger]
                plan.reads(b as int, j) && plan.source(b as int, j) == Some(a as int) && (b < m || (b == m && j < k)) {
                let j = choose|j: int| #[trigger]
                    plan.reads(b as int, j) && plan.source(b as int, j) == Some(a as int) && (b < m || (b == m && j < k));
                assert(plan.reads(b as int, j));
            }
        }
        list
    } else {
        Seq::empty()
    }
}

/// Every pair of consecutive steps of one node, with the later one before `m`.
proof fn lemma_list_phases(plan: AssembledPlan, m: nat) -> (list: Seq<(usize, usize)>)
    requires
        m <= plan.execution.steps@.len() <= usize::MAX,
    ensures
        forall|a: usize, b: usize| #[trigger]
            list.contains((a, b)) <==> b < m && plan.phases_follow(a as int, b as int),
    decreases m,
{
    if m == 0 {
        Seq::empty()
    } else {
        let rest = lemma_list_phases(plan, (m - 1) as nat);
        let last = m - 1;
        if exists|a: int| plan.phases_follow(a, last) {
            let p = choose|a: int| plan.phases_follow(a, last);
            let pair = (p as usize, (m - 1) as usize);
            let list = rest.push(pair);
            assert forall|a: usize, b: usize| #[trigger] list.contains((a, b)) <==> b < m && plan.phases_follow(
                a as int,
                b as int,
            ) by {
                if list.contains((a, b)) {
                    let at = choose|at: int| 0 <= at < list.len() && list[at] == (a, b);
                    if at < rest.len() {
                        assert(rest[at] == (a, b));
                        assert(rest.contains((a, b)));
                    }
                }
                if b < m && plan.phases_follow(a as int, b as int) {
                    if b < m - 1 {
                        assert(rest.contains((a, b)));
                        let at = choose|at: int| 0 <= at < rest.len() && rest[at] == (a, b);
                        assert(list[at] == (a, b));
                    } else {
                        if a < p {
                            assert(plan.step(p).node_id != plan.step(a as int).node_id);
                        } else if p < a {
                            assert(plan.step(a as int).node_id != plan.step(p).node_id);
                        }
                        assert(list[rest.len() as int] == (a, b));
                    }
                }
            }
            list
        } else {
            rest
        }
    }
}

/// The components that the first `m` steps change.
proof fn lemma_list_components(plan: AssembledPlan, m: nat) -> (list: Seq<(usize, usize)>)
    ensures
        forall|name: (usize, usize)| #[trigger]
            list.contains(name) <==> exists|i: int| 0 <= i < m && #[trigger] plan.component(i) == Some(name),
    decreases m,
{
    if m == 0 {
        Seq::empty()
    } else {
        let rest = lemma_list_components(plan, (m - 1) as nat);
        let list = match plan.component(m - 1) {
            Some(name) => rest.push(name),
            None => rest,
        };
        assert forall|name: (usize, usize)| #[trigger] list.contains(name) <==> exists|i: int|
            0 <= i < m && #[trigger] plan.component(i) == Some(name) by {
            if list.contains(name) {
                let at = choose|at: int| 0 <= at < list.len() && list[at] == name;
                if at < rest.len() {
                    assert(rest[at] == name);
                    assert(rest.contains(name));
                } else {
                    assert(plan.component(m - 1) == Some(name));
                }
            }
            if exists|i: int| 0 <= i < m && #[trigger] plan.component(i) == Some(name) {
                let i = choose|i: int| 0 <= i < m && #[trigger] plan.component(i) == Some(name);
                if i < m - 1 {
                    assert(plan.component(i) == Some(name));
                    assert(rest.contains(name));
                    let at = choose|at: int| 0 <= at < rest.len() && rest[at] == name;
                    assert(list[at] == name);
                } else {
                    assert(list[rest.len() as int] == name);
                }
            }
        }
        list
    }
}

proof fn lemma_shape_wf(plan: AssembledPlan, mission: Seq<char>, shape: ShapeModel)
    requires
        plan.execution.steps@.len() <= usize::MAX,
        plan.has_shape(mission, shape),
    ensures
        shape.wf(),
{
    let n = plan.execution.steps@.len();
    assert forall|i: int| 0 <= i < shape.required.len() implies (#[trigger] shape.required[i]).0 < n
        && shape.required[i].1 < n by {
        let (a, b) = shape.required[i];
        assert(shape.required.contains((a, b)));
        if plan.message_flows(a as int, b as int) {
            let k = choose|k: int| #[trigger] plan.reads(b as int, k) && plan.source(b as int, k) == Some(a as int);
            lemma_producer(plan, plan.step(b as int).input_msg_indices_types@[k].culist_index, n);
        }
    }
    let names = choose|names: Seq<(usize, usize)>| plan.are_components(names, shape.components, n);
    assert forall|c: int| 0 <= c < shape.components.len() implies ascending(#[trigger] shape.components[c])
        && forall|i: int| 0 <= i < shape.components[c].len() ==> #[trigger] shape.components[c][i] < n by {
        lemma_component_steps(plan, names[c], n);
    }
}

/// A plan that can be scheduled demands something of a schedule.
pub proof fn shape_exists(plan: AssembledPlan, mission: Seq<char>)
    requires
        plan.shape_failure() is None,
        plan.execution.steps@.len() <= usize::MAX,
    ensures
        plan.has_shape(mission, plan.shape(mission)),
        plan.shape(mission).wf(),
{
    let n = plan.execution.steps@.len();
    let messages = lemma_list_messages(plan, n, 0);
    let phases = lemma_list_phases(plan, n);
    let required = lemma_sort(messages + phases);
    let changed = lemma_list_components(plan, n);
    let names = lemma_sort(changed);
    let shape = ShapeModel {
        keys: Seq::new(n, |i: int| plan.key(mission, i)),
        required,
        components: Seq::new(names.len(), |c: int| plan.component_steps(names[c], n)),
    };
    assert forall|a: usize, b: usize| #[trigger] shape.required.contains((a, b)) <==> plan.phases_follow(
        a as int,
        b as int,
    ) || plan.message_flows(a as int, b as int) by {
        let both = messages + phases;
        assert(required.contains((a, b)) <==> both.contains((a, b)));
        if both.contains((a, b)) {
            let at = choose|at: int| 0 <= at < both.len() && both[at] == (a, b);
            if at < messages.len() {
                assert(messages[at] == (a, b));
                assert(messages.contains((a, b)));
            } else {
                assert(phases[at - messages.len()] == (a, b));
                assert(phases.contains((a, b)));
            }
        }
        if plan.message_flows(a as int, b as int) {
            let k = choose|k: int| #[trigger] plan.reads(b as int, k) && plan.source(b as int, k) == Some(a as int);
            assert(plan.reads(b as int, k));
            assert(messages.contains((a, b)));
            let at = choose|at: int| 0 <= at < messages.len() && messages[at] == (a, b);
            assert(both[at] == (a, b));
        }
        if plan.phases_follow(a as int, b as int) {
            assert(phases.contains((a, b)));
            let at = choose|at: int| 0 <= at < phases.len() && phases[at] == (a, b);
            assert(both[messages.len() + at] == (a, b));
        }
    }
    assert(plan.are_components(names, shape.components, n));
    assert(plan.has_shape(mission, shape));
    lemma_shape_wf(plan, mission, plan.shape(mission));
}

/// The last step that writes at `culist_index`.
fn find_producer(plan: &AssembledPlan, culist_index: u32) -> (r: Option<usize>)
    requires
        plan.flat(),
    ensures
        match r {
            Some(i) => plan.producer(culist_index, plan.execution.steps@.len()) == Some(i as int),
            None => plan.producer(culist_index, plan.execution.steps@.len()) is None,
        },
{
    let mut n: usize = plan.execution.steps.len();
    while n > 0
        invariant
            n <= plan.execution.steps@.len(),
            plan.flat(),
            plan.producer(culist_index, plan.execution.steps@.len()) == plan.producer(culist_index, n as nat),
        decreases n,
    {
        assert(plan.execution.steps@[n - 1] is Step);
        if let CuExecutionUnit::Step(step) = &plan.execution.steps[n - 1] {
            assert(plan.step(n - 1) == *step);
            if let Some(pack) = &step.output_msg_pack {
                if pack.culist_index == culist_index {
                    return Some(n - 1);
                }
            }
        }
        n = n - 1;
    }
    None
}

/// The pairs of consecutive steps of the same node, ascending.
fn collect_phases(plan: &AssembledPlan) -> (pairs: Vec<(usize, usize)>)
    requires
        plan.wf(),
        plan.flat(),
    ensures
        sorted(pairs@),
        forall|a: usize, b: usize| #[trigger] pairs@.contains((a, b)) <==> plan.phases_follow(a as int, b as int),
{
    let n: usize = plan.execution.steps.len();
    let nodes: usize = plan.entities.len();
    let mut last: Vec<Option<usize>> = Vec::new();
    while last.len() < nodes
        invariant
            last@.len() <= nodes,
            forall|v: int| 0 <= v < last@.len() ==> (#[trigger] last@[v]) is None,
        decreases nodes - last@.len(),
    {
        last.push(None);
    }
    let mut pairs: Vec<(usize, usize)> = Vec::new();
    let mut i: usize = 0;
    while i < n
        invariant
            i <= n,
            n == plan.execution.steps@.len(),
            plan.wf(),
            plan.flat(),
            nodes == plan.entities@.len(),
            last@.len() == nodes,
            forall|v: int|
                0 <= v < nodes ==> match #[trigger] last@[v] {
                    Some(a) => a < i && plan.step(a as int).node_id == v && forall|c: int|
                        a < c < i ==> #[trigger] plan.step(c).node_id != v,
                    None => forall|c: int| 0 <= c < i ==> #[trigger] plan.step(c).node_id != v,
                },
            sorted(pairs@),
            forall|a: usize, b: usize| #[trigger]
                pairs@.contains((a, b)) <==> b < i && plan.phases_follow(a as int, b as int),
        decreases n - i,
    {
        assert(plan.execution.steps@[i as int] is Step);
        if let CuExecutionUnit::Step(step) = &plan.execution.steps[i] {
            assert(plan.step(i as int) == *step);
            let node: usize = step.node_id as usize;
            let previous: Option<usize> = last[node];
            if let Some(a) = previous {
                insert(&mut pairs, (a, i));
            }
            let ghost last_before = last@;
            last.set(node, Some(i));
            proof {
                assert forall|a: usize, b: usize| #[trigger] pairs@.contains((a, b)) <==> b < i + 1
                    && plan.phases_follow(a as int, b as int) by {
                    if b == i && plan.phases_follow(a as int, i as int) {
                        assert(last_before[node as int] == previous);
                        assert(plan.step(a as int).node_id == node);
                        if let Some(c) = previous {
                            if a < c {
                                assert(plan.step(c as int).node_id == node);
                            }
                        }
                    }
                    if previous == Some(a) && b == i {
                        assert forall|c: int| a < c < i implies #[trigger] plan.step(c).node_id != plan.step(
                            a as int,
                        ).node_id by {
                            assert(plan.step(c).node_id != node);
                        }
                    }
                }
            }
        }
        i = i + 1;
    }
    pairs
}

/// Add the pairs of message producer and consumer.
fn collect_messages(plan: &AssembledPlan, pairs: &mut Vec<(usize, usize)>) -> (r: CuResult<()>)
    requires
        plan.flat(),
        sorted(old(pairs)@),
    ensures
        failure_text(r) == (if exists|i: int, k: int| #[trigger] plan.reads(i, k) && plan.source(i, k) is None {
            Some("Missing process-step producer"@)
        } else {
            None
        }),
        sorted(final(pairs)@),
        r is Ok ==> forall|a: usize, b: usize| #[trigger]
            final(pairs)@.contains((a, b)) <==> old(pairs)@.contains((a, b)) || plan.message_flows(a as int, b as int),
{
    let n: usize = plan.execution.steps.len();
    let ghost start = pairs@;
    let mut i: usize = 0;
    while i < n
        invariant
            i <= n,
            n == plan.execution.steps@.len(),
            plan.flat(),
            sorted(pairs@),
            forall|j: int, k: int| 0 <= j < i && #[trigger] plan.reads(j, k) ==> plan.source(j, k) is Some,
            forall|a: usize, b: usize| #[trigger]
                pairs@.contains((a, b)) <==> start.contains((a, b)) || (b < i && plan.message_flows(a as int, b as int)),
        decreases n - i,
    {
        assert(plan.execution.steps@[i as int] is Step);
        if let CuExecutionUnit::Step(step) = &plan.execution.steps[i] {
            assert(plan.step(i as int) == *step);
            let inputs: usize = step.input_msg_indices_types.len();
            let mut k: usize = 0;
            let ghost before = pairs@;
            while k < inputs
                invariant
                    k <= inputs,
                    i < n,
                    n == plan.execution.steps@.len(),
                    plan.flat(),
                    plan.step(i as int) == *step,
                    inputs == step.input_msg_indices_types@.len(),
                    sorted(pairs@),
                    forall|j: int| 0 <= j < k ==> (#[trigger] plan.source(i as int, j)) is Some,
                    forall|a: usize, b: usize| #[trigger]
                        pairs@.contains((a, b)) <==> before.contains((a, b)) || (b == i && exists|j: int|
                            0 <= j < k && #[trigger] plan.reads(i as int, j) && plan.source(i as int, j) == Some(a as int)),
                decreases inputs - k,
            {
                assert(plan.reads(i as int, k as int));
                match find_producer(plan, step.input_msg_indices_types[k].culist_index) {
                    None => {
                        assert(plan.source(i as int, k as int) is None);
                        return Err(CuError::of("Missing process-step producer"));
                    },
                    Some(producer) => {
                        assert(plan.source(i as int, k as int) == Some(producer as int));
                        insert(pairs, (producer, i));
                    },
                }
                k = k + 1;
            }
            proof {
                assert forall|j: int, k: int| 0 <= j < i + 1 && #[trigger] plan.reads(j, k) implies plan.source(j, k) is Some by {
                    if j == i {
                        assert(plan.reads(i as int, k));
                    }
                }
                assert forall|a: usize, b: usize| #[trigger] pairs@.contains((a, b)) <==> start.contains((a, b)) || (b < i + 1
                    && plan.message_flows(a as int, b as int)) by {
                    assert(before.contains((a, b)) <==> start.contains((a, b)) || (b < i && plan.message_flows(
                        a as int,
                        b as int,
                    )));
                    if b == i && plan.message_flows(a as int, b as int) {
                        let k = choose|k: int| #[trigger] plan.reads(b as int, k) && plan.source(b as int, k) == Some(a as int);
                        assert(plan.reads(i as int, k));
                    }
                }
            }
        }
        i = i + 1;
    }
    Ok(())
}

impl PlanShape {
    /// What a plan demands of a schedule.
    pub fn new(plan: &AssembledPlan, mission: &str) -> (r: CuResult<Self>)
        requires
            plan.wf(),
        ensures
            failure_text(r) == plan.shape_failure(),
            r matches Ok(shape) ==> shape@.wf() && plan.has_shape(mission@, shape@) && shape@ == plan.shape(mission@),
    {
        let keys: Vec<String> = match execution_keys(plan, mission) {
            Ok(keys) => keys,
            Err(e) => {
                return Err(e);
            },
        };
        let components: Vec<Vec<usize>> = collect_components(plan);
        let mut required: Vec<(usize, usize)> = collect_phases(plan);
        match collect_messages(plan, &mut required) {
            Err(e) => {
                return Err(e);
            },
            Ok(_) => {},
        }
        let shape = PlanShape { keys, required, components };
        proof {
            let n = plan.execution.steps@.len();
            let model = shape@;
            assert(n == shape.keys.len());
            assert(model.keys =~= Seq::new(n, |i: int| plan.key(mission@, i)));
            assert(model.components =~= lists_of(shape.components@));
            lemma_shape_wf(*plan, mission@, model);
            shape_is_unique(*plan, mission@, model);
        }
        Ok(shape)
    }
}

proof fn lemma_producer(plan: AssembledPlan, culist_index: u32, n: nat)
    ensures
        plan.producer(culist_index, n) matches Some(i) ==> 0 <= i < n,
    decreases n,
{
    if n > 0 {
        lemma_producer(plan, culist_index, (n - 1) as nat);
    }
}

// ---------------------------------------------------------------------------
// Serial schedule
// ---------------------------------------------------------------------------

impl Ordered for CuPlanDependency {
    open spec fn less(self, other: Self) -> bool {
        self.from < other.from || (self.from == other.from && (self.to < other.to || (self.to == other.to && self.cycle_lag
            < other.cycle_lag)))
    }

    proof fn irreflexive(a: Self) {
    }

    proof fn transitive(a: Self, b: Self, c: Self) {
    }

    proof fn total(a: Self, b: Self) {
    }

    fn is_less(&self, other: &Self) -> (r: bool) {
        self.from < other.from || (self.from == other.from && (self.to < other.to || (self.to == other.to && self.cycle_lag
            < other.cycle_lag)))
    }
}

impl ShapeModel {
    /// Whether step `b` directly follows step `a` in component `c`.
    pub open spec fn state_follows(self, c: int, i: int, a: int, b: int) -> bool {
        &&& 0 <= c < self.components.len()
        &&& 0 <= i < self.components[c].len() - 1
        &&& self.components[c][i] == a
        &&& self.components[c][i + 1] == b
    }

    /// Whether component `c` starts with step `a` and ends with step `b`.
    pub open spec fn state_spans(self, c: int, a: int, b: int) -> bool {
        &&& 0 <= c < self.components.len()
        &&& self.components[c].len() > 0
        &&& self.components[c][0] == a
        &&& self.components[c].last() == b
    }

    /// Whether `d` is a precedence that the serial schedule spells out: a
    /// required pair, two consecutive steps of a component, or a component's
    /// first step after its last one of the previous cycle.
    pub open spec fn spells_out(self, d: CuPlanDependency) -> bool {
        ||| d.cycle_lag == 0 && self.required.contains((d.from as usize, d.to as usize))
        ||| d.cycle_lag == 0 && exists|c: int, i: int| #[trigger] self.state_follows(c, i, d.from as int, d.to as int)
        ||| d.cycle_lag == 1 && exists|c: int| #[trigger] self.state_spans(c, d.to as int, d.from as int)
    }

    /// Whether `p` runs the steps in order on the main context, one CopperList
    /// per cycle, with every precedence spelled out.
    pub open spec fn is_serial(self, p: PlanModel) -> bool {
        &&& p.copperlists_per_cycle == 1
        &&& p.steps.len() == self.keys.len()
        &&& forall|i: int|
            0 <= i < p.steps.len() ==> (#[trigger] p.steps[i]).key == self.keys[i] && p.steps[i].copperlist == 0
        &&& p.lanes.len() == 1
        &&& p.lanes[0].placement is Main
        &&& p.lanes[0].steps.len() == self.keys.len()
        &&& forall|i: int| 0 <= i < p.lanes[0].steps.len() ==> #[trigger] p.lanes[0].steps[i] == i
        &&& sorted(p.dependencies)
        &&& forall|d: CuPlanDependency| #[trigger] p.dependencies.contains(d) <==> self.spells_out(d)
    }

    /// Whether `d` is spelled out by the required pairs, the first `c`
    /// components, or the first `k` consecutive steps of the next one.
    spec fn spells_out_until(self, d: CuPlanDependency, c: int, k: int) -> bool {
        ||| d.cycle_lag == 0 && self.required.contains((d.from as usize, d.to as usize))
        ||| d.cycle_lag == 0 && exists|b: int, i: int| #[trigger]
            self.state_follows(b, i, d.from as int, d.to as int) && (b < c || (b == c && i < k))
        ||| d.cycle_lag == 1 && exists|b: int| b < c && #[trigger] self.state_spans(b, d.to as int, d.from as int)
    }

    proof fn lemma_until_equal(self, d: CuPlanDependency, c: int)
        requires
            0 <= c < self.components.len(),
            self.components[c].len() == 0,
        ensures
            self.spells_out_until(d, c + 1, 0) == self.spells_out_until(d, c, 0),
    {
    }

    proof fn lemma_until_step(self, d: CuPlanDependency, c: int, i: int)
        requires
            self.wf(),
            self.keys.len() <= 0x1_0000_0000,
            0 <= c < self.components.len(),
            0 <= i < self.components[c].len() - 1,
        ensures
            self.spells_out_until(d, c, i + 1) <==> self.spells_out_until(d, c, i) || (d.cycle_lag == 0 && d.from
                == self.components[c][i] && d.to == self.components[c][i + 1]),
    {
        if d.cycle_lag == 0 && d.from == self.components[c][i] && d.to == self.components[c][i + 1] {
            assert(self.state_follows(c, i, d.from as int, d.to as int));
        }
    }

    proof fn lemma_until_wrap(self, d: CuPlanDependency, c: int)
        requires
            self.wf(),
            self.keys.len() <= 0x1_0000_0000,
            0 <= c < self.components.len(),
            self.components[c].len() > 0,
        ensures
            self.spells_out_until(d, c + 1, 0) <==> self.spells_out_until(d, c, self.components[c].len() - 1) || (
            d.cycle_lag == 1 && d.from == self.components[c].last() && d.to == self.components[c][0]),
    {
        if d.cycle_lag == 1 && d.from == self.components[c].last() && d.to == self.components[c][0] {
            assert(self.state_spans(c, d.to as int, d.from as int));
        }
    }
}

impl PlanShape {
    /// The schedule that runs the steps in order on the main context.
    pub fn serial_plan(self) -> (r: CuResult<CuMissionPlan>)
        requires
            self@.wf(),
        ensures
            failure_text(r) == (if self.keys@.len() > 0x1_0000_0000 {
                Some("Execution plan has too many steps"@)
            } else {
                None
            }),
            r matches Ok(p) ==> self@.is_serial(p@),
    {
        let n: usize = self.keys.len();
        if n > 0 && n - 1 > u32::MAX as usize {
            return Err(CuError::of("Execution plan has too many steps"));
        }
        let mut dependencies: Vec<CuPlanDependency> = Vec::new();
        let mut r: usize = 0;
        while r < self.required.len()
            invariant
                r <= self.required@.len(),
                self@.wf(),
                n == self.keys@.len(),
                n <= 0x1_0000_0000,
                sorted(dependencies@),
                forall|d: CuPlanDependency| #[trigger]
                    dependencies@.contains(d) <==> d.cycle_lag == 0 && self.required@.take(r as int).contains(
                        (d.from as usize, d.to as usize),
                    ),
            decreases self.required@.len() - r,
        {
            let (from, to) = self.required[r];
            assert(self@.required[r as int].0 < n);
            let ghost before = dependencies@;
            let link = CuPlanDependency { from: from as u32, to: to as u32, cycle_lag: 0 };
            insert(&mut dependencies, link);
            proof {
                let short = self.required@.take(r as int);
                let long = self.required@.take(r + 1);
                assert(long =~= short.push((from, to)));
                assert forall|d: CuPlanDependency| #[trigger] dependencies@.contains(d) <==> d.cycle_lag == 0
                    && long.contains((d.from as usize, d.to as usize)) by {
                    let pair = (d.from as usize, d.to as usize);
                    assert(before.contains(d) <==> d.cycle_lag == 0 && short.contains(pair));
                    if short.contains(pair) {
                        assert(long[short.index_of(pair)] == pair);
                    }
                    if d == link {
                        assert(long[short.len() as int] == pair);
                    }
                    if long.contains(pair) && !short.contains(pair) {
                        let i = long.index_of(pair);
                        if i < short.len() {
                            assert(short[i] == pair);
                        }
                    }
                }
            }
            r = r + 1;
        }
        assert(self.required@.take(r as int) =~= self.required@);
        let mut c: usize = 0;
        while c < self.components.len()
            invariant
                c <= self.components@.len(),
                self@.wf(),
                n == self.keys@.len(),
                n <= 0x1_0000_0000,
                sorted(dependencies@),
                forall|d: CuPlanDependency| #[trigger] dependencies@.contains(d) <==> self@.spells_out_until(d, c as int, 0),
            decreases self.components@.len() - c,
        {
            self.push_component(c, &mut dependencies);
            c = c + 1;
        }
        proof {
            assert forall|d: CuPlanDependency| self@.spells_out(d) == self@.spells_out_until(d, c as int, 0) by {}
        }
        let mut order: Vec<u32> = Vec::new();
        let mut steps: Vec<CuPlanStep> = Vec::new();
        let mut i: usize = 0;
        while i < n
            invariant
                i <= n,
                n == self.keys@.len(),
                n <= 0x1_0000_0000,
                order@.len() == i,
                steps@.len() == i,
                forall|j: int| 0 <= j < i ==> #[trigger] order@[j] == j,
                forall|j: int| 0 <= j < i ==> (#[trigger] steps@[j]).key@ == self.keys@[j]@ && steps@[j].copperlist == 0,
            decreases n - i,
        {
            order.push(i as u32);
            steps.push(CuPlanStep { key: self.keys[i].clone(), copperlist: 0 });
            i = i + 1;
        }
        let mut lanes: Vec<CuPlanLane> = Vec::new();
        lanes.push(CuPlanLane { placement: CuPlanPlacement::Main, steps: order });
        Ok(CuMissionPlan { copperlists_per_cycle: 1, steps, lanes, dependencies })
    }

    /// Spell out the precedences of component `c`.
    fn push_component(&self, c: usize, dependencies: &mut Vec<CuPlanDependency>)
        requires
            self@.wf(),
            self.keys@.len() <= 0x1_0000_0000,
            c < self.components@.len(),
            sorted(old(dependencies)@),
            forall|d: CuPlanDependency| #[trigger] old(dependencies)@.contains(d) <==> self@.spells_out_until(d, c as int, 0),
        ensures
            sorted(final(dependencies)@),
            forall|d: CuPlanDependency| #[trigger] final(dependencies)@.contains(d) <==> self@.spells_out_until(d, c + 1, 0),
    {
        let component: &Vec<usize> = &self.components[c];
        let n: usize = component.len();
        if n == 0 {
            assert forall|d: CuPlanDependency| self@.spells_out_until(d, c + 1, 0) == self@.spells_out_until(
                d,
                c as int,
                0,
            ) by {
                self@.lemma_until_equal(d, c as int);
            }
            return ;
        }
        let mut k: usize = 1;
        while k < n
            invariant
                1 <= k <= n,
                n == component@.len(),
                self@.wf(),
                self.keys@.len() <= 0x1_0000_0000,
                c < self.components@.len(),
                *component == self.components@[c as int],
                sorted(dependencies@),
                forall|d: CuPlanDependency| #[trigger] dependencies@.contains(d) <==> self@.spells_out_until(d, c as int, k - 1),
            decreases n - k,
        {
            assert(self@.components[c as int][k - 1] < self@.keys.len());
            assert(self@.components[c as int][k as int] < self@.keys.len());
            let ghost before = dependencies@;
            let link = CuPlanDependency { from: component[k - 1] as u32, to: component[k] as u32, cycle_lag: 0 };
            insert(dependencies, link);
            assert forall|d: CuPlanDependency| #[trigger] dependencies@.contains(d) <==> self@.spells_out_until(
                d,
                c as int,
                k as int,
            ) by {
                self@.lemma_until_step(d, c as int, k - 1);
                assert(before.contains(d) <==> self@.spells_out_until(d, c as int, k - 1));
            }
            k = k + 1;
        }
        assert(self@.components[c as int][n - 1] < self@.keys.len());
        assert(self@.components[c as int][0] < self@.keys.len());
        let ghost before = dependencies@;
        let link = CuPlanDependency { from: component[n - 1] as u32, to: component[0] as u32, cycle_lag: 1 };
        insert(dependencies, link);
        assert forall|d: CuPlanDependency| #[trigger] dependencies@.contains(d) <==> self@.spells_out_until(d, c + 1, 0) by {
            self@.lemma_until_wrap(d, c as int);
            assert(before.contains(d) <==> self@.spells_out_until(d, c as int, n - 1));
        }
    }
}

/// Whether one node's instance is listed before another's: tasks before bridges,
/// and each by their place in the configuration.
pub open spec fn listed_earlier(a: PlanEntity, b: PlanEntity) -> bool {
    match (a.kind, b.kind) {
        (PlanEntityKind::Task { task_index: i, .. }, PlanEntityKind::Task { task_index: j, .. }) => i < j,
        (PlanEntityKind::Task { .. }, _) => true,
        (_, PlanEntityKind::Task { .. }) => false,
        (
            PlanEntityKind::BridgeRx { bridge_config_index: i, .. },
            PlanEntityKind::BridgeRx { bridge_config_index: j, .. },
        ) => i < j,
        (
            PlanEntityKind::BridgeRx { bridge_config_index: i, .. },
            PlanEntityKind::BridgeTx { bridge_config_index: j, .. },
        ) => i < j,
        (
            PlanEntityKind::BridgeTx { bridge_config_index: i, .. },
            PlanEntityKind::BridgeRx { bridge_config_index: j, .. },
        ) => i < j,
        (
            PlanEntityKind::BridgeTx { bridge_config_index: i, .. },
            PlanEntityKind::BridgeTx { bridge_config_index: j, .. },
        ) => i < j,
    }
}

/// Components are listed with those of tasks before those of bridges, each in the
/// order of the configuration.
pub proof fn components_follow_the_configuration(
    plan: AssembledPlan,
    mission: Seq<char>,
    shape: ShapeModel,
    c: int,
    d: int,
    i: usize,
    j: usize,
)
    requires
        plan.has_shape(mission, shape),
        plan.execution.steps@.len() <= usize::MAX,
        0 <= c < d < shape.components.len(),
        shape.components[c].contains(i),
        shape.components[d].contains(j),
    ensures
        listed_earlier(
            plan.entities@[plan.step(i as int).node_id as int],
            plan.entities@[plan.step(j as int).node_id as int],
        ),
{
    let n = plan.execution.steps@.len();
    let names = choose|names: Seq<(usize, usize)>| plan.are_components(names, shape.components, n);
    components_list_steps_in_order(plan, mission, shape, c);
    components_list_steps_in_order(plan, mission, shape, d);
    assert(shape.components[c] == plan.component_steps(names[c], n));
    assert(shape.components[d] == plan.component_steps(names[d], n));
    lemma_component_members(plan, names[c], n, i);
    lemma_component_members(plan, names[d], n, j);
    assert(names[c].less(names[d]));
}

/// Required pairs are listed by their first step and then by their second, each
/// once; the dependencies of a serial schedule by their first occurrence, their
/// second and their lag.
pub proof fn precedences_are_listed_in_order(plan: AssembledPlan, mission: Seq<char>, p: PlanModel)
    requires
        plan.has_shape(mission, plan.shape(mission)),
    ensures
        ({
            let r = plan.shape(mission).required;
            forall|a: int, b: int|
                0 <= a < b < r.len() ==> (#[trigger] r[a]).0 < (#[trigger] r[b]).0 || (r[a].0 == r[b].0 && r[a].1 < r[b].1)
        }),
        plan.shape(mission).is_serial(p) ==> forall|a: int, b: int|
            0 <= a < b < p.dependencies.len() ==> {
                let (x, y) = (#[trigger] p.dependencies[a], #[trigger] p.dependencies[b]);
                ||| x.from < y.from
                ||| x.from == y.from && x.to < y.to
                ||| x.from == y.from && x.to == y.to && x.cycle_lag < y.cycle_lag
            },
{
    let r = plan.shape(mission).required;
    assert forall|a: int, b: int| 0 <= a < b < r.len() implies (#[trigger] r[a]).0 < (#[trigger] r[b]).0 || (r[a].0
        == r[b].0 && r[a].1 < r[b].1) by {
        assert(r[a].less(r[b]));
    }
    if plan.shape(mission).is_serial(p) {
        assert forall|a: int, b: int| 0 <= a < b < p.dependencies.len() implies {
            let (x, y) = (#[trigger] p.dependencies[a], #[trigger] p.dependencies[b]);
            ||| x.from < y.from
            ||| x.from == y.from && x.to < y.to
            ||| x.from == y.from && x.to == y.to && x.cycle_lag < y.cycle_lag
        } by {
            assert(p.dependencies[a].less(p.dependencies[b]));
        }
    }
}

/// Whether step `a` is the last one to write what input `k` of step `b` reads.
pub open spec fn feeds(plan: AssembledPlan, a: int, b: int, k: int) -> bool {
    let n = plan.execution.steps@.len();
    &&& 0 <= a < n
    &&& 0 <= b < n
    &&& 0 <= k < plan.step(b).input_msg_indices_types@.len()
    &&& plan.writes(a, plan.step(b).input_msg_indices_types@[k].culist_index)
    &&& forall|c: int| a < c < n ==> !#[trigger] plan.writes(c, plan.step(b).input_msg_indices_types@[k].culist_index)
}

/// A pair of steps is required exactly when the first is the last to write what
/// the second reads, or both are steps of one node with none of it between them.
pub proof fn what_is_required(plan: AssembledPlan, mission: Seq<char>, shape: ShapeModel, a: usize, b: usize)
    requires
        plan.has_shape(mission, shape),
        plan.execution.steps@.len() <= usize::MAX,
    ensures
        shape.required.contains((a, b)) <==> {
            ||| exists|k: int| #[trigger] feeds(plan, a as int, b as int, k)
            ||| a < b < plan.execution.steps@.len() && plan.step(a as int).node_id == plan.step(b as int).node_id && forall|
                c: int,
            |
                a < c < b ==> #[trigger] plan.step(c).node_id != plan.step(a as int).node_id
        },
{
    let n = plan.execution.steps@.len();
    if plan.message_flows(a as int, b as int) {
        let k = choose|k: int| #[trigger] plan.reads(b as int, k) && plan.source(b as int, k) == Some(a as int);
        lemma_last_writer(plan, plan.step(b as int).input_msg_indices_types@[k].culist_index, n);
        assert(feeds(plan, a as int, b as int, k));
    }
    if exists|k: int| #[trigger] feeds(plan, a as int, b as int, k) {
        let k = choose|k: int| #[trigger] feeds(plan, a as int, b as int, k);
        let index = plan.step(b as int).input_msg_indices_types@[k].culist_index;
        lemma_last_writer(plan, index, n);
        assert(plan.reads(b as int, k));
        assert(plan.writes(a as int, index));
        let p = plan.producer(index, n);
        if p != Some(a as int) {
            assert(p is Some);
            assert(plan.writes(p->0, index));
        }
        assert(plan.source(b as int, k) == Some(a as int));
    }
    if a < b < n && plan.step(a as int).node_id == plan.step(b as int).node_id && forall|c: int|
        a < c < b ==> #[trigger] plan.step(c).node_id != plan.step(a as int).node_id {
        assert(plan.phases_follow(a as int, b as int));
    }
}

} // verus!
