//! The generated process plan of a mission: the steps of one CopperList in
//! execution order, and the task or bridge channel that each step calls.

use crate::error::failure_text;
use crate::error::CuError;
use crate::error::CuResult;
use crate::text::dec;
use crate::text::is_digit;
use crate::text::lemma_dec_digits;
use crate::text::lemma_dec_injective;
use crate::text::push_dec;
use vstd::prelude::*;

verus! {

/// Index of a node of the task graph.
pub type NodeId = u32;

/// Which part of a task's work a step does.
#[derive(Clone, Copy, Debug, PartialEq, Eq, Structural)]
pub enum CuStepPhase {
    /// All of it.
    Whole,
    /// The mandatory part of an anytime task.
    AnytimeBase,
    /// One optional refinement of an anytime task.
    AnytimeRefine,
}

/// A message that a step reads, by its place in the CopperList.
#[derive(Clone, Copy, Debug, PartialEq, Eq)]
pub struct CuInputMsg {
    pub culist_index: u32,
}

/// The messages that a step writes, by their place in the CopperList.
#[derive(Debug, PartialEq, Eq)]
pub struct CuOutputPack {
    pub culist_index: u32,
    pub msg_types: Vec<String>,
}

/// One call of a task or bridge channel.
#[derive(Debug, PartialEq, Eq)]
pub struct CuExecutionStep {
    pub node_id: NodeId,
    pub phase: CuStepPhase,
    pub input_msg_indices_types: Vec<CuInputMsg>,
    pub output_msg_pack: Option<CuOutputPack>,
}

/// A step, or steps that repeat.
#[derive(Debug, PartialEq, Eq)]
pub enum CuExecutionUnit {
    Step(CuExecutionStep),
    Loop(CuExecutionLoop),
}

/// Units in execution order.
#[derive(Debug, PartialEq, Eq)]
pub struct CuExecutionLoop {
    pub steps: Vec<CuExecutionUnit>,
}

/// What a node of the plan is.
#[derive(Debug, PartialEq, Eq)]
pub enum PlanEntityKind {
    /// A task. The invocations of a stateless one are independent.
    Task { task_index: usize, id: String, stateless: bool },
    /// The receiving end of a bridge channel.
    BridgeRx { bridge_config_index: usize, bridge: String, channel: String },
    /// The sending end of a bridge channel.
    BridgeTx { bridge_config_index: usize, bridge: String, channel: String },
}

/// A node of the plan.
#[derive(Debug, PartialEq, Eq)]
pub struct PlanEntity {
    pub kind: PlanEntityKind,
}

/// A process plan and the nodes that its steps call.
#[derive(Debug, PartialEq, Eq)]
pub struct AssembledPlan {
    pub execution: CuExecutionLoop,
    pub entities: Vec<PlanEntity>,
}

/// The text that names a node in a step key.
pub open spec fn entity_text(entity: PlanEntity) -> Seq<char> {
    match entity.kind {
        PlanEntityKind::Task { id, .. } => "|task:"@ + id@,
        PlanEntityKind::BridgeRx { bridge, channel, .. } => "|bridge:"@ + bridge@ + ":rx:"@ + channel@,
        PlanEntityKind::BridgeTx { bridge, channel, .. } => "|bridge:"@ + bridge@ + ":tx:"@ + channel@,
    }
}

/// The text that names a phase in a step key; refinements are numbered.
pub open spec fn phase_text(phase: CuStepPhase, ordinal: nat) -> Seq<char> {
    match phase {
        CuStepPhase::Whole => "|phase:whole"@,
        CuStepPhase::AnytimeBase => "|phase:base"@,
        CuStepPhase::AnytimeRefine => "|phase:refine:"@ + dec(ordinal),
    }
}

/// The stable identity of a process step.
pub open spec fn step_key_text(mission: Seq<char>, entity: PlanEntity, phase: CuStepPhase, ordinal: nat) -> Seq<char> {
    "mission:"@ + mission + entity_text(entity) + phase_text(phase, ordinal)
}

/// The key of a refinement tells the text of its node and its number.
pub(crate) proof fn lemma_refinement_key(
    mission: Seq<char>,
    a: PlanEntity,
    phase: CuStepPhase,
    m: nat,
    b: PlanEntity,
    n: nat,
)
    requires
        step_key_text(mission, a, phase, m) == step_key_text(mission, b, CuStepPhase::AnytimeRefine, n),
    ensures
        phase is AnytimeRefine,
        entity_text(a) == entity_text(b),
        m == n,
{
    reveal_strlit("|phase:whole");
    reveal_strlit("|phase:base");
    reveal_strlit("|phase:refine:");
    let head = "mission:"@ + mission;
    let (s, t) = (step_key_text(mission, a, phase, m), step_key_text(mission, b, CuStepPhase::AnytimeRefine, n));
    lemma_dec_digits(m);
    lemma_dec_digits(n);
    assert(t.last() == dec(n).last());
    assert(is_digit(t.last())) by {
        assert(is_digit(dec(n)[dec(n).len() - 1]));
    }
    assert(s.last() == phase_text(phase, m).last());
    assert(phase is AnytimeRefine);
    let (x, y) = (s.len() - dec(m).len(), t.len() - dec(n).len());
    assert(s[x - 1] == ':');
    assert(t[y - 1] == ':');
    if x > y {
        assert(t[x - 1] == dec(n)[x - 1 - y]);
        assert(is_digit(dec(n)[x - 1 - y]));
    }
    if x < y {
        assert(s[y - 1] == dec(m)[y - 1 - x]);
        assert(is_digit(dec(m)[y - 1 - x]));
    }
    assert(dec(m) =~= s.skip(x));
    assert(dec(n) =~= t.skip(y));
    lemma_dec_injective(m, n);
    assert(entity_text(a) =~= s.subrange(head.len() as int, x - 14));
    assert(entity_text(b) =~= t.subrange(head.len() as int, y - 14));
}

impl AssembledPlan {
    /// Whether every step calls a node of the plan.
    pub open spec fn wf(self) -> bool {
        forall|i: int|
            0 <= i < self.execution.steps@.len() ==> match #[trigger] self.execution.steps@[i] {
                CuExecutionUnit::Step(step) => step.node_id < self.entities@.len(),
                CuExecutionUnit::Loop(_) => true,
            }
    }

    /// Whether the plan holds steps only.
    pub open spec fn flat(self) -> bool {
        forall|i: int| 0 <= i < self.execution.steps@.len() ==> (#[trigger] self.execution.steps@[i]) is Step
    }

    /// Step `i` of a flat plan.
    pub open spec fn step(self, i: int) -> CuExecutionStep {
        self.execution.steps@[i]->Step_0
    }

    /// Number of refinements of `node` among the first `n` units.
    pub open spec fn refines(self, node: int, n: nat) -> nat
        decreases n,
    {
        if n == 0 {
            0
        } else {
            self.refines(node, (n - 1) as nat) + (match self.execution.steps@[n - 1] {
                CuExecutionUnit::Step(step) => if step.node_id == node && step.phase is AnytimeRefine {
                    1nat
                } else {
                    0nat
                },
                CuExecutionUnit::Loop(_) => 0nat,
            })
        }
    }

    /// The key of step `i`: a refinement is numbered among those of its node.
    pub open spec fn key(self, mission: Seq<char>, i: int) -> Seq<char> {
        let step = self.step(i);
        step_key_text(
            mission,
            self.entities@[step.node_id as int],
            step.phase,
            self.refines(step.node_id as int, (i + 1) as nat),
        )
    }
}

/// The stable identity of a process step.
pub fn step_key(mission: &str, entity: &PlanEntity, phase: CuStepPhase, ordinal: u64) -> (key: String)
    ensures
        key@ == step_key_text(mission@, *entity, phase, ordinal as nat),
{
    let mut name: String = String::new();
    match &entity.kind {
        PlanEntityKind::Task { id, .. } => {
            name.append("|task:");
            name.append(id.as_str());
        },
        PlanEntityKind::BridgeRx { bridge, channel, .. } => {
            name.append("|bridge:");
            name.append(bridge.as_str());
            name.append(":rx:");
            name.append(channel.as_str());
        },
        PlanEntityKind::BridgeTx { bridge, channel, .. } => {
            name.append("|bridge:");
            name.append(bridge.as_str());
            name.append(":tx:");
            name.append(channel.as_str());
        },
    }
    assert(name@ =~= entity_text(*entity));
    let mut key: String = "mission:".to_owned();
    key.append(mission);
    key.append(name.as_str());
    match phase {
        CuStepPhase::Whole => {
            key.append("|phase:whole");
        },
        CuStepPhase::AnytimeBase => {
            key.append("|phase:base");
        },
        CuStepPhase::AnytimeRefine => {
            key.append("|phase:refine:");
            push_dec(&mut key, ordinal);
        },
    }
    assert(key@ =~= step_key_text(mission@, *entity, phase, ordinal as nat));
    key
}

/// The keys of the steps of a plan, in execution order.
pub fn execution_keys(plan: &AssembledPlan, mission: &str) -> (r: CuResult<Vec<String>>)
    requires
        plan.wf(),
    ensures
        failure_text(r) == (if plan.flat() {
            None
        } else {
            Some("Nested loops are not supported by plan version 1"@)
        }),
        r matches Ok(keys) ==> keys@.len() == plan.execution.steps@.len() && forall|i: int|
            0 <= i < keys@.len() ==> (#[trigger] keys@[i])@ == plan.key(mission@, i),
{
    let nodes: usize = plan.entities.len();
    let mut refines: Vec<u64> = Vec::new();
    while refines.len() < nodes
        invariant
            refines@.len() <= nodes,
            forall|v: int| 0 <= v < refines@.len() ==> #[trigger] refines@[v] == 0,
        decreases nodes - refines@.len(),
    {
        refines.push(0);
    }
    let mut keys: Vec<String> = Vec::new();
    let n: usize = plan.execution.steps.len();
    let mut i: usize = 0;
    while i < n
        invariant
            i <= n,
            n == plan.execution.steps@.len(),
            plan.wf(),
            nodes == plan.entities@.len(),
            refines@.len() == nodes,
            forall|v: int| 0 <= v < nodes ==> #[trigger] refines@[v] == plan.refines(v, i as nat) && refines@[v] <= i,
            forall|j: int| 0 <= j < i ==> (#[trigger] plan.execution.steps@[j]) is Step,
            keys@.len() == i,
            forall|j: int| 0 <= j < i ==> (#[trigger] keys@[j])@ == plan.key(mission@, j),
        decreases n - i,
    {
        match &plan.execution.steps[i] {
            CuExecutionUnit::Loop(_) => {
                assert(plan.execution.steps@[i as int] is Loop);
                return Err(CuError::of("Nested loops are not supported by plan version 1"));
            },
            CuExecutionUnit::Step(step) => {
                let node: usize = step.node_id as usize;
                let ghost before = refines@;
                let mut ordinal: u64 = refines[node];
                if step.phase == CuStepPhase::AnytimeRefine {
                    ordinal = ordinal + 1;
                    refines.set(node, ordinal);
                }
                proof {
                    assert(plan.step(i as int) == *step);
                    assert forall|v: int| 0 <= v < nodes implies #[trigger] refines@[v] == plan.refines(
                        v,
                        (i + 1) as nat,
                    ) && refines@[v] <= i + 1 by {
                        assert(before[v] == plan.refines(v, i as nat));
                    }
                }
                keys.push(step_key(mission, &plan.entities[node], step.phase, ordinal));
            },
        }
        i = i + 1;
    }
    Ok(keys)
}

/// Whether a unit is a refinement of `node`.
pub open spec fn refines_node(node: int) -> spec_fn(CuExecutionUnit) -> bool {
    |unit: CuExecutionUnit|
        match unit {
            CuExecutionUnit::Step(step) => step.node_id == node && step.phase is AnytimeRefine,
            CuExecutionUnit::Loop(_) => false,
        }
}

/// A refinement's number is how many refinements of its node there are up to
/// it, from one.
pub proof fn refinements_are_counted_per_node(plan: AssembledPlan, node: int, n: nat)
    requires
        n <= plan.execution.steps@.len(),
    ensures
        plan.refines(node, n) == plan.execution.steps@.take(n as int).filter(refines_node(node)).len(),
    decreases n,
{
    reveal(Seq::filter);
    let all = plan.execution.steps@.take(n as int);
    if n > 0 {
        refinements_are_counted_per_node(plan, node, (n - 1) as nat);
        assert(all.drop_last() =~= plan.execution.steps@.take(n - 1));
    }
}

/// The keys of one node's steps tell its phases apart, and its refinements by
/// their number.
pub proof fn keys_tell_phases_apart(
    mission: Seq<char>,
    entity: PlanEntity,
    p: CuStepPhase,
    q: CuStepPhase,
    i: nat,
    j: nat,
)
    requires
        step_key_text(mission, entity, p, i) == step_key_text(mission, entity, q, j),
    ensures
        p == q,
        p is AnytimeRefine ==> i == j,
{
    let head = "mission:"@ + mission + entity_text(entity);
    let (a, b) = (step_key_text(mission, entity, p, i), step_key_text(mission, entity, q, j));
    assert(a.skip(head.len() as int) =~= phase_text(p, i));
    assert(b.skip(head.len() as int) =~= phase_text(q, j));
    reveal_strlit("|phase:whole");
    reveal_strlit("|phase:base");
    reveal_strlit("|phase:refine:");
    assert(phase_text(p, i)[7] == phase_text(q, j)[7]);
    if p is AnytimeRefine {
        let mark = "|phase:refine:"@;
        assert(phase_text(p, i).skip(mark.len() as int) =~= dec(i));
        assert(phase_text(q, j).skip(mark.len() as int) =~= dec(j));
        lemma_dec_injective(i, j);
    }
}

/// A key names the mission first, then the node, then the phase.
pub proof fn keys_name_mission_node_and_phase(mission: Seq<char>, entity: PlanEntity, phase: CuStepPhase, ordinal: nat)
    ensures
        ("mission:"@ + mission).is_prefix_of(step_key_text(mission, entity, phase, ordinal)),
        step_key_text(mission, entity, phase, ordinal).skip(("mission:"@ + mission).len() as int) == (match entity.kind {
            PlanEntityKind::Task { id, .. } => "|task:"@ + id@,
            PlanEntityKind::BridgeRx { bridge, channel, .. } => "|bridge:"@ + bridge@ + ":rx:"@ + channel@,
            PlanEntityKind::BridgeTx { bridge, channel, .. } => "|bridge:"@ + bridge@ + ":tx:"@ + channel@,
        }) + (match phase {
            CuStepPhase::Whole => "|phase:whole"@,
            CuStepPhase::AnytimeBase => "|phase:base"@,
            CuStepPhase::AnytimeRefine => "|phase:refine:"@ + dec(ordinal),
        }),
{
    let key = step_key_text(mission, entity, phase, ordinal);
    let head = "mission:"@ + mission;
    assert(key.take(head.len() as int) =~= head);
    assert(key.skip(head.len() as int) =~= entity_text(entity) + phase_text(phase, ordinal));
}

/// The key of a step names its node and its phase; a refinement's ends with its
/// number among those of its node, from one, in execution order.
pub proof fn refinement_keys_count_from_one(plan: AssembledPlan, mission: Seq<char>, i: int)
    requires
        0 <= i < plan.execution.steps@.len(),
        plan.flat(),
    ensures
        ({
            let step = plan.step(i);
            let number = plan.execution.steps@.take(i + 1).filter(refines_node(step.node_id as int)).len();
            &&& plan.key(mission, i) == step_key_text(
                mission,
                plan.entities@[step.node_id as int],
                step.phase,
                number,
            )
            &&& step.phase is AnytimeRefine ==> number > 0
        }),
{
    let step = plan.step(i);
    refinements_are_counted_per_node(plan, step.node_id as int, (i + 1) as nat);
    assert(plan.execution.steps@[i] is Step);
}

} // verus!
