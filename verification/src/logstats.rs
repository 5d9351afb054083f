//! Statistics of a recorded log, per connection, per plan step and end to end.

use crate::assembled::CuExecutionLoop;
use crate::assembled::CuExecutionStep;
use crate::assembled::CuExecutionUnit;
use crate::assembled::NodeId;
use crate::error::failure_text;
use crate::error::CuError;
use crate::error::CuResult;
use crate::schedule::texts;
use crate::signature::build_graph_signature;
use crate::signature::maybe_text;
use crate::signature::signature_text;
use crate::signature::CuConnection;
use crate::signature::CuGraph;
use crate::signature::GraphNode;
use crate::stats::build_pack_ranges;
use crate::stats::compute_end_to_end_latency;
use crate::stats::duration_stats;
use crate::stats::end_to_end;
use crate::stats::finalize_pipeline;
use crate::stats::lemma_pack_offset;
use crate::stats::pack_offset;
use crate::stats::pack_ranges;
use crate::stats::packs_of;
use crate::stats::ranges_of;
use crate::stats::reports_pipeline;
use crate::stats::sample_step_duration_ns;
use crate::stats::stages_are_reported_in_plan_order;
use crate::stats::stages_of;
use crate::stats::step_duration;
use crate::stats::steps;
use crate::stats::EdgeAccumulator;
use crate::stats::EdgeKey;
use crate::stats::EdgeLogStats;
use crate::stats::EdgeModel;
use crate::stats::OutputPackInfo;
use crate::stats::PackModel;
use crate::stats::PackRange;
use crate::stats::PerfAccumulator;
use crate::stats::PerfModel;
use crate::stats::PerfStats;
use crate::stats::PipelineStats;
use crate::stats::RangeModel;
use crate::stats::Ratio;
use crate::stats::RecordedCopperList;
use crate::stats::StageAccumulator;
use crate::stats::StageModel;
use crate::sums::lemma_sum_empty;
use crate::sums::lemma_sum_push;
use crate::sums::sum;
use crate::text::same_str;
use vstd::prelude::*;

verus! {

pub const LOGSTATS_SCHEMA_VERSION: u32 = 2;

// ---------------------------------------------------------------------------
// Output packs
// ---------------------------------------------------------------------------

/// The id of the first of `n` nodes with the given number.
pub open spec fn node_name(nodes: Seq<GraphNode>, id: NodeId, n: nat) -> Option<Seq<char>>
    decreases n,
{
    if n == 0 {
        None
    } else {
        match node_name(nodes, id, (n - 1) as nat) {
            Some(name) => Some(name),
            None => if nodes[n - 1].node_id == id {
                Some(nodes[n - 1].id@)
            } else {
                None
            },
        }
    }
}

/// The packs of the first `n` units of a loop, `None` when a node is missing.
pub open spec fn loop_packs(l: CuExecutionLoop, nodes: Seq<GraphNode>, n: nat) -> Option<Seq<PackModel>>
    decreases l, n,
{
    if n == 0 || n > l.steps@.len() {
        Some(Seq::empty())
    } else {
        match (loop_packs(l, nodes, (n - 1) as nat), unit_packs(l.steps@[n - 1], nodes)) {
            (Some(a), Some(b)) => Some(a + b),
            _ => None,
        }
    }
}

/// The packs of one unit, `None` when a node is missing.
pub open spec fn unit_packs(unit: CuExecutionUnit, nodes: Seq<GraphNode>) -> Option<Seq<PackModel>>
    decreases unit, 0nat,
{
    match unit {
        CuExecutionUnit::Step(step) => match step.output_msg_pack {
            Some(pack) => match node_name(nodes, step.node_id, nodes.len()) {
                Some(name) => Some(
                    seq![
                        PackModel {
                            culist_index: pack.culist_index,
                            src: name,
                            msg_types: texts(pack.msg_types@),
                        },
                    ],
                ),
                None => None,
            },
            None => Some(Seq::empty()),
        },
        CuExecutionUnit::Loop(inner) => loop_packs(inner, nodes, inner.steps@.len()),
    }
}

/// `list` with `pack` after every pack whose place is not greater.
pub open spec fn insert_pack(list: Seq<PackModel>, pack: PackModel) -> Seq<PackModel>
    decreases list.len(),
{
    if list.len() == 0 || pack.culist_index >= list.last().culist_index {
        list.push(pack)
    } else {
        insert_pack(list.drop_last(), pack).push(list.last())
    }
}

/// The packs in the order of their places; equal places keep their order.
pub open spec fn sort_packs(list: Seq<PackModel>) -> Seq<PackModel>
    decreases list.len(),
{
    if list.len() == 0 {
        list
    } else {
        insert_pack(sort_packs(list.drop_last()), list.last())
    }
}

/// The packs of a plan in slot order, `None` when a node is missing.
pub open spec fn output_packs(plan: CuExecutionLoop, graph: CuGraph) -> Option<Seq<PackModel>> {
    match loop_packs(plan, graph.nodes@, plan.steps@.len()) {
        Some(list) => Some(sort_packs(list)),
        None => None,
    }
}

/// What stops the packs from being collected.
pub open spec fn packs_failure(plan: CuExecutionLoop, graph: CuGraph) -> Option<Seq<char>> {
    if output_packs(plan, graph) is None {
        Some("Missing node for output pack"@)
    } else {
        None
    }
}

/// The id of the first node with the given number.
fn find_node(nodes: &Vec<GraphNode>, id: NodeId) -> (r: Option<usize>)
    ensures
        r matches Some(i) ==> i < nodes@.len() && node_name(nodes@, id, nodes@.len()) == Some(nodes@[i as int].id@),
        r is None ==> node_name(nodes@, id, nodes@.len()) is None,
{
    let mut found: Option<usize> = None;
    let mut i: usize = 0;
    while i < nodes.len()
        invariant
            i <= nodes@.len(),
            found matches Some(k) ==> k < i && node_name(nodes@, id, i as nat) == Some(nodes@[k as int].id@),
            found is None ==> node_name(nodes@, id, i as nat) is None,
        decreases nodes@.len() - i,
    {
        if found.is_none() && nodes[i].node_id == id {
            found = Some(i);
        }
        i = i + 1;
    }
    found
}

fn copy_texts(list: &Vec<String>) -> (r: Vec<String>)
    ensures
        texts(r@) == texts(list@),
{
    let mut r: Vec<String> = Vec::new();
    let mut i: usize = 0;
    while i < list.len()
        invariant
            i <= list@.len(),
            r@.len() == i,
            forall|k: int| 0 <= k < i ==> (#[trigger] r@[k])@ == list@[k]@,
        decreases list@.len() - i,
    {
        r.push(list[i].clone());
        i = i + 1;
    }
    assert(texts(r@) =~= texts(list@));
    r
}

proof fn lemma_loop_packs_later(l: CuExecutionLoop, nodes: Seq<GraphNode>, i: nat, n: nat)
    requires
        i <= n <= l.steps@.len(),
        loop_packs(l, nodes, i) is None,
    ensures
        loop_packs(l, nodes, n) is None,
    decreases n,
{
    if i < n {
        lemma_loop_packs_later(l, nodes, i, (n - 1) as nat);
    }
}

/// Appends the packs of a loop.
fn collect_output_packs_from_loop(loop_unit: &CuExecutionLoop, graph: &CuGraph, packs: &mut Vec<OutputPackInfo>) -> (r:
    CuResult<()>)
    ensures
        match loop_packs(*loop_unit, graph.nodes@, loop_unit.steps@.len()) {
            Some(list) => r is Ok && packs_of(final(packs)@) == packs_of(old(packs)@) + list,
            None => failure_text(r) == Some("Missing node for output pack"@),
        },
    decreases loop_unit,
{
    let ghost nodes = graph.nodes@;
    let ghost start = packs_of(packs@);
    let mut i: usize = 0;
    assert(start + Seq::<PackModel>::empty() =~= start);
    while i < loop_unit.steps.len()
        invariant
            i <= loop_unit.steps@.len(),
            nodes == graph.nodes@,
            loop_packs(*loop_unit, nodes, i as nat) matches Some(list) && packs_of(packs@) == start + list,
        decreases loop_unit.steps@.len() - i,
    {
        let ghost before = packs_of(packs@);
        let ghost so_far = loop_packs(*loop_unit, nodes, i as nat)->0;
        match &loop_unit.steps[i] {
            CuExecutionUnit::Step(step) => {
                if let Some(pack) = &step.output_msg_pack {
                    match find_node(&graph.nodes, step.node_id) {
                        Some(k) => {
                            let msg_types: Vec<String> = copy_texts(&pack.msg_types);
                            packs.push(
                                OutputPackInfo {
                                    culist_index: pack.culist_index,
                                    src: graph.nodes[k].id.clone(),
                                    msg_types,
                                },
                            );
                            proof {
                                let more = unit_packs(loop_unit.steps@[i as int], nodes)->0;
                                assert(packs_of(packs@) =~= before + more);
                            }
                        },
                        None => {
                            proof {
                                lemma_loop_packs_later(*loop_unit, nodes, (i + 1) as nat, loop_unit.steps@.len());
                            }
                            return Err(CuError::of("Missing node for output pack"));
                        },
                    }
                } else {
                    assert(before + Seq::<PackModel>::empty() =~= before);
                }
            },
            CuExecutionUnit::Loop(inner) => {
                assert(decreases_to!(loop_unit => loop_unit.steps@[i as int]));
                match collect_output_packs_from_loop(inner, graph, packs) {
                    Ok(_) => {},
                    Err(e) => {
                        proof {
                            lemma_loop_packs_later(*loop_unit, nodes, (i + 1) as nat, loop_unit.steps@.len());
                        }
                        return Err(e);
                    },
                }
            },
        }
        proof {
            let more = unit_packs(loop_unit.steps@[i as int], nodes)->0;
            assert(start + so_far + more =~= start + (so_far + more));
        }
        i = i + 1;
    }
    Ok(())
}

proof fn lemma_insert_at(list: Seq<PackModel>, pack: PackModel, at: nat)
    requires
        at <= list.len(),
        at > 0 ==> pack.culist_index >= list[at - 1].culist_index,
        forall|i: int| at <= i < list.len() ==> pack.culist_index < (#[trigger] list[i]).culist_index,
    ensures
        insert_pack(list, pack) == list.insert(at as int, pack),
    decreases list.len(),
{
    if at == list.len() {
        assert(list.push(pack) =~= list.insert(at as int, pack));
    } else {
        let rest = list.drop_last();
        assert(pack.culist_index < list[list.len() - 1].culist_index);
        lemma_insert_at(rest, pack, at);
        assert(rest.insert(at as int, pack).push(list.last()) =~= list.insert(at as int, pack));
    }
}

/// Puts a pack after every pack whose place is not greater.
fn insert_in_order(list: &mut Vec<OutputPackInfo>, pack: OutputPackInfo)
    ensures
        packs_of(final(list)@) == insert_pack(packs_of(old(list)@), pack@),
{
    let mut at: usize = list.len();
    while at > 0 && pack.culist_index < list[at - 1].culist_index
        invariant
            at <= list@.len(),
            forall|i: int| at <= i < list@.len() ==> pack.culist_index < (#[trigger] list@[i]).culist_index,
        decreases at,
    {
        at = at - 1;
    }
    let ghost before = packs_of(list@);
    proof {
        assert forall|i: int| at <= i < before.len() implies pack@.culist_index < (#[trigger] before[i]).culist_index by {
            assert(pack.culist_index < list@[i].culist_index);
        }
        lemma_insert_at(before, pack@, at as nat);
    }
    list.insert(at, pack);
    proof {
        assert(packs_of(list@) =~= before.insert(at as int, pack@));
    }
}

/// The packs of a plan in slot order.
pub fn collect_output_packs(plan: &CuExecutionLoop, graph: &CuGraph) -> (r: CuResult<Vec<OutputPackInfo>>)
    ensures
        failure_text(r) == packs_failure(*plan, *graph),
        r matches Ok(packs) ==> packs_of(packs@) == output_packs(*plan, *graph)->0,
{
    let mut found: Vec<OutputPackInfo> = Vec::new();
    assert(packs_of(found@) =~= Seq::<PackModel>::empty());
    match collect_output_packs_from_loop(plan, graph, &mut found) {
        Ok(_) => {},
        Err(e) => {
            return Err(e);
        },
    }
    let ghost list = loop_packs(*plan, graph.nodes@, plan.steps@.len())->0;
    assert(Seq::<PackModel>::empty() + list =~= list);
    let mut sorted: Vec<OutputPackInfo> = Vec::new();
    let mut i: usize = 0;
    assert(list.take(0) =~= Seq::<PackModel>::empty());
    assert(packs_of(sorted@) =~= Seq::<PackModel>::empty());
    while i < found.len()
        invariant
            i <= found@.len(),
            packs_of(found@) == list,
            packs_of(sorted@) == sort_packs(list.take(i as int)),
        decreases found@.len() - i,
    {
        assert(list.take(i + 1).drop_last() =~= list.take(i as int));
        assert(list.take(i + 1).last() == list[i as int]);
        assert(list[i as int] == found@[i as int]@);
        let msg_types: Vec<String> = copy_texts(&found[i].msg_types);
        let pack = OutputPackInfo { culist_index: found[i].culist_index, src: found[i].src.clone(), msg_types };
        insert_in_order(&mut sorted, pack);
        i = i + 1;
    }
    assert(list.take(i as int) =~= list);
    Ok(sorted)
}

/// Whether the places never descend.
pub open spec fn places_ascend(list: Seq<PackModel>) -> bool {
    forall|i: int, j: int|
        0 <= i < j < list.len() ==> (#[trigger] list[i]).culist_index <= (#[trigger] list[j]).culist_index
}

proof fn lemma_insert_pack(list: Seq<PackModel>, pack: PackModel)
    requires
        places_ascend(list),
    ensures
        places_ascend(insert_pack(list, pack)),
        insert_pack(list, pack).len() == list.len() + 1,
        insert_pack(list, pack).to_multiset() == list.to_multiset().insert(pack),
        forall|i: int, bound: u32|
            #![trigger insert_pack(list, pack)[i], list_below(list, bound)]
            0 <= i <= list.len() && list_below(list, bound) && pack.culist_index <= bound ==> insert_pack(list, pack)[i].culist_index
                <= bound,
    decreases list.len(),
{
    broadcast use vstd::seq_lib::group_to_multiset_ensures;

    if list.len() == 0 || pack.culist_index >= list.last().culist_index {
        assert forall|i: int, j: int| 0 <= i < j < list.push(pack).len() implies (#[trigger] list.push(
            pack,
        )[i]).culist_index <= (#[trigger] list.push(pack)[j]).culist_index by {
            if j == list.len() {
                assert(i == list.len() - 1 || list[i].culist_index <= list[list.len() - 1].culist_index);
            }
        }
    } else {
        let rest = list.drop_last();
        let last = list.last();
        lemma_insert_pack(rest, pack);
        let inner = insert_pack(rest, pack);
        let r = inner.push(last);
        assert(list =~= rest.push(last));
        assert(list_below(rest, last.culist_index)) by {
            assert forall|k: int| 0 <= k < rest.len() implies (#[trigger] rest[k]).culist_index <= last.culist_index by {
                assert(list[k].culist_index <= list[list.len() - 1].culist_index);
            }
        }
        assert forall|i: int, j: int| 0 <= i < j < r.len() implies (#[trigger] r[i]).culist_index <= (
        #[trigger] r[j]).culist_index by {
            if j == list.len() {
                assert(inner[i].culist_index <= last.culist_index);
            }
        }
        assert(r.to_multiset() =~= list.to_multiset().insert(pack));
        assert forall|i: int, bound: u32|
            #![trigger r[i], list_below(list, bound)]
            0 <= i <= list.len() && list_below(list, bound) && pack.culist_index <= bound implies r[i].culist_index <= bound by {
            assert(list_below(rest, bound)) by {
                assert forall|k: int| 0 <= k < rest.len() implies (#[trigger] rest[k]).culist_index <= bound by {
                    assert(list[k].culist_index <= bound);
                }
            }
            assert(list[list.len() - 1].culist_index <= bound);
            if i < list.len() {
                assert(inner[i].culist_index <= bound);
            }
        }
    }
}

/// Whether no place is greater than `bound`.
spec fn list_below(list: Seq<PackModel>, bound: u32) -> bool {
    forall|k: int| 0 <= k < list.len() ==> (#[trigger] list[k]).culist_index <= bound
}

/// The packs of a plan are collected once each, in the order of their places
/// in the CopperList.
pub proof fn packs_are_in_slot_order(list: Seq<PackModel>)
    ensures
        places_ascend(sort_packs(list)),
        sort_packs(list).to_multiset() == list.to_multiset(),
    decreases list.len(),
{
    broadcast use vstd::seq_lib::group_to_multiset_ensures;

    if list.len() > 0 {
        packs_are_in_slot_order(list.drop_last());
        lemma_insert_pack(sort_packs(list.drop_last()), list.last());
        assert(list =~= list.drop_last().push(list.last()));
    }
}

// ---------------------------------------------------------------------------
// Connections
// ---------------------------------------------------------------------------

/// What identifies a connection.
pub open spec fn edge_model(cnx: CuConnection) -> EdgeModel {
    EdgeModel {
        src: cnx.src@,
        src_channel: maybe_text(cnx.src_channel),
        dst: cnx.dst@,
        dst_channel: maybe_text(cnx.dst_channel),
        msg: cnx.msg@,
    }
}

/// What a list of keys says.
pub open spec fn keys_of(keys: Seq<EdgeKey>) -> Seq<EdgeModel> {
    Seq::new(keys.len(), |i: int| keys[i]@)
}

/// The distinct connections among the first `n`, in the order in which they
/// come first.
pub open spec fn distinct_edges(edges: Seq<CuConnection>, n: nat) -> Seq<EdgeModel>
    decreases n,
{
    if n == 0 {
        Seq::empty()
    } else {
        let rest = distinct_edges(edges, (n - 1) as nat);
        if rest.contains(edge_model(edges[n - 1])) {
            rest
        } else {
            rest.push(edge_model(edges[n - 1]))
        }
    }
}

/// The connections among the first `n` that carry a message of a source.
pub open spec fn edges_of(edges: Seq<CuConnection>, src: Seq<char>, msg: Seq<char>, n: nat) -> Seq<EdgeModel>
    decreases n,
{
    if n == 0 {
        Seq::empty()
    } else {
        let rest = edges_of(edges, src, msg, (n - 1) as nat);
        if edges[n - 1].src@ == src && edges[n - 1].msg@ == msg {
            rest.push(edge_model(edges[n - 1]))
        } else {
            rest
        }
    }
}

/// Per message of a pack: the connections that carry it.
pub open spec fn pack_slots(pack: PackModel, edges: Seq<CuConnection>) -> Seq<Seq<EdgeModel>> {
    Seq::new(pack.msg_types.len(), |i: int| edges_of(edges, pack.src, pack.msg_types[i], edges.len()))
}

/// Per message of the first `n` packs: the connections that carry it.
pub open spec fn output_slots(packs: Seq<PackModel>, edges: Seq<CuConnection>, n: nat) -> Seq<Seq<EdgeModel>>
    decreases n,
{
    if n == 0 {
        Seq::empty()
    } else {
        output_slots(packs, edges, (n - 1) as nat) + pack_slots(packs[n - 1], edges)
    }
}

/// The counts of a connection after the first `n` connections of a slot have
/// counted a message.
pub open spec fn after_slot(
    acc: EdgeAccumulator,
    slot: Seq<EdgeModel>,
    key: EdgeModel,
    bytes: Option<u64>,
    end_ns: Option<u64>,
    n: nat,
) -> EdgeAccumulator
    decreases n,
{
    if n == 0 {
        acc
    } else {
        let rest = after_slot(acc, slot, key, bytes, end_ns, (n - 1) as nat);
        if slot[n - 1] == key {
            rest.recorded(bytes, end_ns)
        } else {
            rest
        }
    }
}

/// The counts of a connection after the first `n` messages of a CopperList.
pub open spec fn after_msgs(
    acc: EdgeAccumulator,
    slots: Seq<Seq<EdgeModel>>,
    key: EdgeModel,
    culist: RecordedCopperList,
    n: nat,
) -> EdgeAccumulator
    decreases n,
{
    if n == 0 {
        acc
    } else {
        after_slot(
            after_msgs(acc, slots, key, culist, (n - 1) as nat),
            slots[n - 1],
            key,
            culist.payload_raw_bytes@[n - 1],
            culist.msgs@[n - 1].end_ns,
            slots[n - 1].len(),
        )
    }
}

/// How many messages of a CopperList are counted.
pub open spec fn counted(slots: nat, culist: RecordedCopperList) -> nat {
    let sizes = culist.payload_raw_bytes@.len();
    let msgs = culist.msgs@.len();
    let least = if sizes <= msgs {
        sizes
    } else {
        msgs
    };
    if least <= slots {
        least
    } else {
        slots
    }
}

/// The counts of a connection after the first `n` CopperLists.
pub open spec fn edge_counts(
    slots: Seq<Seq<EdgeModel>>,
    key: EdgeModel,
    culists: Seq<RecordedCopperList>,
    n: nat,
) -> EdgeAccumulator
    decreases n,
{
    if n == 0 {
        EdgeAccumulator::empty()
    } else {
        after_msgs(
            edge_counts(slots, key, culists, (n - 1) as nat),
            slots,
            key,
            culists[n - 1],
            counted(slots.len(), culists[n - 1]),
        )
    }
}

/// The durations of a step in the first `n` CopperLists, without those that
/// the recording does not hold.
pub open spec fn step_durations(range: RangeModel, culists: Seq<RecordedCopperList>, n: nat) -> Seq<u64>
    decreases n,
{
    if n == 0 {
        Seq::empty()
    } else {
        let rest = step_durations(range, culists, (n - 1) as nat);
        match step_duration(culists[n - 1].msgs@, range) {
            Some(d) => rest.push(d),
            None => rest,
        }
    }
}

/// The end-to-end latencies of the first `n` CopperLists.
pub open spec fn latencies(culists: Seq<RecordedCopperList>, n: nat) -> PerfModel
    decreases n,
{
    if n == 0 {
        PerfModel::empty()
    } else {
        latencies(culists, (n - 1) as nat).recorded(end_to_end(culists[n - 1].msgs@))
    }
}

/// The steps of a plan with their durations.
pub open spec fn plan_stages(packs: Seq<PackModel>, culists: Seq<RecordedCopperList>, n: nat) -> Seq<StageModel> {
    Seq::new(
        packs.len(),
        |i: int| StageModel { task: packs[i].src, durations: step_durations(pack_ranges(packs)[i], culists, n) },
    )
}

/// The lengths of a CopperList that does not match its plan.
#[derive(Clone, Copy, Debug, PartialEq, Eq, Structural)]
pub struct LengthMismatch {
    pub sizes: usize,
    pub msgs: usize,
    pub slots: usize,
}

/// The first among the first `n` CopperLists that does not match its plan.
pub open spec fn first_mismatch(slots: nat, culists: Seq<RecordedCopperList>, n: nat) -> Option<LengthMismatch>
    decreases n,
{
    if n == 0 {
        None
    } else {
        match first_mismatch(slots, culists, (n - 1) as nat) {
            Some(m) => Some(m),
            None => {
                let sizes = culists[n - 1].payload_raw_bytes@.len();
                let msgs = culists[n - 1].msgs@.len();
                if sizes != msgs || sizes != slots {
                    Some(LengthMismatch { sizes: sizes as usize, msgs: msgs as usize, slots: slots as usize })
                } else {
                    None
                }
            },
        }
    }
}

/// Statistics of a recorded log.
#[derive(Debug)]
pub struct LogStats {
    pub schema_version: u32,
    pub config_signature: String,
    pub mission: Option<String>,
    pub edges: Vec<EdgeLogStats>,
    pub perf: PerfStats,
    pub pipeline: PipelineStats,
    /// The first CopperList that does not match its plan, worth a warning.
    pub mismatch: Option<LengthMismatch>,
}

impl LogStats {
    /// Whether these are the statistics of a recording.
    pub open spec fn reports(
        self,
        graph: CuGraph,
        mission: Option<Seq<char>>,
        packs: Seq<PackModel>,
        culists: Seq<RecordedCopperList>,
    ) -> bool {
        let slots = output_slots(packs, graph.edges@, packs.len());
        let keys = distinct_edges(graph.edges@, graph.edges@.len());
        &&& self.schema_version == LOGSTATS_SCHEMA_VERSION
        &&& self.config_signature@ == signature_text(graph, mission)
        &&& maybe_text(self.mission) == mission
        &&& self.edges@.len() == keys.len()
        &&& forall|i: int|
            0 <= i < keys.len() ==> edge_counts(slots, keys[i], culists, culists.len()).reported(
                keys[i],
                #[trigger] self.edges@[i],
            )
        &&& self.perf == latencies(culists, culists.len()).report()
        &&& reports_pipeline(plan_stages(packs, culists, culists.len()), self.pipeline)
        &&& self.mismatch == first_mismatch(slots.len(), culists, culists.len())
    }
}

fn copy_text(text: &Option<String>) -> (r: Option<String>)
    ensures
        maybe_text(r) == maybe_text(*text),
{
    match text {
        Some(t) => Some(t.clone()),
        None => None,
    }
}

fn copy_key(key: &EdgeKey) -> (r: EdgeKey)
    ensures
        r@ == key@,
{
    EdgeKey {
        src: key.src.clone(),
        src_channel: copy_text(&key.src_channel),
        dst: key.dst.clone(),
        dst_channel: copy_text(&key.dst_channel),
        msg: key.msg.clone(),
    }
}

fn same_maybe(a: &Option<String>, b: &Option<String>) -> (same: bool)
    ensures
        same == (maybe_text(*a) == maybe_text(*b)),
{
    match (a, b) {
        (Some(x), Some(y)) => same_str(x.as_str(), y.as_str()),
        (None, None) => true,
        _ => false,
    }
}

fn is_key_of(key: &EdgeKey, cnx: &CuConnection) -> (same: bool)
    ensures
        same == (key@ == edge_model(*cnx)),
{
    same_str(key.src.as_str(), cnx.src.as_str()) && same_maybe(&key.src_channel, &cnx.src_channel) && same_str(
        key.dst.as_str(),
        cnx.dst.as_str(),
    ) && same_maybe(&key.dst_channel, &cnx.dst_channel) && same_str(key.msg.as_str(), cnx.msg.as_str())
}

/// Whether no two keys are the same.
spec fn all_distinct(keys: Seq<EdgeKey>) -> bool {
    forall|i: int, j: int| 0 <= i < j < keys.len() ==> (#[trigger] keys[i])@ != (#[trigger] keys[j])@
}

/// Whether `index` says which key each of the first `n` connections has.
spec fn indexes(edges: Seq<CuConnection>, keys: Seq<EdgeKey>, index: Seq<usize>, n: nat) -> bool {
    index.len() == n && forall|k: int|
        0 <= k < n ==> (#[trigger] index[k]) < keys.len() && keys[index[k] as int]@ == edge_model(edges[k])
}

/// The distinct connections of a graph, and which of them each one is.
fn build_edge_keys(graph: &CuGraph) -> (r: (Vec<EdgeKey>, Vec<usize>))
    ensures
        keys_of(r.0@) == distinct_edges(graph.edges@, graph.edges@.len()),
        all_distinct(r.0@),
        indexes(graph.edges@, r.0@, r.1@, graph.edges@.len()),
{
    let mut keys: Vec<EdgeKey> = Vec::new();
    let mut index: Vec<usize> = Vec::new();
    let mut i: usize = 0;
    assert(keys_of(keys@) =~= Seq::<EdgeModel>::empty());
    while i < graph.edges.len()
        invariant
            i <= graph.edges@.len(),
            keys_of(keys@) == distinct_edges(graph.edges@, i as nat),
            all_distinct(keys@),
            indexes(graph.edges@, keys@, index@, i as nat),
        decreases graph.edges@.len() - i,
    {
        let cnx: &CuConnection = &graph.edges[i];
        let ghost model = edge_model(*cnx);
        let ghost before = keys_of(keys@);
        let mut k: usize = 0;
        while k < keys.len() && !is_key_of(&keys[k], cnx)
            invariant
                k <= keys@.len(),
                model == edge_model(*cnx),
                forall|j: int| 0 <= j < k ==> (#[trigger] keys@[j])@ != model,
            decreases keys@.len() - k,
        {
            k = k + 1;
        }
        if k == keys.len() {
            proof {
                assert forall|j: int| 0 <= j < before.len() implies before[j] != model by {
                    assert(keys@[j]@ != model);
                }
            }
            keys.push(
                EdgeKey {
                    src: cnx.src.clone(),
                    src_channel: copy_text(&cnx.src_channel),
                    dst: cnx.dst.clone(),
                    dst_channel: copy_text(&cnx.dst_channel),
                    msg: cnx.msg.clone(),
                },
            );
            assert(keys_of(keys@) =~= before.push(model));
        } else {
            assert(before[k as int] == model);
        }
        index.push(k);
        i = i + 1;
    }
    (keys, index)
}

/// The connections that a list of key numbers names.
spec fn names(keys: Seq<EdgeKey>, list: Seq<usize>) -> Seq<EdgeModel> {
    Seq::new(list.len(), |i: int| keys[list[i] as int]@)
}

/// Whether every number names a key.
spec fn known(keys: Seq<EdgeKey>, list: Seq<usize>) -> bool {
    forall|i: int| 0 <= i < list.len() ==> (#[trigger] list[i]) < keys.len()
}

/// The connections that carry a message of a source.
fn build_edges_by_src_msg(graph: &CuGraph, keys: &Vec<EdgeKey>, index: &Vec<usize>, src: &str, msg: &str) -> (r: Vec<
    usize,
>)
    requires
        indexes(graph.edges@, keys@, index@, graph.edges@.len()),
    ensures
        known(keys@, r@),
        names(keys@, r@) == edges_of(graph.edges@, src@, msg@, graph.edges@.len()),
{
    let mut r: Vec<usize> = Vec::new();
    let mut i: usize = 0;
    assert(names(keys@, r@) =~= Seq::<EdgeModel>::empty());
    while i < graph.edges.len()
        invariant
            i <= graph.edges@.len(),
            indexes(graph.edges@, keys@, index@, graph.edges@.len()),
            known(keys@, r@),
            names(keys@, r@) == edges_of(graph.edges@, src@, msg@, i as nat),
        decreases graph.edges@.len() - i,
    {
        let cnx: &CuConnection = &graph.edges[i];
        assert(index@[i as int] < keys@.len());
        if same_str(cnx.src.as_str(), src) && same_str(cnx.msg.as_str(), msg) {
            let ghost before = names(keys@, r@);
            r.push(index[i]);
            assert(names(keys@, r@) =~= before.push(edge_model(*cnx)));
        }
        i = i + 1;
    }
    r
}

/// Whether a list of key numbers per slot names the connections of the slots.
spec fn slots_name(keys: Seq<EdgeKey>, lists: Seq<Vec<usize>>, slots: Seq<Seq<EdgeModel>>) -> bool {
    &&& lists.len() == slots.len()
    &&& forall|k: int| 0 <= k < lists.len() ==> known(keys, (#[trigger] lists[k])@) && names(keys, lists[k]@) == slots[k]
}

/// Per message: the connections that carry it.
fn build_output_slots(packs: &Vec<OutputPackInfo>, graph: &CuGraph, keys: &Vec<EdgeKey>, index: &Vec<usize>) -> (r: Vec<
    Vec<usize>,
>)
    requires
        indexes(graph.edges@, keys@, index@, graph.edges@.len()),
    ensures
        slots_name(keys@, r@, output_slots(packs_of(packs@), graph.edges@, packs@.len())),
{
    let ghost list = packs_of(packs@);
    let mut r: Vec<Vec<usize>> = Vec::new();
    let mut p: usize = 0;
    while p < packs.len()
        invariant
            p <= packs@.len(),
            list == packs_of(packs@),
            indexes(graph.edges@, keys@, index@, graph.edges@.len()),
            slots_name(keys@, r@, output_slots(list, graph.edges@, p as nat)),
        decreases packs@.len() - p,
    {
        let pack: &OutputPackInfo = &packs[p];
        let ghost before = output_slots(list, graph.edges@, p as nat);
        let ghost more = pack_slots(pack@, graph.edges@);
        let mut m: usize = 0;
        assert(before + more.take(0) =~= before);
        while m < pack.msg_types.len()
            invariant
                m <= pack.msg_types@.len(),
                more == pack_slots(pack@, graph.edges@),
                more.len() == pack.msg_types@.len(),
                indexes(graph.edges@, keys@, index@, graph.edges@.len()),
                slots_name(keys@, r@, before + more.take(m as int)),
            decreases pack.msg_types@.len() - m,
        {
            let edges: Vec<usize> = build_edges_by_src_msg(
                graph,
                keys,
                index,
                pack.src.as_str(),
                pack.msg_types[m].as_str(),
            );
            assert(texts(pack.msg_types@)[m as int] == pack.msg_types@[m as int]@);
            assert(names(keys@, edges@) == more[m as int]);
            assert(before + more.take(m + 1) =~= (before + more.take(m as int)).push(more[m as int]));
            r.push(edges);
            m = m + 1;
        }
        assert(more.take(m as int) =~= more);
        p = p + 1;
    }
    r
}

/// Whether the counts are those of the keys.
spec fn counts(keys: Seq<EdgeKey>, accs: Seq<EdgeAccumulator>, of: spec_fn(EdgeModel) -> EdgeAccumulator) -> bool {
    accs.len() == keys.len() && forall|x: int| 0 <= x < accs.len() ==> #[trigger] accs[x] == of(keys[x]@)
}

/// Counts the messages of one CopperList.
fn record_edges(
    accs: &mut Vec<EdgeAccumulator>,
    keys: &Vec<EdgeKey>,
    lists: &Vec<Vec<usize>>,
    culist: &RecordedCopperList,
    Ghost(slots): Ghost<Seq<Seq<EdgeModel>>>,
    Ghost(start): Ghost<spec_fn(EdgeModel) -> EdgeAccumulator>,
)
    requires
        all_distinct(keys@),
        slots_name(keys@, lists@, slots),
        counts(keys@, old(accs)@, start),
    ensures
        counts(
            keys@,
            final(accs)@,
            |key: EdgeModel| after_msgs(start(key), slots, key, *culist, counted(slots.len(), *culist)),
        ),
{
    let mut count: usize = culist.payload_raw_bytes.len();
    if culist.msgs.len() < count {
        count = culist.msgs.len();
    }
    if lists.len() < count {
        count = lists.len();
    }
    let mut i: usize = 0;
    while i < count
        invariant
            i <= count,
            count == counted(slots.len(), *culist),
            all_distinct(keys@),
            slots_name(keys@, lists@, slots),
            counts(keys@, accs@, |key: EdgeModel| after_msgs(start(key), slots, key, *culist, i as nat)),
        decreases count - i,
    {
        let slot: &Vec<usize> = &lists[i];
        assert(known(keys@, slot@) && names(keys@, slot@) == slots[i as int]);
        let bytes: Option<u64> = culist.payload_raw_bytes[i];
        let end_ns: Option<u64> = culist.msgs[i].end_ns;
        let ghost before = |key: EdgeModel| after_msgs(start(key), slots, key, *culist, i as nat);
        let mut j: usize = 0;
        while j < slot.len()
            invariant
                j <= slot@.len(),
                i < slots.len(),
                all_distinct(keys@),
                known(keys@, slot@),
                names(keys@, slot@) == slots[i as int],
                counts(
                    keys@,
                    accs@,
                    |key: EdgeModel| after_slot(before(key), slots[i as int], key, bytes, end_ns, j as nat),
                ),
            decreases slot@.len() - j,
        {
            let e: usize = slot[j];
            assert(e < keys@.len());
            assert(names(keys@, slot@)[j as int] == keys@[e as int]@);
            let mut acc: EdgeAccumulator = accs[e];
            acc.record_sample(bytes, end_ns);
            let ghost old_accs = accs@;
            accs.set(e, acc);
            proof {
                assert forall|x: int| 0 <= x < accs@.len() implies #[trigger] accs@[x] == after_slot(
                    before(keys@[x]@),
                    slots[i as int],
                    keys@[x]@,
                    bytes,
                    end_ns,
                    (j + 1) as nat,
                ) by {
                    assert(old_accs[x] == after_slot(
                        before(keys@[x]@),
                        slots[i as int],
                        keys@[x]@,
                        bytes,
                        end_ns,
                        j as nat,
                    ));
                    if x != e {
                        assert(keys@[x]@ != keys@[e as int]@);
                    }
                }
            }
            j = j + 1;
        }
        proof {
            assert forall|x: int| 0 <= x < accs@.len() implies #[trigger] accs@[x] == after_msgs(
                start(keys@[x]@),
                slots,
                keys@[x]@,
                *culist,
                (i + 1) as nat,
            ) by {
                assert(slots[i as int].len() == slot@.len());
            }
        }
        i = i + 1;
    }
}

// ---------------------------------------------------------------------------
// Recordings
// ---------------------------------------------------------------------------

/// Adds the durations of one CopperList's steps.
fn record_stages(
    stages: &mut Vec<StageAccumulator>,
    ranges: &Vec<PackRange>,
    culist: &RecordedCopperList,
    Ghost(packs): Ghost<Seq<PackModel>>,
    Ghost(culists): Ghost<Seq<RecordedCopperList>>,
    Ghost(n): Ghost<nat>,
)
    requires
        n < culists.len(),
        culists[n as int] == *culist,
        ranges_of(ranges@) == pack_ranges(packs),
        pack_offset(packs, packs.len()) <= usize::MAX,
        stages_of(old(stages)@) == plan_stages(packs, culists, n),
    ensures
        stages_of(final(stages)@) == plan_stages(packs, culists, n + 1),
{
    let ghost before = stages_of(stages@);
    let mut i: usize = 0;
    assert(stages@.len() == before.len());
    assert(ranges@.len() == ranges_of(ranges@).len());
    while i < ranges.len()
        invariant
            i <= ranges@.len(),
            n < culists.len(),
            culists[n as int] == *culist,
            ranges_of(ranges@) == pack_ranges(packs),
            pack_offset(packs, packs.len()) <= usize::MAX,
            ranges@.len() == packs.len(),
            stages@.len() == packs.len(),
            before == plan_stages(packs, culists, n),
            forall|k: int| i <= k < stages@.len() ==> (#[trigger] stages@[k])@ == before[k],
            forall|k: int| 0 <= k < i ==> (#[trigger] stages@[k])@ == plan_stages(packs, culists, n + 1)[k],
        decreases ranges@.len() - i,
    {
        let ghost range = ranges@[i as int]@;
        proof {
            assert(range == pack_ranges(packs)[i as int]);
            lemma_pack_offset(packs, (i + 1) as nat, packs.len());
            assert(stages@[i as int]@ == before[i as int]);
        }
        if let Some(duration_ns) = sample_step_duration_ns(&culist.msgs, &ranges[i]) {
            stages[i].record_sample(duration_ns);
        }
        assert(stages@[i as int]@ == plan_stages(packs, culists, n + 1)[i as int]) by {
            assert(stages@[i as int]@.durations == step_durations(range, culists, n + 1));
        }
        i = i + 1;
    }
    assert(stages_of(stages@) =~= plan_stages(packs, culists, n + 1));
}

/// One accumulator per plan step.
fn build_stages(ranges: &Vec<PackRange>, Ghost(packs): Ghost<Seq<PackModel>>, Ghost(culists): Ghost<
    Seq<RecordedCopperList>,
>) -> (stages: Vec<StageAccumulator>)
    requires
        ranges_of(ranges@) == pack_ranges(packs),
    ensures
        stages_of(stages@) == plan_stages(packs, culists, 0),
{
    let mut stages: Vec<StageAccumulator> = Vec::new();
    let mut i: usize = 0;
    assert(ranges@.len() == ranges_of(ranges@).len());
    while i < ranges.len()
        invariant
            i <= ranges@.len(),
            ranges_of(ranges@) == pack_ranges(packs),
            ranges@.len() == packs.len(),
            stages@.len() == i,
            forall|k: int| 0 <= k < i ==> (#[trigger] stages@[k])@ == plan_stages(packs, culists, 0)[k],
        decreases ranges@.len() - i,
    {
        assert(ranges_of(ranges@)[i as int] == ranges@[i as int]@);
        stages.push(StageAccumulator::new(ranges[i].task.clone()));
        i = i + 1;
    }
    assert(stages_of(stages@) =~= plan_stages(packs, culists, 0));
    stages
}

/// The report of every connection.
fn finalize_edges(
    keys: &Vec<EdgeKey>,
    accs: &Vec<EdgeAccumulator>,
    Ghost(of): Ghost<spec_fn(EdgeModel) -> EdgeAccumulator>,
) -> (r: Vec<EdgeLogStats>)
    requires
        counts(keys@, accs@, of),
    ensures
        r@.len() == keys@.len(),
        forall|i: int| 0 <= i < r@.len() ==> of(keys_of(keys@)[i]).reported(keys_of(keys@)[i], #[trigger] r@[i]),
{
    let mut r: Vec<EdgeLogStats> = Vec::new();
    let mut i: usize = 0;
    while i < keys.len()
        invariant
            i <= keys@.len(),
            counts(keys@, accs@, of),
            r@.len() == i,
            forall|k: int| 0 <= k < i ==> of(keys_of(keys@)[k]).reported(keys_of(keys@)[k], #[trigger] r@[k]),
        decreases keys@.len() - i,
    {
        let key: EdgeKey = copy_key(&keys[i]);
        assert(accs@[i as int] == of(keys@[i as int]@));
        r.push(accs[i].finalize(key));
        i = i + 1;
    }
    r
}

/// Statistics of a recording of a mission that runs `plan`.
pub fn compute_logstats(
    graph: &CuGraph,
    mission: Option<&str>,
    plan: &CuExecutionLoop,
    culists: &Vec<RecordedCopperList>,
) -> (r: CuResult<LogStats>)
    requires
        output_packs(*plan, *graph) matches Some(packs) ==> pack_offset(packs, packs.len()) <= usize::MAX,
    ensures
        failure_text(r) == packs_failure(*plan, *graph),
        r matches Ok(stats) ==> stats.reports(
            *graph,
            match mission {
                Some(m) => Some(m@),
                None => None,
            },
            output_packs(*plan, *graph)->0,
            culists@,
        ),
{
    let config_signature: String = build_graph_signature(graph, mission);
    let packs: Vec<OutputPackInfo> = match collect_output_packs(plan, graph) {
        Ok(packs) => packs,
        Err(e) => {
            return Err(e);
        },
    };
    let ghost list = packs_of(packs@);
    let ranges: Vec<PackRange> = build_pack_ranges(&packs);
    let (keys, index) = build_edge_keys(graph);
    let lists: Vec<Vec<usize>> = build_output_slots(&packs, graph, &keys, &index);
    let ghost slots = output_slots(list, graph.edges@, list.len());
    let mut stages: Vec<StageAccumulator> = build_stages(&ranges, Ghost(list), Ghost(culists@));
    let mut accs: Vec<EdgeAccumulator> = Vec::new();
    while accs.len() < keys.len()
        invariant
            accs@.len() <= keys@.len(),
            forall|x: int| 0 <= x < accs@.len() ==> #[trigger] accs@[x] == EdgeAccumulator::empty(),
        decreases keys@.len() - accs@.len(),
    {
        accs.push(EdgeAccumulator::new());
    }
    let mut perf: PerfAccumulator = PerfAccumulator::new();
    let mut mismatch: Option<LengthMismatch> = None;
    let mut i: usize = 0;
    while i < culists.len()
        invariant
            i <= culists@.len(),
            all_distinct(keys@),
            slots_name(keys@, lists@, slots),
            ranges_of(ranges@) == pack_ranges(list),
            pack_offset(list, list.len()) <= usize::MAX,
            counts(keys@, accs@, |key: EdgeModel| edge_counts(slots, key, culists@, i as nat)),
            stages_of(stages@) == plan_stages(list, culists@, i as nat),
            perf@ == latencies(culists@, i as nat),
            mismatch == first_mismatch(slots.len(), culists@, i as nat),
        decreases culists@.len() - i,
    {
        let culist: &RecordedCopperList = &culists[i];
        if mismatch.is_none() && (culist.payload_raw_bytes.len() != culist.msgs.len() || culist.payload_raw_bytes.len()
            != lists.len()) {
            mismatch =
            Some(
                LengthMismatch {
                    sizes: culist.payload_raw_bytes.len(),
                    msgs: culist.msgs.len(),
                    slots: lists.len(),
                },
            );
        }
        let ghost start = |key: EdgeModel| edge_counts(slots, key, culists@, i as nat);
        record_edges(&mut accs, &keys, &lists, culist, Ghost(slots), Ghost(start));
        record_stages(&mut stages, &ranges, culist, Ghost(list), Ghost(culists@), Ghost(i as nat));
        perf.record_sample(compute_end_to_end_latency(&culist.msgs));
        i = i + 1;
    }
    let ghost of = |key: EdgeModel| edge_counts(slots, key, culists@, culists@.len());
    let edges: Vec<EdgeLogStats> = finalize_edges(&keys, &accs, Ghost(of));
    let pipeline: PipelineStats = finalize_pipeline(&stages);
    Ok(
        LogStats {
            schema_version: LOGSTATS_SCHEMA_VERSION,
            config_signature,
            mission: match mission {
                Some(m) => Some(m.to_owned()),
                None => None,
            },
            edges,
            perf: perf.finalize(),
            pipeline,
            mismatch,
        },
    )
}

// ---------------------------------------------------------------------------
// Laws
// ---------------------------------------------------------------------------

/// What a place of the CopperList holds: a message of that type from that
/// source.
pub struct Label {
    pub src: Seq<char>,
    pub msg: Seq<char>,
}

/// What the places of a CopperList hold, pack by pack.
pub open spec fn labels(packs: Seq<PackModel>) -> Seq<Label> {
    Seq::new(
        packs.len(),
        |p: int| Seq::new(packs[p].msg_types.len(), |t: int| Label { src: packs[p].src, msg: packs[p].msg_types[t] }),
    ).flatten()
}

/// Which connections carry what a place holds.
pub open spec fn carries(label: Label) -> spec_fn(CuConnection) -> bool {
    |cnx: CuConnection| cnx.src@ == label.src && cnx.msg@ == label.msg
}

/// What identifies a connection, as a function.
pub open spec fn identity() -> spec_fn(CuConnection) -> EdgeModel {
    |cnx: CuConnection| edge_model(cnx)
}

proof fn lemma_edges_of(edges: Seq<CuConnection>, label: Label, n: nat)
    requires
        n <= edges.len(),
    ensures
        edges_of(edges, label.src, label.msg, n) == edges.take(n as int).filter(carries(label)).map_values(identity()),
    decreases n,
{
    reveal(Seq::filter);
    let part = edges.take(n as int);
    if n > 0 {
        lemma_edges_of(edges, label, (n - 1) as nat);
        assert(part.drop_last() =~= edges.take(n - 1));
        let rest = edges.take(n - 1).filter(carries(label));
        assert(part.last() == edges[n - 1]);
        if carries(label)(edges[n - 1]) {
            assert(rest.push(edges[n - 1]).map_values(identity()) =~= rest.map_values(identity()).push(
                edge_model(edges[n - 1]),
            ));
        }
    } else {
        assert(part.filter(carries(label)).map_values(identity()) =~= Seq::<EdgeModel>::empty());
    }
}

proof fn lemma_slots(packs: Seq<PackModel>, edges: Seq<CuConnection>, n: nat)
    requires
        n <= packs.len(),
    ensures
        ({
            let list = labels(packs.take(n as int));
            let slots = output_slots(packs, edges, n);
            &&& slots.len() == list.len()
            &&& forall|s: int|
                0 <= s < slots.len() ==> #[trigger] slots[s] == edges_of(edges, list[s].src, list[s].msg, edges.len())
        }),
    decreases n,
{
    let part = packs.take(n as int);
    let rows = Seq::new(
        part.len(),
        |p: int| Seq::new(part[p].msg_types.len(), |t: int| Label { src: part[p].src, msg: part[p].msg_types[t] }),
    );
    if n > 0 {
        lemma_slots(packs, edges, (n - 1) as nat);
        let less = packs.take(n - 1);
        let fewer = Seq::new(
            less.len(),
            |p: int| Seq::new(less[p].msg_types.len(), |t: int| Label { src: less[p].src, msg: less[p].msg_types[t] }),
        );
        assert forall|p: int| 0 <= p < fewer.len() implies #[trigger] fewer[p] == rows[p] by {
            assert(fewer[p] =~= rows[p]);
        }
        assert(rows =~= fewer.push(rows[n - 1]));
        fewer.lemma_flatten_push(rows[n - 1]);
    } else {
        assert(rows =~= Seq::<Seq<Label>>::empty());
    }
}

/// Each place of a CopperList is counted on every connection that carries what
/// it holds, and on no other, however many connections share it.
pub proof fn places_count_on_every_connection(packs: Seq<PackModel>, edges: Seq<CuConnection>)
    ensures
        output_slots(packs, edges, packs.len()).len() == labels(packs).len(),
        forall|s: int|
            0 <= s < labels(packs).len() ==> #[trigger] output_slots(packs, edges, packs.len())[s] == edges.filter(
                carries(labels(packs)[s]),
            ).map_values(identity()),
{
    lemma_slots(packs, edges, packs.len());
    assert(packs.take(packs.len() as int) =~= packs);
    assert(edges.take(edges.len() as int) =~= edges);
    let slots = output_slots(packs, edges, packs.len());
    assert forall|s: int| 0 <= s < labels(packs).len() implies #[trigger] slots[s] == edges.filter(
        carries(labels(packs)[s]),
    ).map_values(identity()) by {
        lemma_edges_of(edges, labels(packs)[s], edges.len());
    }
}

/// The reported connections are those of the graph, each once.
pub proof fn reported_connections_are_distinct(edges: Seq<CuConnection>, n: nat)
    requires
        n <= edges.len(),
    ensures
        distinct_edges(edges, n).no_duplicates(),
        forall|k: int| 0 <= k < n ==> distinct_edges(edges, n).contains(edge_model(#[trigger] edges[k])),
        forall|i: int|
            0 <= i < distinct_edges(edges, n).len() ==> exists|k: int|
                0 <= k < n && edge_model(#[trigger] edges[k]) == #[trigger] distinct_edges(edges, n)[i],
    decreases n,
{
    if n > 0 {
        reported_connections_are_distinct(edges, (n - 1) as nat);
        let rest = distinct_edges(edges, (n - 1) as nat);
        let all = distinct_edges(edges, n);
        assert forall|k: int| 0 <= k < n implies all.contains(edge_model(#[trigger] edges[k])) by {
            if rest.contains(edge_model(edges[k])) {
                let i = rest.index_of(edge_model(edges[k]));
                assert(all[i] == edge_model(edges[k]));
            } else {
                assert(all[rest.len() as int] == edge_model(edges[k]));
            }
        }
        assert forall|i: int| 0 <= i < all.len() implies exists|k: int|
            0 <= k < n && edge_model(#[trigger] edges[k]) == #[trigger] all[i] by {
            if i < rest.len() {
                assert(rest[i] == all[i]);
                let k = choose|k: int| 0 <= k < n - 1 && edge_model(#[trigger] edges[k]) == rest[i];
                assert(edge_model(edges[k]) == all[i]);
            } else {
                assert(edge_model(edges[n - 1]) == all[i]);
            }
        }
    }
}

/// What is recorded of a message: the size of its payload and when it ended.
pub struct Travel {
    pub bytes: Option<u64>,
    pub end_ns: Option<u64>,
}

/// The messages of one CopperList at places that hold what `label` says.
pub open spec fn travels(list: Seq<Label>, label: Label, culist: RecordedCopperList, n: nat) -> Seq<Travel> {
    Seq::new(n, |s: int| s).filter(|s: int| list[s] == label).map_values(
        |s: int| Travel { bytes: culist.payload_raw_bytes@[s], end_ns: culist.msgs@[s].end_ns },
    )
}

/// The messages of all CopperLists at places that hold what `label` says.
pub open spec fn all_travels(list: Seq<Label>, label: Label, culists: Seq<RecordedCopperList>) -> Seq<Travel> {
    Seq::new(culists.len(), |c: int| travels(list, label, culists[c], recorded_places(list, culists[c]))).flatten()
}

/// How many places of a CopperList the plan and both lists of the recording
/// know.
pub open spec fn recorded_places(list: Seq<Label>, culist: RecordedCopperList) -> nat {
    vstd::math::min(
        list.len() as int,
        vstd::math::min(culist.payload_raw_bytes@.len() as int, culist.msgs@.len() as int),
    ) as nat
}

/// Two connections are the same exactly when they have the same ends, channels
/// and message type.
pub proof fn connections_are_told_apart(a: CuConnection, b: CuConnection)
    ensures
        edge_model(a) == edge_model(b) <==> {
            &&& a.src@ == b.src@
            &&& a.dst@ == b.dst@
            &&& a.msg@ == b.msg@
            &&& maybe_text(a.src_channel) == maybe_text(b.src_channel)
            &&& maybe_text(a.dst_channel) == maybe_text(b.dst_channel)
        },
{
}

/// The counts of a connection after these messages.
spec fn tally(acc: EdgeAccumulator, list: Seq<Travel>) -> EdgeAccumulator
    decreases list.len(),
{
    if list.len() == 0 {
        acc
    } else {
        tally(acc, list.drop_last()).recorded(list.last().bytes, list.last().end_ns)
    }
}

proof fn lemma_tally_add(acc: EdgeAccumulator, a: Seq<Travel>, b: Seq<Travel>)
    ensures
        tally(acc, a + b) == tally(tally(acc, a), b),
    decreases b.len(),
{
    if b.len() == 0 {
        assert(a + b =~= a);
    } else {
        lemma_tally_add(acc, a, b.drop_last());
        assert((a + b).drop_last() =~= a + b.drop_last());
    }
}

/// How often a key is listed in a slot is how often it counts a message.
proof fn lemma_after_slot_none(acc: EdgeAccumulator, slot: Seq<EdgeModel>, key: EdgeModel, bytes: Option<u64>, end_ns: Option<u64>, n: nat)
    requires
        n <= slot.len(),
        forall|i: int| 0 <= i < n ==> #[trigger] slot[i] != key,
    ensures
        after_slot(acc, slot, key, bytes, end_ns, n) == acc,
    decreases n,
{
    if n > 0 {
        lemma_after_slot_none(acc, slot, key, bytes, end_ns, (n - 1) as nat);
    }
}

proof fn lemma_after_slot_once(
    acc: EdgeAccumulator,
    slot: Seq<EdgeModel>,
    key: EdgeModel,
    bytes: Option<u64>,
    end_ns: Option<u64>,
    at: int,
    n: nat,
)
    requires
        0 <= at < n <= slot.len(),
        forall|i: int| 0 <= i < n ==> (#[trigger] slot[i] == key <==> i == at),
    ensures
        after_slot(acc, slot, key, bytes, end_ns, n) == acc.recorded(bytes, end_ns),
    decreases n,
{
    if at < n - 1 {
        lemma_after_slot_once(acc, slot, key, bytes, end_ns, at, (n - 1) as nat);
        assert(slot[n - 1] != key);
    } else {
        lemma_after_slot_none(acc, slot, key, bytes, end_ns, (n - 1) as nat);
    }
}

/// Whether the graph lists a connection once.
pub open spec fn listed_once(edges: Seq<CuConnection>, e: int) -> bool {
    0 <= e < edges.len() && forall|k: int|
        0 <= k < edges.len() && edge_model(#[trigger] edges[k]) == edge_model(edges[e]) ==> k == e
}

/// A connection that the graph lists once stands once in the slots that it
/// carries, and in no other.
proof fn lemma_slot_lists_once(edges: Seq<CuConnection>, e: int, label: Label, n: nat) -> (at: int)
    requires
        listed_once(edges, e),
        n <= edges.len(),
    ensures
        ({
            let slot = edges_of(edges, label.src, label.msg, n);
            let key = edge_model(edges[e]);
            if e < n && key.src == label.src && key.msg == label.msg {
                0 <= at < slot.len() && forall|i: int| 0 <= i < slot.len() ==> (#[trigger] slot[i] == key <==> i == at)
            } else {
                forall|i: int| 0 <= i < slot.len() ==> #[trigger] slot[i] != key
            }
        }),
    decreases n,
{
    if n == 0 {
        0
    } else {
        let before = lemma_slot_lists_once(edges, e, label, (n - 1) as nat);
        let rest = edges_of(edges, label.src, label.msg, (n - 1) as nat);
        if n - 1 == e {
            rest.len() as int
        } else {
            assert(edge_model(edges[n - 1]) != edge_model(edges[e]));
            before
        }
    }
}

proof fn lemma_travels_step(list: Seq<Label>, label: Label, culist: RecordedCopperList, n: nat)
    ensures
        travels(list, label, culist, n + 1) == (if list[n as int] == label {
            travels(list, label, culist, n).push(
                Travel { bytes: culist.payload_raw_bytes@[n as int], end_ns: culist.msgs@[n as int].end_ns },
            )
        } else {
            travels(list, label, culist, n)
        }),
        travels(list, label, culist, 0) == Seq::<Travel>::empty(),
{
    reveal(Seq::filter);
    let pick = |s: int| list[s] == label;
    let show = |s: int| Travel { bytes: culist.payload_raw_bytes@[s], end_ns: culist.msgs@[s].end_ns };
    let all = Seq::new(n + 1, |s: int| s);
    let part = Seq::new(n, |s: int| s);
    assert(all.drop_last() =~= part);
    assert(all.last() == n);
    let rest = part.filter(pick);
    if list[n as int] == label {
        assert(rest.push(n as int).map_values(show) =~= rest.map_values(show).push(show(n as int)));
    }
    assert(travels(list, label, culist, 0) =~= Seq::<Travel>::empty());
}

proof fn lemma_after_msgs(
    acc: EdgeAccumulator,
    packs: Seq<PackModel>,
    edges: Seq<CuConnection>,
    e: int,
    culist: RecordedCopperList,
    n: nat,
)
    requires
        listed_once(edges, e),
        n <= labels(packs).len(),
    ensures
        after_msgs(acc, output_slots(packs, edges, packs.len()), edge_model(edges[e]), culist, n) == tally(
            acc,
            travels(labels(packs), Label { src: edges[e].src@, msg: edges[e].msg@ }, culist, n),
        ),
    decreases n,
{
    let list = labels(packs);
    let label = Label { src: edges[e].src@, msg: edges[e].msg@ };
    let key = edge_model(edges[e]);
    let slots = output_slots(packs, edges, packs.len());
    if n == 0 {
        lemma_travels_step(list, label, culist, 0);
    } else {
        lemma_after_msgs(acc, packs, edges, e, culist, (n - 1) as nat);
        lemma_travels_step(list, label, culist, (n - 1) as nat);
        lemma_slots(packs, edges, packs.len());
        assert(packs.take(packs.len() as int) =~= packs);
        let slot = slots[n - 1];
        let before = after_msgs(acc, slots, key, culist, (n - 1) as nat);
        let bytes = culist.payload_raw_bytes@[n - 1];
        let end_ns = culist.msgs@[n - 1].end_ns;
        let at = lemma_slot_lists_once(edges, e, list[n - 1], edges.len());
        let shorter = travels(list, label, culist, (n - 1) as nat);
        if list[n - 1] == label {
            lemma_after_slot_once(before, slot, key, bytes, end_ns, at, slot.len());
            let longer = travels(list, label, culist, n);
            assert(longer.drop_last() =~= shorter);
        } else {
            lemma_after_slot_none(before, slot, key, bytes, end_ns, slot.len());
        }
    }
}

proof fn lemma_edge_counts(packs: Seq<PackModel>, edges: Seq<CuConnection>, e: int, culists: Seq<RecordedCopperList>, n: nat)
    requires
        listed_once(edges, e),
        n <= culists.len(),
    ensures
        edge_counts(output_slots(packs, edges, packs.len()), edge_model(edges[e]), culists, n) == tally(
            EdgeAccumulator::empty(),
            all_travels(labels(packs), Label { src: edges[e].src@, msg: edges[e].msg@ }, culists.take(n as int)),
        ),
    decreases n,
{
    let list = labels(packs);
    let label = Label { src: edges[e].src@, msg: edges[e].msg@ };
    let slots = output_slots(packs, edges, packs.len());
    let part = culists.take(n as int);
    let rows = Seq::new(part.len(), |c: int| travels(list, label, part[c], recorded_places(list, part[c])));
    places_count_on_every_connection(packs, edges);
    if n == 0 {
        assert(rows =~= Seq::<Seq<Travel>>::empty());
    } else {
        lemma_edge_counts(packs, edges, e, culists, (n - 1) as nat);
        let less = culists.take(n - 1);
        let fewer = Seq::new(less.len(), |c: int| travels(list, label, less[c], recorded_places(list, less[c])));
        assert(rows =~= fewer.push(rows[n - 1]));
        fewer.lemma_flatten_push(rows[n - 1]);
        lemma_after_msgs(
            edge_counts(slots, edge_model(edges[e]), culists, (n - 1) as nat),
            packs,
            edges,
            e,
            culists[n - 1],
            counted(slots.len(), culists[n - 1]),
        );
        lemma_tally_add(EdgeAccumulator::empty(), fewer.flatten(), rows[n - 1]);
    }
}

/// A count, held at the largest number.
pub open spec fn capped(n: nat) -> u64 {
    if n > u64::MAX {
        u64::MAX
    } else {
        n as u64
    }
}

/// The payload sizes of messages, nothing for those without a payload.
pub open spec fn sizes_of(list: Seq<Travel>) -> Seq<nat> {
    Seq::new(
        list.len(),
        |i: int|
            match list[i].bytes {
                Some(bytes) => bytes as nat,
                None => 0,
            },
    )
}

/// Those messages that carry no payload.
pub open spec fn without_payload(list: Seq<Travel>) -> Seq<Travel> {
    list.filter(|t: Travel| t.bytes is None)
}

/// Those messages that have an end time.
pub open spec fn with_end(list: Seq<Travel>) -> Seq<Travel> {
    list.filter(|t: Travel| t.end_ns is Some)
}

proof fn lemma_tally(list: Seq<Travel>)
    ensures
        ({
            let acc = tally(EdgeAccumulator::empty(), list);
            &&& acc.samples == capped(list.len())
            &&& acc.none_samples == capped(without_payload(list).len())
            &&& acc.valid_time_samples == capped(with_end(list).len())
            &&& acc.total_raw_bytes == capped(sum(sizes_of(list)))
            &&& acc.min_end_ns is Some <==> with_end(list).len() > 0
            &&& acc.max_end_ns is Some <==> with_end(list).len() > 0
            &&& forall|i: int|
                0 <= i < list.len() && (#[trigger] list[i]).end_ns is Some ==> acc.min_end_ns is Some
                    && acc.max_end_ns is Some && acc.min_end_ns->0 <= list[i].end_ns->0 <= acc.max_end_ns->0
            &&& acc.min_end_ns is Some ==> exists|i: int|
                0 <= i < list.len() && (#[trigger] list[i]).end_ns == acc.min_end_ns
            &&& acc.max_end_ns is Some ==> exists|i: int|
                0 <= i < list.len() && (#[trigger] list[i]).end_ns == acc.max_end_ns
        }),
    decreases list.len(),
{
    reveal(Seq::filter);
    let acc = tally(EdgeAccumulator::empty(), list);
    if list.len() == 0 {
        assert(sizes_of(list) =~= Seq::<nat>::empty());
        lemma_sum_empty();
    } else {
        let rest = list.drop_last();
        lemma_tally(rest);
        let before = tally(EdgeAccumulator::empty(), rest);
        assert(sizes_of(list) =~= sizes_of(rest).push(sizes_of(list).last()));
        lemma_sum_push(sizes_of(rest), sizes_of(list).last());
        assert forall|i: int| 0 <= i < list.len() && (#[trigger] list[i]).end_ns is Some implies acc.min_end_ns is Some
            && acc.max_end_ns is Some && acc.min_end_ns->0 <= list[i].end_ns->0 <= acc.max_end_ns->0 by {
            if i < rest.len() {
                assert(rest[i].end_ns is Some);
            }
        }
        let n = rest.len() as int;
        if acc.min_end_ns is Some {
            if acc.min_end_ns == list[n].end_ns {
            } else {
                let i = choose|i: int| 0 <= i < rest.len() && (#[trigger] rest[i]).end_ns == before.min_end_ns;
                assert(list[i].end_ns == acc.min_end_ns);
            }
        }
        if acc.max_end_ns is Some {
            if acc.max_end_ns == list[n].end_ns {
            } else {
                let i = choose|i: int| 0 <= i < rest.len() && (#[trigger] rest[i]).end_ns == before.max_end_ns;
                assert(list[i].end_ns == acc.max_end_ns);
            }
        }
    }
}

/// Whether a report counts these messages: how many there are, how many carry
/// no payload, how many have an end time, and how many bytes they carry
/// together. The mean is over those with a payload; the rates are over the time
/// from the first to the last of those with an end.
pub open spec fn counts_messages(r: EdgeLogStats, list: Seq<Travel>) -> bool {
    &&& r.samples == capped(list.len())
    &&& r.none_samples == capped(without_payload(list).len())
    &&& r.valid_time_samples == capped(with_end(list).len())
    &&& r.total_raw_bytes == capped(sum(sizes_of(list)))
    &&& r.avg_raw_bytes is Some <==> r.samples > r.none_samples
    &&& r.avg_raw_bytes matches Some(mean) ==> mean.num == r.total_raw_bytes && mean.den == r.samples - r.none_samples
    &&& r.rate_hz is Some <==> r.valid_time_samples >= 2 && exists|a: int, b: int| #[trigger] earlier(list, a, b)
    &&& r.throughput_bytes_per_sec is Some <==> r.rate_hz is Some
    &&& forall|a: int, b: int| #[trigger]
        bounds(list, a, b) && r.rate_hz is Some ==> {
            let span = (list[b].end_ns->0 - list[a].end_ns->0) as u128;
            &&& r.rate_hz == Some(Ratio { num: ((r.valid_time_samples - 1) * 1_000_000_000) as u128, den: span })
            &&& r.throughput_bytes_per_sec == Some(
                Ratio { num: (r.total_raw_bytes * 1_000_000_000) as u128, den: span },
            )
        }
}

/// Whether message `a` ended before message `b`.
pub open spec fn earlier(list: Seq<Travel>, a: int, b: int) -> bool {
    &&& 0 <= a < list.len()
    &&& 0 <= b < list.len()
    &&& list[a].end_ns matches Some(x) && list[b].end_ns matches Some(y) && x < y
}

/// Whether no message ended before message `a` or after message `b`.
pub open spec fn bounds(list: Seq<Travel>, a: int, b: int) -> bool {
    &&& 0 <= a < list.len()
    &&& 0 <= b < list.len()
    &&& list[a].end_ns is Some
    &&& list[b].end_ns is Some
    &&& forall|k: int|
        0 <= k < list.len() && (#[trigger] list[k]).end_ns is Some ==> list[a].end_ns->0 <= list[k].end_ns->0
            <= list[b].end_ns->0
}

proof fn lemma_reported_tally(list: Seq<Travel>, key: EdgeModel, r: EdgeLogStats)
    requires
        tally(EdgeAccumulator::empty(), list).reported(key, r),
    ensures
        counts_messages(r, list),
{
    lemma_tally(list);
    let acc = tally(EdgeAccumulator::empty(), list);
    if r.rate_hz is Some {
        let a = choose|a: int| 0 <= a < list.len() && (#[trigger] list[a]).end_ns == acc.min_end_ns;
        let b = choose|b: int| 0 <= b < list.len() && (#[trigger] list[b]).end_ns == acc.max_end_ns;
        assert(earlier(list, a, b));
    }
    if exists|a: int, b: int| #[trigger] earlier(list, a, b) {
        let (a, b) = choose|a: int, b: int| #[trigger] earlier(list, a, b);
        assert(list[a].end_ns is Some && list[b].end_ns is Some);
    }
    assert forall|a: int, b: int| #[trigger] bounds(list, a, b) implies list[a].end_ns == acc.min_end_ns
        && list[b].end_ns == acc.max_end_ns by {
        let x = choose|x: int| 0 <= x < list.len() && (#[trigger] list[x]).end_ns == acc.min_end_ns;
        let y = choose|y: int| 0 <= y < list.len() && (#[trigger] list[y]).end_ns == acc.max_end_ns;
        assert(list[a].end_ns is Some && list[b].end_ns is Some);
        assert(list[x].end_ns is Some && list[y].end_ns is Some);
    }
}

/// The report of a connection that the graph lists once counts every recorded
/// message of its source and type, whatever other connections share them.
pub proof fn connections_count_their_messages(
    stats: LogStats,
    graph: CuGraph,
    mission: Option<Seq<char>>,
    packs: Seq<PackModel>,
    culists: Seq<RecordedCopperList>,
    e: int,
) -> (i: int)
    requires
        stats.reports(graph, mission, packs, culists),
        listed_once(graph.edges@, e),
    ensures
        0 <= i < stats.edges@.len(),
        stats.edges@[i].key@ == edge_model(graph.edges@[e]),
        forall|j: int| 0 <= j < stats.edges@.len() && j != i ==> (#[trigger] stats.edges@[j]).key@ != stats.edges@[i].key@,
        counts_messages(
            stats.edges@[i],
            all_travels(labels(packs), Label { src: graph.edges@[e].src@, msg: graph.edges@[e].msg@ }, culists),
        ),
{
    let edges = graph.edges@;
    let keys = distinct_edges(edges, edges.len());
    let key = edge_model(edges[e]);
    let slots = output_slots(packs, edges, packs.len());
    let list = all_travels(labels(packs), Label { src: edges[e].src@, msg: edges[e].msg@ }, culists);
    reported_connections_are_distinct(edges, edges.len());
    assert(keys.contains(edge_model(edges[e])));
    let i = keys.index_of(key);
    lemma_edge_counts(packs, edges, e, culists, culists.len());
    assert(culists.take(culists.len() as int) =~= culists);
    let r = stats.edges@[i];
    assert(edge_counts(slots, keys[i], culists, culists.len()).reported(keys[i], r));
    lemma_reported_tally(list, key, r);
    assert forall|j: int| 0 <= j < stats.edges@.len() && j != i implies (#[trigger] stats.edges@[j]).key@ != r.key@ by {
        assert(edge_counts(slots, keys[j], culists, culists.len()).reported(keys[j], stats.edges@[j]));
        assert(keys[j] != keys[i]);
    }
    i
}

/// A node's name is the id of the first node with that number.
pub proof fn nodes_are_named_by_the_first(nodes: Seq<GraphNode>, id: NodeId, n: nat)
    requires
        n <= nodes.len(),
    ensures
        match node_name(nodes, id, n) {
            Some(name) => exists|k: int|
                0 <= k < n && (#[trigger] nodes[k]).node_id == id && nodes[k].id@ == name && forall|j: int|
                    0 <= j < k ==> (#[trigger] nodes[j]).node_id != id,
            None => forall|k: int| 0 <= k < n ==> (#[trigger] nodes[k]).node_id != id,
        },
    decreases n,
{
    if n > 0 {
        nodes_are_named_by_the_first(nodes, id, (n - 1) as nat);
        let rest = node_name(nodes, id, (n - 1) as nat);
        if rest is Some {
            let k = choose|k: int|
                0 <= k < n - 1 && (#[trigger] nodes[k]).node_id == id && nodes[k].id@ == rest->0 && forall|j: int|
                    0 <= j < k ==> (#[trigger] nodes[j]).node_id != id;
            assert(nodes[k].node_id == id);
        } else if nodes[n - 1].node_id == id {
            assert(nodes[n - 1].id@ == node_name(nodes, id, n)->0);
        }
    }
}

/// The packs of a loop are those of its units, one after the other, where a
/// nested loop counts as its units; they are all known exactly when those of
/// each unit are.
pub proof fn packs_follow_the_units(l: CuExecutionLoop, nodes: Seq<GraphNode>, n: nat)
    requires
        n <= l.steps@.len(),
    ensures
        loop_packs(l, nodes, n) is Some <==> forall|i: int|
            0 <= i < n ==> unit_packs(#[trigger] l.steps@[i], nodes) is Some,
        loop_packs(l, nodes, n) matches Some(packs) ==> packs == Seq::new(
            n,
            |i: int| unit_packs(l.steps@[i], nodes)->0,
        ).flatten(),
        forall|inner: CuExecutionLoop| #[trigger]
            unit_packs(CuExecutionUnit::Loop(inner), nodes) == loop_packs(inner, nodes, inner.steps@.len()),
    decreases n,
{
    let rows = Seq::new(n, |i: int| unit_packs(l.steps@[i], nodes)->0);
    if n == 0 {
        assert(rows =~= Seq::<Seq<PackModel>>::empty());
    } else {
        packs_follow_the_units(l, nodes, (n - 1) as nat);
        let fewer = Seq::new((n - 1) as nat, |i: int| unit_packs(l.steps@[i], nodes)->0);
        assert(rows =~= fewer.push(rows[n - 1]));
        fewer.lemma_flatten_push(rows[n - 1]);
    }
}

/// A step that writes messages has one pack: its place, its node's name and the
/// types of its messages. One that writes none has no pack.
pub proof fn steps_write_one_pack(step: CuExecutionStep, nodes: Seq<GraphNode>)
    ensures
        step.output_msg_pack is None ==> unit_packs(CuExecutionUnit::Step(step), nodes) == Some(
            Seq::<PackModel>::empty(),
        ),
        step.output_msg_pack matches Some(pack) ==> match unit_packs(CuExecutionUnit::Step(step), nodes) {
            Some(packs) => {
                &&& packs.len() == 1
                &&& packs[0].culist_index == pack.culist_index
                &&& Some(packs[0].src) == node_name(nodes, step.node_id, nodes.len())
                &&& packs[0].msg_types.len() == pack.msg_types@.len()
                &&& forall|t: int| 0 <= t < packs[0].msg_types.len() ==> #[trigger] packs[0].msg_types[t] == pack.msg_types@[t]@
            },
            None => node_name(nodes, step.node_id, nodes.len()) is None,
        },
{
}

/// A step owns the places of the messages that it writes.
pub proof fn ranges_own_their_labels(packs: Seq<PackModel>, p: int, t: int)
    requires
        0 <= p < packs.len(),
        0 <= t < packs[p].msg_types.len(),
    ensures
        pack_ranges(packs)[p].start + t < labels(packs).len(),
        labels(packs)[pack_ranges(packs)[p].start + t] == (Label { src: packs[p].src, msg: packs[p].msg_types[t] }),
{
    lemma_label_at(packs, packs.len(), p, t);
    assert(packs.take(packs.len() as int) =~= packs);
}

proof fn lemma_label_at(packs: Seq<PackModel>, n: nat, p: int, t: int)
    requires
        n <= packs.len(),
    ensures
        labels(packs.take(n as int)).len() == pack_offset(packs, n),
        0 <= p < n && 0 <= t < packs[p].msg_types.len() ==> pack_offset(packs, p as nat) + t < pack_offset(packs, n)
            && labels(packs.take(n as int))[pack_offset(packs, p as nat) + t] == (Label {
            src: packs[p].src,
            msg: packs[p].msg_types[t],
        }),
    decreases n,
{
    let part = packs.take(n as int);
    let rows = Seq::new(
        part.len(),
        |p: int| Seq::new(part[p].msg_types.len(), |t: int| Label { src: part[p].src, msg: part[p].msg_types[t] }),
    );
    if n > 0 {
        lemma_label_at(packs, (n - 1) as nat, p, t);
        let less = packs.take(n - 1);
        let fewer = Seq::new(
            less.len(),
            |p: int| Seq::new(less[p].msg_types.len(), |t: int| Label { src: less[p].src, msg: less[p].msg_types[t] }),
        );
        assert forall|p: int| 0 <= p < fewer.len() implies #[trigger] fewer[p] == rows[p] by {
            assert(fewer[p] =~= rows[p]);
        }
        assert(rows =~= fewer.push(rows[n - 1]));
        fewer.lemma_flatten_push(rows[n - 1]);
    } else {
        assert(rows =~= Seq::<Seq<Label>>::empty());
    }
}

/// What a step took in a CopperList, as a function.
pub open spec fn duration_in(range: RangeModel) -> spec_fn(RecordedCopperList) -> Option<u64> {
    |culist: RecordedCopperList| step_duration(culist.msgs@, range)
}

/// What a CopperList took, as a function.
pub open spec fn latency_in() -> spec_fn(RecordedCopperList) -> Option<u64> {
    |culist: RecordedCopperList| end_to_end(culist.msgs@)
}

proof fn lemma_step_durations(range: RangeModel, culists: Seq<RecordedCopperList>, n: nat)
    requires
        n <= culists.len(),
    ensures
        step_durations(range, culists, n) == culists.take(n as int).filter_map(duration_in(range)),
    decreases n,
{
    let part = culists.take(n as int);
    if n > 0 {
        lemma_step_durations(range, culists, (n - 1) as nat);
        assert(part.drop_last() =~= culists.take(n - 1));
        if step_duration(culists[n - 1].msgs@, range) is Some {
            assert(step_durations(range, culists, n) =~= culists.take(n - 1).filter_map(duration_in(range))
                + seq![step_duration(culists[n - 1].msgs@, range)->0]);
        }
    }
}

proof fn lemma_latencies(culists: Seq<RecordedCopperList>, n: nat)
    requires
        n <= culists.len(),
    ensures
        latencies(culists, n).samples == capped(n),
        latencies(culists, n).durations == culists.take(n as int).filter_map(latency_in()),
        latencies(culists, n).valid_time_samples == capped(latencies(culists, n).durations.len()),
    decreases n,
{
    let part = culists.take(n as int);
    if n > 0 {
        lemma_latencies(culists, (n - 1) as nat);
        assert(part.drop_last() =~= culists.take(n - 1));
        if end_to_end(culists[n - 1].msgs@) is Some {
            assert(latencies(culists, n).durations =~= culists.take(n - 1).filter_map(latency_in())
                + seq![end_to_end(culists[n - 1].msgs@)->0]);
        }
    }
}

/// The statistics tell of every CopperList of the recording: the end-to-end
/// latencies of those that have one, in order, and of each plan step how long
/// it took in those where that is known.
pub proof fn every_copperlist_is_told_of(
    stats: LogStats,
    graph: CuGraph,
    mission: Option<Seq<char>>,
    packs: Seq<PackModel>,
    culists: Seq<RecordedCopperList>,
)
    requires
        stats.reports(graph, mission, packs, culists),
        packs.len() <= usize::MAX,
    ensures
        stats.perf.samples == capped(culists.len()),
        stats.perf.valid_time_samples == capped(culists.filter_map(latency_in()).len()),
        stats.perf.end_to_end == duration_stats(culists.filter_map(latency_in())),
        stats.perf.jitter == duration_stats(steps(culists.filter_map(latency_in()))),
        stats.pipeline.stages@.len() == packs.len(),
        forall|i: int|
            0 <= i < packs.len() ==> {
                let durations = culists.filter_map(duration_in(pack_ranges(packs)[i]));
                &&& (#[trigger] stats.pipeline.stages@[i]).task@ == packs[i].src
                &&& stats.pipeline.stages@[i].index == i
                &&& stats.pipeline.stages@[i].samples == durations.len()
                &&& stats.pipeline.stages@[i].duration == duration_stats(durations)
            },
{
    let n = culists.len();
    assert(culists.take(n as int) =~= culists);
    lemma_latencies(culists, n);
    let stages = plan_stages(packs, culists, n);
    assert forall|i: int| 0 <= i < packs.len() implies {
        let durations = culists.filter_map(duration_in(pack_ranges(packs)[i]));
        &&& (#[trigger] stats.pipeline.stages@[i]).task@ == packs[i].src
        &&& stats.pipeline.stages@[i].index == i
        &&& stats.pipeline.stages@[i].samples == durations.len()
        &&& stats.pipeline.stages@[i].duration == duration_stats(durations)
    } by {
        lemma_step_durations(pack_ranges(packs)[i], culists, n);
        stages_are_reported_in_plan_order(stages, stats.pipeline, i);
    }
}

/// The mismatch that is told of is that of the first CopperList whose lists do
/// not fit its plan; without one, all fit.
pub proof fn the_first_mismatch_is_told(slots: nat, culists: Seq<RecordedCopperList>, n: nat)
    requires
        n <= culists.len(),
        slots <= usize::MAX,
    ensures
        match first_mismatch(slots, culists, n) {
            Some(m) => m.slots == slots && exists|c: int|
                0 <= c < n && !fits_plan(slots, #[trigger] culists[c]) && m.sizes == culists[c].payload_raw_bytes@.len()
                    && m.msgs == culists[c].msgs@.len() && forall|b: int|
                    0 <= b < c ==> fits_plan(slots, #[trigger] culists[b]),
            None => forall|c: int| 0 <= c < n ==> fits_plan(slots, #[trigger] culists[c]),
        },
    decreases n,
{
    if n > 0 {
        the_first_mismatch_is_told(slots, culists, (n - 1) as nat);
        let rest = first_mismatch(slots, culists, (n - 1) as nat);
        if rest is Some {
            let m = rest->0;
            let c = choose|c: int|
                0 <= c < n - 1 && !fits_plan(slots, #[trigger] culists[c]) && m.sizes
                    == culists[c].payload_raw_bytes@.len() && m.msgs == culists[c].msgs@.len() && forall|b: int|
                    0 <= b < c ==> fits_plan(slots, #[trigger] culists[b]);
            assert(!fits_plan(slots, culists[c]));
        } else {
            let last = culists[n - 1];
            assert(last.payload_raw_bytes@.len() == last.payload_raw_bytes.len());
            assert(last.msgs@.len() == last.msgs.len());
            if !fits_plan(slots, last) {
                assert(!fits_plan(slots, culists[n - 1]));
            }
        }
    }
}

/// Whether both lists of a recorded CopperList are as long as its plan says.
pub open spec fn fits_plan(slots: nat, culist: RecordedCopperList) -> bool {
    culist.payload_raw_bytes@.len() == slots && culist.msgs@.len() == slots
}

/// Packs of that place.
pub open spec fn at_place(place: u32) -> spec_fn(PackModel) -> bool {
    |pack: PackModel| pack.culist_index == place
}

proof fn lemma_insert_pack_filter(list: Seq<PackModel>, pack: PackModel, place: u32)
    ensures
        insert_pack(list, pack).filter(at_place(place)) == (if pack.culist_index == place {
            list.filter(at_place(place)).push(pack)
        } else {
            list.filter(at_place(place))
        }),
    decreases list.len(),
{
    reveal(Seq::filter);
    if list.len() == 0 || pack.culist_index >= list.last().culist_index {
        assert(list.push(pack).drop_last() =~= list);
    } else {
        let rest = list.drop_last();
        lemma_insert_pack_filter(rest, pack, place);
        let out = insert_pack(rest, pack);
        assert(out.push(list.last()).drop_last() =~= out);
    }
}

/// Packs of the same place stay in the order of the plan.
pub proof fn packs_of_a_place_keep_their_order(list: Seq<PackModel>, place: u32)
    ensures
        sort_packs(list).filter(at_place(place)) == list.filter(at_place(place)),
    decreases list.len(),
{
    reveal(Seq::filter);
    if list.len() > 0 {
        packs_of_a_place_keep_their_order(list.drop_last(), place);
        lemma_insert_pack_filter(sort_packs(list.drop_last()), list.last(), place);
    }
}

/// Whether connection `x` comes before any connection `y` among the first `n`.
pub open spec fn comes_first(edges: Seq<CuConnection>, n: nat, x: EdgeModel, y: EdgeModel) -> bool {
    exists|k: int|
        0 <= k < n && edge_model(#[trigger] edges[k]) == x && forall|l: int|
            0 <= l <= k ==> edge_model(#[trigger] edges[l]) != y
}

/// Connections are reported in the order in which the graph lists them first.
pub proof fn connections_are_reported_in_listing_order(edges: Seq<CuConnection>, n: nat, i: int, j: int)
    requires
        n <= edges.len(),
        0 <= i < j < distinct_edges(edges, n).len(),
    ensures
        comes_first(edges, n, distinct_edges(edges, n)[i], distinct_edges(edges, n)[j]),
    decreases n,
{
    if n > 0 {
        let m = (n - 1) as nat;
        let rest = distinct_edges(edges, m);
        let all = distinct_edges(edges, n);
        let (x, y) = (all[i], all[j]);
        reported_connections_are_distinct(edges, m);
        if j < rest.len() {
            connections_are_reported_in_listing_order(edges, m, i, j);
            let k = choose|k: int|
                0 <= k < m && edge_model(#[trigger] edges[k]) == x && forall|l: int|
                    0 <= l <= k ==> edge_model(#[trigger] edges[l]) != y;
            assert(edge_model(edges[k]) == x);
        } else {
            assert(x == rest[i]);
            let k = choose|k: int| 0 <= k < m && edge_model(#[trigger] edges[k]) == rest[i];
            assert forall|l: int| 0 <= l <= k implies edge_model(#[trigger] edges[l]) != y by {
                assert(rest.contains(edge_model(edges[l])));
            }
            assert(edge_model(edges[k]) == x);
        }
    }
}

/// Whether a connection is that one.
pub open spec fn is_connection(key: EdgeModel) -> spec_fn(EdgeModel) -> bool {
    |other: EdgeModel| other == key
}

/// A connection that is listed several times counts a message as often.
pub proof fn listings_count_each_message(
    acc: EdgeAccumulator,
    slot: Seq<EdgeModel>,
    key: EdgeModel,
    bytes: Option<u64>,
    end_ns: Option<u64>,
    n: nat,
)
    requires
        n <= slot.len(),
    ensures
        ({
            let times = slot.take(n as int).filter(is_connection(key)).len();
            let r = after_slot(acc, slot, key, bytes, end_ns, n);
            &&& r.samples == capped(acc.samples as nat + times)
            &&& r.none_samples == capped(acc.none_samples as nat + (if bytes is None { times } else { 0 }))
            &&& r.valid_time_samples == capped(acc.valid_time_samples as nat + (if end_ns is Some { times } else { 0 }))
            &&& bytes is Some ==> r.total_raw_bytes == capped(acc.total_raw_bytes as nat + times * (bytes->0 as nat))
            &&& bytes is None ==> r.total_raw_bytes == acc.total_raw_bytes
            &&& times == 0 ==> r == acc
            &&& times > 0 && end_ns is Some ==> r.min_end_ns is Some && r.min_end_ns->0 <= end_ns->0 && r.max_end_ns is Some
                && end_ns->0 <= r.max_end_ns->0
        }),
    decreases n,
{
    reveal(Seq::filter);
    if n > 0 {
        listings_count_each_message(acc, slot, key, bytes, end_ns, (n - 1) as nat);
        let all = slot.take(n as int);
        assert(all.drop_last() =~= slot.take(n - 1));
        let times = slot.take(n - 1).filter(is_connection(key)).len();
        if bytes is Some {
            let b = bytes->0 as nat;
            assert((times + 1) * b == times * b + b) by (nonlinear_arith);
            assert(times * b >= 0) by (nonlinear_arith);
        }
    } else {
        if bytes is Some {
            let b = bytes->0 as nat;
            assert(0 * b == 0) by (nonlinear_arith);
        }
    }
}

/// Statistics carry the version of their format, the mission, and the signature of
/// the graph that was recorded under it.
pub proof fn statistics_name_what_was_recorded(
    stats: LogStats,
    graph: CuGraph,
    mission: Option<Seq<char>>,
    packs: Seq<PackModel>,
    culists: Seq<RecordedCopperList>,
)
    requires
        stats.reports(graph, mission, packs, culists),
    ensures
        maybe_text(stats.mission) == mission,
        stats.config_signature@ == signature_text(graph, mission),
        stats.schema_version == LOGSTATS_SCHEMA_VERSION,
        stats.mismatch == first_mismatch(labels(packs).len(), culists, culists.len()),
{
    places_count_on_every_connection(packs, graph.edges@);
}

} // verus!
