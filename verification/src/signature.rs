//! The task graph of a mission, and the signature that names it.

use crate::assembled::NodeId;
use crate::text::hex;
use crate::text::hex_value;
use crate::text::hexadecimals_stand_for_their_number;
use crate::text::lemma_lex_irreflexive;
use crate::text::lemma_lex_total;
use crate::text::lemma_lex_transitive;
use crate::text::lex_less;
use crate::text::pow16;
use crate::text::push_hex16;
use crate::text::text_less;
use vstd::prelude::*;
use vstd::string::StringSliceAdditionalSpecFns;
use vstd::utf8::encode_utf8;

verus! {

/// Whether a node is a task or a bridge.
#[derive(Clone, Copy, Debug, PartialEq, Eq, Structural)]
pub enum Flavor {
    Task,
    Bridge,
}

/// A node of the task graph.
#[derive(Debug, PartialEq, Eq)]
pub struct GraphNode {
    pub node_id: NodeId,
    pub id: String,
    /// Name of the node's Rust type.
    pub kind: String,
    pub flavor: Flavor,
}

/// A connection of the task graph.
#[derive(Debug, PartialEq, Eq)]
pub struct CuConnection {
    pub src: String,
    pub src_channel: Option<String>,
    pub dst: String,
    pub dst_channel: Option<String>,
    /// Name of the message type.
    pub msg: String,
}

/// The task graph of a mission.
#[derive(Debug, PartialEq, Eq)]
pub struct CuGraph {
    pub nodes: Vec<GraphNode>,
    pub edges: Vec<CuConnection>,
}

/// An optional text.
pub open spec fn maybe_text(text: Option<String>) -> Option<Seq<char>> {
    match text {
        Some(t) => Some(t@),
        None => None,
    }
}

/// The label of a flavor.
pub open spec fn flavor_text(flavor: Flavor) -> Seq<char> {
    match flavor {
        Flavor::Task => "task"@,
        Flavor::Bridge => "bridge"@,
    }
}

/// The text of one end of a connection.
pub open spec fn endpoint_text(node: Seq<char>, channel: Option<Seq<char>>) -> Seq<char> {
    match channel {
        Some(ch) => node + "/"@ + ch,
        None => node,
    }
}

/// The line of a node.
pub open spec fn node_line(node: GraphNode) -> Seq<char> {
    "node|"@ + node.id@ + "|"@ + node.kind@ + "|"@ + flavor_text(node.flavor)
}

/// The line of a connection.
pub open spec fn edge_line(cnx: CuConnection) -> Seq<char> {
    "edge|"@ + endpoint_text(cnx.src@, maybe_text(cnx.src_channel)) + "|"@ + endpoint_text(
        cnx.dst@,
        maybe_text(cnx.dst_channel),
    ) + "|"@ + cnx.msg@
}

/// A line with the text that it is sorted by.
pub type Entry = (Seq<char>, Seq<char>);

/// `list` with `entry` after every entry whose key is not greater.
pub open spec fn insert_entry(list: Seq<Entry>, entry: Entry) -> Seq<Entry>
    decreases list.len(),
{
    if list.len() == 0 || !lex_less(entry.0, list.last().0) {
        list.push(entry)
    } else {
        insert_entry(list.drop_last(), entry).push(list.last())
    }
}

/// The entries in ascending key order; equal keys keep their order.
pub open spec fn sort_entries(list: Seq<Entry>) -> Seq<Entry>
    decreases list.len(),
{
    if list.len() == 0 {
        list
    } else {
        insert_entry(sort_entries(list.drop_last()), list.last())
    }
}

/// The lines of the nodes, each with its node's id.
pub open spec fn node_entries(nodes: Seq<GraphNode>) -> Seq<Entry> {
    Seq::new(nodes.len(), |i: int| (nodes[i].id@, node_line(nodes[i])))
}

/// The lines of the connections, each with itself.
pub open spec fn edge_entries(edges: Seq<CuConnection>) -> Seq<Entry> {
    Seq::new(edges.len(), |i: int| (edge_line(edges[i]), edge_line(edges[i])))
}

/// `text` with the lines of the entries below it.
pub open spec fn with_lines(text: Seq<char>, list: Seq<Entry>) -> Seq<char>
    decreases list.len(),
{
    if list.len() == 0 {
        text
    } else {
        with_lines(text, list.drop_last()) + "\n"@ + list.last().1
    }
}

/// The text that the signature hashes.
pub open spec fn graph_text(graph: CuGraph, mission: Option<Seq<char>>) -> Seq<char> {
    let head = "mission="@ + (match mission {
        Some(m) => m,
        None => "default"@,
    });
    with_lines(
        with_lines(head, sort_entries(node_entries(graph.nodes@))),
        sort_entries(edge_entries(graph.edges@)),
    )
}

pub const OFFSET_BASIS: u64 = 0xcbf29ce484222325;

pub const PRIME: u64 = 0x100000001b3;

/// The 64-bit FNV-1a hash: every byte is mixed in by exclusive or and one
/// multiplication modulo `2^64`.
pub open spec fn fnv(data: Seq<u8>) -> u64
    decreases data.len(),
{
    if data.len() == 0 {
        OFFSET_BASIS
    } else {
        (((fnv(data.drop_last()) ^ (data.last() as u64)) * PRIME) % 0x1_0000_0000_0000_0000) as u64
    }
}

/// The signature of a mission's graph.
pub open spec fn signature_text(graph: CuGraph, mission: Option<Seq<char>>) -> Seq<char> {
    "fnv1a64:"@ + hex(fnv(encode_utf8(graph_text(graph, mission))) as nat, 16)
}

/// The label of a flavor.
pub fn flavor_label(flavor: Flavor) -> (r: &'static str)
    ensures
        r@ == flavor_text(flavor),
{
    match flavor {
        Flavor::Task => "task",
        Flavor::Bridge => "bridge",
    }
}

/// The text of one end of a connection.
pub fn format_endpoint(node: &str, channel: &Option<String>) -> (r: String)
    ensures
        r@ == endpoint_text(node@, maybe_text(*channel)),
{
    let mut text: String = node.to_owned();
    match channel {
        Some(ch) => {
            text.append("/");
            text.append(ch.as_str());
        },
        None => {},
    }
    text
}

/// The 64-bit FNV-1a hash.
pub fn fnv1a64(data: &[u8]) -> (hash: u64)
    ensures
        hash == fnv(data@),
{
    let mut hash: u64 = OFFSET_BASIS;
    let mut i: usize = 0;
    assert(data@.take(0) =~= Seq::<u8>::empty());
    while i < data.len()
        invariant
            i <= data@.len(),
            hash == fnv(data@.take(i as int)),
        decreases data@.len() - i,
    {
        assert(data@.take(i + 1).drop_last() =~= data@.take(i as int));
        assert(data@.take(i + 1).last() == data@[i as int]);
        hash = hash ^ (data[i] as u64);
        hash = hash.wrapping_mul(PRIME);
        i = i + 1;
    }
    assert(data@.take(i as int) =~= data@);
    hash
}

/// What a list of entries says.
spec fn entries_of(list: Seq<(String, String)>) -> Seq<Entry> {
    Seq::new(list.len(), |i: int| (list[i].0@, list[i].1@))
}

/// Splits where a new entry goes.
proof fn lemma_insert_at(list: Seq<Entry>, entry: Entry, at: nat)
    requires
        at <= list.len(),
        at > 0 ==> !lex_less(entry.0, list[at - 1].0),
        forall|i: int| at <= i < list.len() ==> lex_less(entry.0, (#[trigger] list[i]).0),
    ensures
        insert_entry(list, entry) == list.insert(at as int, entry),
    decreases list.len(),
{
    if at == list.len() {
        assert(list.push(entry) =~= list.insert(at as int, entry));
    } else {
        let rest = list.drop_last();
        assert(lex_less(entry.0, list[list.len() - 1].0));
        lemma_insert_at(rest, entry, at);
        assert(rest.insert(at as int, entry).push(list.last()) =~= list.insert(at as int, entry));
    }
}

/// Puts an entry after every entry whose key is not greater.
fn insert_line(list: &mut Vec<(String, String)>, key: String, line: String)
    ensures
        entries_of(final(list)@) == insert_entry(entries_of(old(list)@), (key@, line@)),
{
    let mut at: usize = list.len();
    while at > 0 && text_less(key.as_str(), list[at - 1].0.as_str())
        invariant
            at <= list@.len(),
            forall|i: int| at <= i < list@.len() ==> lex_less(key@, (#[trigger] list@[i]).0@),
        decreases at,
    {
        at = at - 1;
    }
    proof {
        let entries = entries_of(list@);
        assert forall|i: int| at <= i < entries.len() implies lex_less(key@, (#[trigger] entries[i]).0) by {
            assert(lex_less(key@, list@[i].0@));
        }
        lemma_insert_at(entries, (key@, line@), at as nat);
    }
    let ghost before = list@;
    list.insert(at, (key, line));
    proof {
        assert(entries_of(list@) =~= entries_of(before).insert(at as int, (key@, line@)));
    }
}

/// Appends the lines of the entries.
fn append_lines(text: &mut String, list: &Vec<(String, String)>)
    ensures
        final(text)@ == with_lines(old(text)@, entries_of(list@)),
{
    let ghost entries = entries_of(list@);
    let ghost head = text@;
    let mut i: usize = 0;
    assert(entries.take(0) =~= Seq::<Entry>::empty());
    while i < list.len()
        invariant
            i <= list@.len(),
            entries == entries_of(list@),
            text@ == with_lines(head, entries.take(i as int)),
        decreases list@.len() - i,
    {
        assert(entries.take(i + 1).drop_last() =~= entries.take(i as int));
        assert(entries.take(i + 1).last() == entries[i as int]);
        text.append("\n");
        text.append(list[i].1.as_str());
        i = i + 1;
    }
    assert(entries.take(i as int) =~= entries);
}

/// The signature of a mission's graph: a hash of the mission, of the nodes in
/// the order of their ids and of the sorted connections.
pub fn build_graph_signature(graph: &CuGraph, mission: Option<&str>) -> (r: String)
    ensures
        r@ == signature_text(*graph, match mission {
            Some(m) => Some(m@),
            None => None,
        }),
{
    let mut text: String = "mission=".to_owned();
    match mission {
        Some(m) => {
            text.append(m);
        },
        None => {
            text.append("default");
        },
    }
    let mut nodes: Vec<(String, String)> = Vec::new();
    let ghost node_list = node_entries(graph.nodes@);
    let mut i: usize = 0;
    assert(node_list.take(0) =~= Seq::<Entry>::empty());
    assert(entries_of(nodes@) =~= Seq::<Entry>::empty());
    while i < graph.nodes.len()
        invariant
            i <= graph.nodes@.len(),
            node_list == node_entries(graph.nodes@),
            entries_of(nodes@) == sort_entries(node_list.take(i as int)),
        decreases graph.nodes@.len() - i,
    {
        let node: &GraphNode = &graph.nodes[i];
        let mut line: String = "node|".to_owned();
        line.append(node.id.as_str());
        line.append("|");
        line.append(node.kind.as_str());
        line.append("|");
        line.append(flavor_label(node.flavor));
        assert(node_list.take(i + 1).drop_last() =~= node_list.take(i as int));
        assert(node_list.take(i + 1).last() == node_list[i as int]);
        insert_line(&mut nodes, node.id.clone(), line);
        i = i + 1;
    }
    assert(node_list.take(i as int) =~= node_list);
    append_lines(&mut text, &nodes);
    let mut edges: Vec<(String, String)> = Vec::new();
    let ghost edge_list = edge_entries(graph.edges@);
    let mut j: usize = 0;
    assert(edge_list.take(0) =~= Seq::<Entry>::empty());
    assert(entries_of(edges@) =~= Seq::<Entry>::empty());
    while j < graph.edges.len()
        invariant
            j <= graph.edges@.len(),
            edge_list == edge_entries(graph.edges@),
            entries_of(edges@) == sort_entries(edge_list.take(j as int)),
        decreases graph.edges@.len() - j,
    {
        let cnx: &CuConnection = &graph.edges[j];
        let mut line: String = "edge|".to_owned();
        line.append(format_endpoint(cnx.src.as_str(), &cnx.src_channel).as_str());
        line.append("|");
        line.append(format_endpoint(cnx.dst.as_str(), &cnx.dst_channel).as_str());
        line.append("|");
        line.append(cnx.msg.as_str());
        assert(edge_list.take(j + 1).drop_last() =~= edge_list.take(j as int));
        assert(edge_list.take(j + 1).last() == edge_list[j as int]);
        insert_line(&mut edges, line.clone(), line);
        j = j + 1;
    }
    assert(edge_list.take(j as int) =~= edge_list);
    append_lines(&mut text, &edges);
    let hash: u64 = fnv1a64(text.as_str().as_bytes());
    let mut signature: String = "fnv1a64:".to_owned();
    push_hex16(&mut signature, hash);
    signature
}

// ---------------------------------------------------------------------------
// Laws
// ---------------------------------------------------------------------------

/// Whether the keys never descend.
pub open spec fn keys_ascend(list: Seq<Entry>) -> bool {
    forall|i: int, j: int| 0 <= i < j < list.len() ==> !lex_less((#[trigger] list[j]).0, (#[trigger] list[i]).0)
}

/// Whether entries with the same key are the same.
pub open spec fn key_decides(list: Seq<Entry>) -> bool {
    forall|i: int, j: int|
        0 <= i < list.len() && 0 <= j < list.len() && (#[trigger] list[i]).0 == (#[trigger] list[j]).0 ==> list[i]
            == list[j]
}

proof fn lemma_insert_entry(list: Seq<Entry>, entry: Entry)
    requires
        keys_ascend(list),
    ensures
        keys_ascend(insert_entry(list, entry)),
        insert_entry(list, entry).len() == list.len() + 1,
        insert_entry(list, entry).to_multiset() == list.to_multiset().insert(entry),
        forall|i: int|
            0 <= i <= list.len() ==> (#[trigger] insert_entry(list, entry)[i]) == entry || exists|j: int|
                0 <= j < list.len() && insert_entry(list, entry)[i] == #[trigger] list[j],
    decreases list.len(),
{
    broadcast use vstd::seq_lib::group_to_multiset_ensures;

    let r = insert_entry(list, entry);
    if list.len() == 0 || !lex_less(entry.0, list.last().0) {
        assert forall|i: int, j: int| 0 <= i < j < r.len() implies !lex_less((#[trigger] r[j]).0, (#[trigger] r[i]).0) by {
            if j == list.len() && lex_less(entry.0, list[i].0) {
                let k = list.len() - 1;
                if i < k {
                    lemma_lex_total(list[k].0, list[i].0);
                    if list[k].0 != list[i].0 {
                        lemma_lex_transitive(entry.0, list[i].0, list[k].0);
                    }
                }
            }
        }
        assert forall|i: int| 0 <= i <= list.len() implies (#[trigger] r[i]) == entry || exists|j: int|
            0 <= j < list.len() && r[i] == #[trigger] list[j] by {
            if i < list.len() {
                assert(r[i] == list[i]);
            }
        }
    } else {
        let rest = list.drop_last();
        let last = list.last();
        lemma_insert_entry(rest, entry);
        let inner = insert_entry(rest, entry);
        assert forall|i: int, j: int| 0 <= i < j < r.len() implies !lex_less((#[trigger] r[j]).0, (#[trigger] r[i]).0) by {
            if j == list.len() {
                assert(r[i] == inner[i]);
                if inner[i] == entry {
                    lemma_lex_irreflexive(entry.0);
                    if lex_less(last.0, entry.0) {
                        lemma_lex_transitive(entry.0, last.0, entry.0);
                    }
                } else {
                    let m = choose|m: int| 0 <= m < rest.len() && inner[i] == #[trigger] rest[m];
                    assert(list[m] == rest[m]);
                    assert(last == list[list.len() - 1]);
                }
            }
        }
        assert(list =~= rest.push(last));
        assert(r.to_multiset() =~= list.to_multiset().insert(entry));
        assert forall|i: int| 0 <= i <= list.len() implies (#[trigger] r[i]) == entry || exists|j: int|
            0 <= j < list.len() && r[i] == #[trigger] list[j] by {
            if i < list.len() {
                assert(r[i] == inner[i]);
                if inner[i] != entry {
                    let m = choose|m: int| 0 <= m < rest.len() && inner[i] == #[trigger] rest[m];
                    assert(list[m] == rest[m]);
                }
            } else {
                assert(r[i] == list[list.len() - 1]);
            }
        }
    }
}

/// Sorting keeps the entries and puts their keys in order.
pub proof fn sorting_keeps_entries(list: Seq<Entry>)
    ensures
        keys_ascend(sort_entries(list)),
        sort_entries(list).to_multiset() == list.to_multiset(),
    decreases list.len(),
{
    broadcast use vstd::seq_lib::group_to_multiset_ensures;

    if list.len() > 0 {
        sorting_keeps_entries(list.drop_last());
        lemma_insert_entry(sort_entries(list.drop_last()), list.last());
        assert(list =~= list.drop_last().push(list.last()));
    }
}

/// Order of entries by key and then by line.
spec fn entry_leq() -> spec_fn(Entry, Entry) -> bool {
    |a: Entry, b: Entry| lex_less(a.0, b.0) || (a.0 == b.0 && (a.1 == b.1 || lex_less(a.1, b.1)))
}

proof fn lemma_entry_leq()
    ensures
        vstd::relations::total_ordering(entry_leq()),
{
    let r = entry_leq();
    assert forall|x: Entry, y: Entry| #[trigger] r(x, y) && #[trigger] r(y, x) implies x == y by {
        lemma_lex_irreflexive(x.0);
        lemma_lex_irreflexive(x.1);
        if lex_less(x.0, y.0) {
            if lex_less(y.0, x.0) {
                lemma_lex_transitive(x.0, y.0, x.0);
            }
        }
        if lex_less(x.1, y.1) && lex_less(y.1, x.1) {
            lemma_lex_transitive(x.1, y.1, x.1);
        }
    }
    assert forall|x: Entry, y: Entry, z: Entry| #[trigger] r(x, y) && #[trigger] r(y, z) implies r(x, z) by {
        if lex_less(x.0, y.0) && lex_less(y.0, z.0) {
            lemma_lex_transitive(x.0, y.0, z.0);
        }
        if lex_less(x.1, y.1) && lex_less(y.1, z.1) {
            lemma_lex_transitive(x.1, y.1, z.1);
        }
    }
    assert forall|x: Entry, y: Entry| #[trigger] r(x, y) || #[trigger] r(y, x) by {
        lemma_lex_total(x.0, y.0);
        lemma_lex_total(x.1, y.1);
    }
}

proof fn lemma_sort_is_canonical(a: Seq<Entry>, b: Seq<Entry>)
    requires
        a.to_multiset() == b.to_multiset(),
        key_decides(a),
    ensures
        sort_entries(a) == sort_entries(b),
{
    broadcast use vstd::seq_lib::group_to_multiset_ensures;

    sorting_keeps_entries(a);
    sorting_keeps_entries(b);
    lemma_entry_leq();
    let x = sort_entries(a);
    let y = sort_entries(b);
    assert(vstd::relations::sorted_by(x, entry_leq())) by {
        lemma_sorted_by_entry(a, x);
    }
    assert(vstd::relations::sorted_by(y, entry_leq())) by {
        lemma_sorted_by_entry(a, y);
    }
    vstd::seq_lib::lemma_sorted_unique(x, y, entry_leq());
}

proof fn lemma_sorted_by_entry(a: Seq<Entry>, x: Seq<Entry>)
    requires
        a.to_multiset() == x.to_multiset(),
        key_decides(a),
        keys_ascend(x),
    ensures
        vstd::relations::sorted_by(x, entry_leq()),
{
    broadcast use vstd::seq_lib::group_to_multiset_ensures;

    let r = entry_leq();
    assert forall|i: int, j: int| 0 <= i < j < x.len() implies #[trigger] r(x[i], x[j]) by {
        assert(x.contains(x[i]));
        assert(x.contains(x[j]));
        assert(x.to_multiset().count(x[i]) > 0);
        assert(x.to_multiset().count(x[j]) > 0);
        vstd::seq_lib::to_multiset_contains(a, x[i]);
        vstd::seq_lib::to_multiset_contains(a, x[j]);
        let k = choose|k: int| 0 <= k < a.len() && a[k] == x[i];
        let m = choose|m: int| 0 <= m < a.len() && a[m] == x[j];
        lemma_lex_total(x[i].0, x[j].0);
        if x[i].0 == x[j].0 {
            assert(a[k].0 == a[m].0);
        }
    }
}

/// The signature of a mission does not depend on the order in which a graph
/// lists its connections, nor on that in which it lists its nodes, as long as
/// no two nodes share an id.
pub proof fn signature_ignores_listing_order(a: CuGraph, b: CuGraph, mission: Option<Seq<char>>)
    requires
        forall|i: int, j: int|
            0 <= i < j < a.nodes@.len() ==> (#[trigger] a.nodes@[i]).id@ != (#[trigger] a.nodes@[j]).id@,
        node_entries(a.nodes@).to_multiset() == node_entries(b.nodes@).to_multiset(),
        edge_entries(a.edges@).to_multiset() == edge_entries(b.edges@).to_multiset(),
    ensures
        signature_text(a, mission) == signature_text(b, mission),
{
    let nodes = node_entries(a.nodes@);
    assert(key_decides(nodes)) by {
        assert forall|i: int, j: int|
            0 <= i < nodes.len() && 0 <= j < nodes.len() && (#[trigger] nodes[i]).0 == (#[trigger] nodes[j]).0 implies nodes[i]
            == nodes[j] by {
            assert(a.nodes@[i].id@ == a.nodes@[j].id@);
        }
    }
    lemma_sort_is_canonical(nodes, node_entries(b.nodes@));
    lemma_sort_is_canonical(edge_entries(a.edges@), edge_entries(b.edges@));
}

/// An entry as a line of its own.
pub open spec fn below() -> spec_fn(Entry) -> Seq<char> {
    |entry: Entry| "\n"@ + entry.1
}

proof fn lemma_lines(text: Seq<char>, list: Seq<Entry>)
    ensures
        with_lines(text, list) == text + list.map_values(below()).flatten(),
    decreases list.len(),
{
    let all = list.map_values(below());
    if list.len() == 0 {
        assert(all =~= Seq::<Seq<char>>::empty());
        assert(text =~= text + all.flatten());
    } else {
        lemma_lines(text, list.drop_last());
        let rest = list.drop_last().map_values(below());
        let line = "\n"@ + list.last().1;
        assert(all =~= rest.push(line));
        rest.lemma_flatten_push(line);
        assert(with_lines(text, list) =~= text + all.flatten());
    }
}

/// What is hashed is a line for the mission, one for each node, and one for each
/// connection.
pub proof fn signatures_hash_mission_nodes_and_connections(graph: CuGraph, mission: Option<Seq<char>>)
    ensures
        mission is Some ==> graph_text(graph, mission) == "mission="@ + mission->0 + sort_entries(
            node_entries(graph.nodes@),
        ).map_values(below()).flatten() + sort_entries(edge_entries(graph.edges@)).map_values(below()).flatten(),
        mission is None ==> graph_text(graph, mission) == graph_text(graph, Some("default"@)),
{
    let head = "mission="@ + (match mission {
        Some(m) => m,
        None => "default"@,
    });
    let nodes = sort_entries(node_entries(graph.nodes@));
    lemma_lines(head, nodes);
    lemma_lines(with_lines(head, nodes), sort_entries(edge_entries(graph.edges@)));
}

proof fn lemma_split(a: Seq<char>, b: Seq<char>, x: Seq<char>, y: Seq<char>, c: char)
    requires
        a + seq![c] + x == b + seq![c] + y,
        !a.contains(c),
        !b.contains(c),
    ensures
        a == b,
        x == y,
{
    let (l, r) = (a + seq![c] + x, b + seq![c] + y);
    if a.len() < b.len() {
        assert(l[a.len() as int] == c);
        assert(r[a.len() as int] == b[a.len() as int]);
        assert(b.contains(c));
    } else if b.len() < a.len() {
        assert(r[b.len() as int] == c);
        assert(l[b.len() as int] == a[b.len() as int]);
        assert(a.contains(c));
    }
    assert(a =~= l.take(a.len() as int));
    assert(b =~= r.take(b.len() as int));
    assert(x =~= l.skip((a.len() + 1) as int));
    assert(y =~= r.skip((b.len() + 1) as int));
}

/// Nodes have the same line only when they have the same id, the same type and
/// the same flavor.
pub proof fn lines_tell_nodes_apart(a: GraphNode, b: GraphNode)
    requires
        node_line(a) == node_line(b),
        !a.id@.contains('|') && !b.id@.contains('|'),
        !a.kind@.contains('|') && !b.kind@.contains('|'),
    ensures
        a.id@ == b.id@,
        a.kind@ == b.kind@,
        a.flavor == b.flavor,
{
    let bar = "|"@;
    reveal_strlit("|");
    assert(bar =~= seq!['|']);
    let (x, y) = (a.kind@ + bar + flavor_text(a.flavor), b.kind@ + bar + flavor_text(b.flavor));
    let head = "node|"@;
    assert(node_line(a).skip(head.len() as int) =~= a.id@ + bar + x);
    assert(node_line(b).skip(head.len() as int) =~= b.id@ + bar + y);
    lemma_split(a.id@, b.id@, x, y, '|');
    lemma_split(a.kind@, b.kind@, flavor_text(a.flavor), flavor_text(b.flavor), '|');
    reveal_strlit("task");
    reveal_strlit("bridge");
    assert("task"@.len() != "bridge"@.len());
}

/// The name of an end is free of what separates the parts of a line.
pub open spec fn is_plain(node: Seq<char>, channel: Option<Seq<char>>) -> bool {
    &&& !node.contains('|') && !node.contains('/')
    &&& channel is Some ==> !channel->0.contains('|')
}

proof fn lemma_endpoint_plain(node: Seq<char>, channel: Option<Seq<char>>)
    requires
        is_plain(node, channel),
    ensures
        !endpoint_text(node, channel).contains('|'),
{
    reveal_strlit("/");
    let text = endpoint_text(node, channel);
    if text.contains('|') {
        let i = choose|i: int| 0 <= i < text.len() && text[i] == '|';
        if i < node.len() {
            assert(node[i] == '|');
        } else if channel is Some && i > node.len() {
            assert(channel->0[i - node.len() - 1] == '|');
        }
    }
}

proof fn lemma_endpoints_apart(m: Seq<char>, c: Option<Seq<char>>, n: Seq<char>, d: Option<Seq<char>>)
    requires
        endpoint_text(m, c) == endpoint_text(n, d),
        is_plain(m, c),
        is_plain(n, d),
    ensures
        m == n,
        c == d,
{
    let slash = "/"@;
    reveal_strlit("/");
    assert(slash =~= seq!['/']);
    if c is Some && d is Some {
        lemma_split(m, n, c->0, d->0, '/');
    } else if c is Some {
        assert(endpoint_text(m, c)[m.len() as int] == '/');
        assert(n.contains('/'));
    } else if d is Some {
        assert(endpoint_text(n, d)[n.len() as int] == '/');
        assert(m.contains('/'));
    }
}

/// Connections have the same line only when they lead from the same end to the
/// same end with the same message.
pub proof fn lines_tell_connections_apart(a: CuConnection, b: CuConnection)
    requires
        edge_line(a) == edge_line(b),
        is_plain(a.src@, maybe_text(a.src_channel)) && is_plain(b.src@, maybe_text(b.src_channel)),
        is_plain(a.dst@, maybe_text(a.dst_channel)) && is_plain(b.dst@, maybe_text(b.dst_channel)),
    ensures
        a.src@ == b.src@,
        maybe_text(a.src_channel) == maybe_text(b.src_channel),
        a.dst@ == b.dst@,
        maybe_text(a.dst_channel) == maybe_text(b.dst_channel),
        a.msg@ == b.msg@,
{
    let bar = "|"@;
    reveal_strlit("|");
    assert(bar =~= seq!['|']);
    let (p, q) = (endpoint_text(a.src@, maybe_text(a.src_channel)), endpoint_text(b.src@, maybe_text(b.src_channel)));
    let (r, s) = (endpoint_text(a.dst@, maybe_text(a.dst_channel)), endpoint_text(b.dst@, maybe_text(b.dst_channel)));
    let head = "edge|"@;
    assert(edge_line(a).skip(head.len() as int) =~= p + bar + (r + bar + a.msg@));
    assert(edge_line(b).skip(head.len() as int) =~= q + bar + (s + bar + b.msg@));
    lemma_endpoint_plain(a.src@, maybe_text(a.src_channel));
    lemma_endpoint_plain(b.src@, maybe_text(b.src_channel));
    lemma_endpoint_plain(a.dst@, maybe_text(a.dst_channel));
    lemma_endpoint_plain(b.dst@, maybe_text(b.dst_channel));
    lemma_split(p, q, r + bar + a.msg@, s + bar + b.msg@, '|');
    lemma_split(r, s, a.msg@, b.msg@, '|');
    lemma_endpoints_apart(a.src@, maybe_text(a.src_channel), b.src@, maybe_text(b.src_channel));
    lemma_endpoints_apart(a.dst@, maybe_text(a.dst_channel), b.dst@, maybe_text(b.dst_channel));
}

/// Every byte is mixed in by exclusive or before one multiplication.
pub proof fn bytes_are_mixed_in_before_multiplying(data: Seq<u8>, b: u8)
    ensures
        fnv(Seq::empty()) == 0xcbf29ce484222325u64,
        fnv(data.push(b)) == ((fnv(data) ^ (b as u64)) * 0x100000001b3) % 0x1_0000_0000_0000_0000,
{
    assert(data.push(b).drop_last() =~= data);
}

/// Entries with that key.
pub open spec fn has_key(key: Seq<char>) -> spec_fn(Entry) -> bool {
    |entry: Entry| entry.0 == key
}

proof fn lemma_insert_filter(list: Seq<Entry>, entry: Entry, key: Seq<char>)
    requires
        keys_ascend(list),
    ensures
        insert_entry(list, entry).filter(has_key(key)) == (if entry.0 == key {
            list.filter(has_key(key)).push(entry)
        } else {
            list.filter(has_key(key))
        }),
    decreases list.len(),
{
    reveal(Seq::filter);
    let f = has_key(key);
    if list.len() == 0 || !lex_less(entry.0, list.last().0) {
        assert(list.push(entry).drop_last() =~= list);
    } else {
        let rest = list.drop_last();
        lemma_insert_filter(rest, entry, key);
        let out = insert_entry(rest, entry);
        assert(out.push(list.last()).drop_last() =~= out);
        if entry.0 == key {
            lemma_lex_irreflexive(entry.0);
            assert(list.last().0 != key);
        }
    }
}

/// Entries with the same key stay in the order in which they are listed.
pub proof fn sorting_is_stable(list: Seq<Entry>, key: Seq<char>)
    ensures
        sort_entries(list).filter(has_key(key)) == list.filter(has_key(key)),
    decreases list.len(),
{
    reveal(Seq::filter);
    if list.len() > 0 {
        sorting_is_stable(list.drop_last(), key);
        sorting_keeps_entries(list.drop_last());
        lemma_insert_filter(sort_entries(list.drop_last()), list.last(), key);
    }
}

/// A signature is its scheme and sixteen hexadecimal digits: the hash of the UTF-8
/// bytes of the graph's text.
pub proof fn signatures_are_sixteen_digits(graph: CuGraph, mission: Option<Seq<char>>)
    ensures
        ({
            let digits = signature_text(graph, mission).skip("fnv1a64:"@.len() as int);
            &&& "fnv1a64:"@.is_prefix_of(signature_text(graph, mission))
            &&& digits.len() == 16
            &&& hex_value(digits) == fnv(encode_utf8(graph_text(graph, mission)))
        }),
{
    let hash = fnv(encode_utf8(graph_text(graph, mission))) as nat;
    reveal_with_fuel(pow16, 17);
    assert(pow16(16) == 0x1_0000_0000_0000_0000);
    hexadecimals_stand_for_their_number(hash, 16);
    let text = signature_text(graph, mission);
    assert(text.skip("fnv1a64:"@.len() as int) =~= hex(hash, 16));
    assert(text.take("fnv1a64:"@.len() as int) =~= "fnv1a64:"@);
}

} // verus!
