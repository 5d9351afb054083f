//! Precedence graphs whose edges may cross schedule cycles.
//!
//! An edge `(to, lag)` in row `from` says that `to` waits for `from` of `lag`
//! cycles earlier. Only zero-lag edges order work inside one cycle.

use std::collections::VecDeque;
use vstd::prelude::*;
use vstd::set_lib::*;

verus! {

/// A precedence graph: for each node, its outgoing `(to, lag)` edges.
pub type Graph = Seq<Seq<(usize, u32)>>;

/// The graph held by executable adjacency lists.
pub open spec fn graph_of(edges: Seq<Vec<(usize, u32)>>) -> Graph {
    Seq::new(edges.len(), |i: int| edges[i]@)
}

/// Whether every edge leads to a node of the graph.
pub open spec fn closed(g: Graph) -> bool {
    forall|u: int, k: int| 0 <= u < g.len() && 0 <= k < g[u].len() ==> (#[trigger] g[u][k]).0 < g.len()
}

/// Number of edges in the first `m` rows.
pub open spec fn edge_count(g: Graph, m: nat) -> nat
    decreases m,
{
    if m == 0 {
        0
    } else {
        edge_count(g, (m - 1) as nat) + g[m - 1].len()
    }
}

/// Whether the nodes can be numbered so that every zero-lag edge goes up:
/// the zero-lag edges close no cycle.
pub open spec fn acyclic(g: Graph) -> bool {
    exists|rank: Seq<nat>| #[trigger] ranks(g, rank)
}

pub open spec fn ranks(g: Graph, rank: Seq<nat>) -> bool {
    &&& rank.len() == g.len()
    &&& forall|u: int, k: int|
        0 <= u < g.len() && 0 <= k < g[u].len() && (#[trigger] g[u][k]).1 == 0 ==> rank[u] < rank[g[u][k].0 as int]
}

/// Zero-lag edges to `v` among `row`.
pub open spec fn arrows(row: Seq<(usize, u32)>, v: int) -> nat
    decreases row.len(),
{
    if row.len() == 0 {
        0
    } else {
        arrows(row.drop_last(), v) + (if row.last().0 == v && row.last().1 == 0 { 1nat } else { 0nat })
    }
}

/// Zero-lag edges into `v` from the first `m` nodes, leaving out those in `placed`.
pub open spec fn pending(g: Graph, v: int, placed: Seq<usize>, m: nat) -> nat
    decreases m,
{
    if m == 0 {
        0
    } else {
        pending(g, v, placed, (m - 1) as nat) + (if placed.contains((m - 1) as usize) {
            0
        } else {
            arrows(g[m - 1], v)
        })
    }
}

/// Where a breadth-first topological walk stands: the zero-lag edges each node
/// still waits for, the nodes that wait for none, and the nodes placed so far.
pub struct Walk {
    pub incoming: Seq<nat>,
    pub ready: Seq<usize>,
    pub order: Seq<usize>,
}

/// The nodes below `m` that wait for nothing, ascending.
pub open spec fn free_nodes(incoming: Seq<nat>, m: nat) -> Seq<usize>
    decreases m,
{
    if m == 0 {
        Seq::empty()
    } else {
        let rest = free_nodes(incoming, (m - 1) as nat);
        if incoming[m - 1] == 0 {
            rest.push((m - 1) as usize)
        } else {
            rest
        }
    }
}

/// The walk before any node is placed.
pub open spec fn walk_start(g: Graph) -> Walk {
    let incoming = Seq::new(g.len(), |v: int| pending(g, v, Seq::empty(), g.len()));
    Walk { incoming, ready: free_nodes(incoming, g.len()), order: Seq::empty() }
}

/// What placing a node does: each zero-lag edge of its row removes one wait,
/// and a node whose last wait is removed becomes ready, in row order.
pub open spec fn relax(row: Seq<(usize, u32)>, incoming: Seq<nat>) -> (Seq<nat>, Seq<usize>)
    decreases row.len(),
{
    if row.len() == 0 {
        (incoming, Seq::empty())
    } else {
        let (inc, woken) = relax(row.drop_last(), incoming);
        let (to, lag) = row.last();
        if lag == 0 {
            let left = (inc[to as int] - 1) as nat;
            (inc.update(to as int, left), if left == 0 { woken.push(to) } else { woken })
        } else {
            (inc, woken)
        }
    }
}

/// The walk after placing the node that has been ready longest.
pub open spec fn walk_step(g: Graph, w: Walk) -> Walk {
    let from = w.ready[0];
    let (incoming, woken) = relax(g[from as int], w.incoming);
    Walk { incoming, ready: w.ready.drop_first() + woken, order: w.order.push(from) }
}

/// The walk after at most `fuel` placements.
pub open spec fn walk_run(g: Graph, w: Walk, fuel: nat) -> Walk
    decreases fuel,
{
    if fuel == 0 || w.ready.len() == 0 {
        w
    } else {
        walk_run(g, walk_step(g, w), (fuel - 1) as nat)
    }
}

/// The nodes of `g` in breadth-first topological order: first-in first-out
/// among the ready ones, starting from the free nodes in ascending order.
/// Nodes on or behind a zero-lag cycle are left out.
pub open spec fn walk_order(g: Graph) -> Seq<usize> {
    walk_run(g, walk_start(g), g.len()).order
}

/// Every zero-lag edge into a listed node starts at a node listed before it.
pub open spec fn in_topological_order(g: Graph, order: Seq<usize>) -> bool {
    forall|u: int, k: int, i: int|
        0 <= u < g.len() && 0 <= k < g[u].len() && 0 <= i < order.len() && (#[trigger] g[u][k]).1 == 0
            && g[u][k].0 == #[trigger] order[i] ==> order.take(i).contains(u as usize)
}

spec fn walk_inv(g: Graph, w: Walk) -> bool {
    &&& w.incoming.len() == g.len()
    &&& forall|i: int| 0 <= i < w.order.len() ==> (#[trigger] w.order[i]) < g.len()
    &&& forall|i: int| 0 <= i < w.ready.len() ==> (#[trigger] w.ready[i]) < g.len()
    &&& w.order.no_duplicates()
    &&& w.ready.no_duplicates()
    &&& forall|i: int, j: int| 0 <= i < w.order.len() && 0 <= j < w.ready.len() ==> #[trigger] w.order[i] != #[trigger] w.ready[j]
    &&& forall|v: int| 0 <= v < g.len() ==> #[trigger] w.incoming[v] == pending(g, v, w.order, g.len())
    &&& forall|v: usize| v < g.len() ==> (#[trigger] w.incoming[v as int] == 0 <==> w.order.contains(v) || w.ready.contains(v))
    &&& in_topological_order(g, w.order)
}

proof fn lemma_arrows_zero(row: Seq<(usize, u32)>, v: int, k: int)
    requires
        arrows(row, v) == 0,
        0 <= k < row.len(),
        row[k].1 == 0,
    ensures
        row[k].0 != v,
    decreases row.len(),
{
    if k < row.len() - 1 {
        lemma_arrows_zero(row.drop_last(), v, k);
    }
}

proof fn lemma_arrows_some(row: Seq<(usize, u32)>, v: int) -> (k: int)
    requires
        arrows(row, v) > 0,
    ensures
        0 <= k < row.len(),
        row[k].1 == 0,
        row[k].0 == v,
    decreases row.len(),
{
    if row.last().0 == v && row.last().1 == 0 {
        row.len() - 1
    } else {
        lemma_arrows_some(row.drop_last(), v)
    }
}

proof fn lemma_pending_zero(g: Graph, v: int, placed: Seq<usize>, m: nat, u: int)
    requires
        pending(g, v, placed, m) == 0,
        0 <= u < m <= g.len(),
        g.len() <= usize::MAX,
        !placed.contains(u as usize),
    ensures
        arrows(g[u], v) == 0,
    decreases m,
{
    if u < m - 1 {
        lemma_pending_zero(g, v, placed, (m - 1) as nat, u);
    }
}

proof fn lemma_pending_some(g: Graph, v: int, placed: Seq<usize>, m: nat) -> (u: int)
    requires
        pending(g, v, placed, m) > 0,
        m <= g.len(),
        g.len() <= usize::MAX,
    ensures
        0 <= u < m,
        !placed.contains(u as usize),
        arrows(g[u], v) > 0,
    decreases m,
{
    if !placed.contains((m - 1) as usize) && arrows(g[m - 1], v) > 0 {
        m - 1
    } else {
        lemma_pending_some(g, v, placed, (m - 1) as nat)
    }
}

proof fn lemma_pending_push(g: Graph, v: int, placed: Seq<usize>, m: nat, u: usize)
    requires
        m <= g.len(),
        g.len() <= usize::MAX,
        u < g.len(),
        !placed.contains(u),
    ensures
        pending(g, v, placed, m) == pending(g, v, placed.push(u), m) + (if u < m { arrows(g[u as int], v) } else { 0 }),
    decreases m,
{
    if m > 0 {
        lemma_pending_push(g, v, placed, (m - 1) as nat, u);
        let x = (m - 1) as usize;
        assert(placed.push(u)[placed.len() as int] == u);
        if placed.contains(x) {
            let i = placed.index_of(x);
            assert(placed.push(u)[i] == x);
        }
        if placed.push(u).contains(x) && x != u {
            let i = placed.push(u).index_of(x);
            assert(placed[i] == x);
        }
    }
}

proof fn lemma_arrows_bound(g: Graph, v: int, placed: Seq<usize>, m: nat, u: int)
    requires
        0 <= u < m <= g.len(),
        g.len() <= usize::MAX,
        !placed.contains(u as usize),
    ensures
        arrows(g[u], v) <= pending(g, v, placed, m),
    decreases m,
{
    if u < m - 1 {
        lemma_arrows_bound(g, v, placed, (m - 1) as nat, u);
    }
}

/// A row of edges removes as many waits of each node as it has arrows to it,
/// and wakes exactly the nodes whose waits it used up, each once.
proof fn lemma_relax(row: Seq<(usize, u32)>, incoming: Seq<nat>)
    requires
        forall|k: int| 0 <= k < row.len() ==> (#[trigger] row[k]).0 < incoming.len(),
        forall|v: int| 0 <= v < incoming.len() ==> arrows(row, v) <= #[trigger] incoming[v],
    ensures
        relax(row, incoming).0.len() == incoming.len(),
        forall|v: int| 0 <= v < incoming.len() ==> #[trigger] relax(row, incoming).0[v] == incoming[v] - arrows(row, v),
        relax(row, incoming).1.no_duplicates(),
        forall|i: int| 0 <= i < relax(row, incoming).1.len() ==> (#[trigger] relax(row, incoming).1[i]) < incoming.len(),
        forall|v: usize| v < incoming.len() ==> (#[trigger] relax(row, incoming).1.contains(v)
            <==> arrows(row, v as int) > 0 && incoming[v as int] == arrows(row, v as int)),
    decreases row.len(),
{
    if row.len() > 0 {
        let pre = row.drop_last();
        assert forall|v: int| 0 <= v < incoming.len() implies arrows(pre, v) <= #[trigger] incoming[v] by {
            assert(arrows(row, v) <= incoming[v]);
        }
        lemma_relax(pre, incoming);
        let (inc, woken) = relax(pre, incoming);
        let (to, lag) = row.last();
        assert(row[row.len() - 1].0 < incoming.len());
        assert(arrows(row, to as int) <= incoming[to as int]);
        let r = relax(row, incoming).1;
        if lag == 0 {
            let left = (inc[to as int] - 1) as nat;
            if left == 0 {
                assert(r == woken.push(to));
                if woken.contains(to) {
                    assert(false);
                }
                assert forall|v: usize| v < incoming.len() implies (#[trigger] r.contains(v)
                    <==> arrows(row, v as int) > 0 && incoming[v as int] == arrows(row, v as int)) by {
                    if v == to {
                        assert(r[woken.len() as int] == to);
                    } else {
                        if r.contains(v) {
                            let i = r.index_of(v);
                            assert(woken[i] == v);
                        }
                        if woken.contains(v) {
                            let i = woken.index_of(v);
                            assert(r[i] == v);
                        }
                        assert(woken.contains(v) <==> r.contains(v));
                    }
                }
            } else {
                assert forall|v: usize| v < incoming.len() implies (#[trigger] r.contains(v)
                    <==> arrows(row, v as int) > 0 && incoming[v as int] == arrows(row, v as int)) by {
                    assert(woken.contains(v) <==> r.contains(v));
                }
            }
        } else {
            assert forall|v: usize| v < incoming.len() implies (#[trigger] r.contains(v)
                <==> arrows(row, v as int) > 0 && incoming[v as int] == arrows(row, v as int)) by {
                assert(woken.contains(v) <==> r.contains(v));
            }
        }
    }
}

proof fn lemma_free_nodes(incoming: Seq<nat>, m: nat)
    requires
        m <= incoming.len() <= usize::MAX,
    ensures
        free_nodes(incoming, m).no_duplicates(),
        forall|i: int| 0 <= i < free_nodes(incoming, m).len() ==> (#[trigger] free_nodes(incoming, m)[i]) < m,
        forall|v: usize| v < m ==> (#[trigger] free_nodes(incoming, m).contains(v) <==> incoming[v as int] == 0),
    decreases m,
{
    if m > 0 {
        lemma_free_nodes(incoming, (m - 1) as nat);
        let rest = free_nodes(incoming, (m - 1) as nat);
        let all = free_nodes(incoming, m);
        let x = (m - 1) as usize;
        if incoming[m - 1] == 0 {
            assert(all[rest.len() as int] == x);
            assert forall|v: usize| v < m implies (#[trigger] all.contains(v) <==> incoming[v as int] == 0) by {
                if v != x {
                    if all.contains(v) {
                        let i = all.index_of(v);
                        assert(rest[i] == v);
                    }
                    if rest.contains(v) {
                        let i = rest.index_of(v);
                        assert(all[i] == v);
                    }
                    assert(rest.contains(v) <==> all.contains(v));
                }
            }
        } else {
            assert forall|v: usize| v < m implies (#[trigger] all.contains(v) <==> incoming[v as int] == 0) by {
                if v == x && rest.contains(v) {
                    let i = rest.index_of(v);
                    assert(rest[i] < m - 1);
                }
            }
        }
    }
}

proof fn lemma_walk_start(g: Graph)
    requires
        closed(g),
        g.len() <= usize::MAX,
    ensures
        walk_inv(g, walk_start(g)),
{
    let w = walk_start(g);
    lemma_free_nodes(w.incoming, g.len());
    assert forall|v: usize| v < g.len() implies (#[trigger] w.incoming[v as int] == 0 <==> w.order.contains(v) || w.ready.contains(v)) by {
        assert(w.ready.contains(v) <==> w.incoming[v as int] == 0);
    }
}

proof fn lemma_walk_step(g: Graph, w: Walk)
    requires
        closed(g),
        g.len() <= usize::MAX,
        walk_inv(g, w),
        w.ready.len() > 0,
    ensures
        walk_inv(g, walk_step(g, w)),
        forall|v: int| 0 <= v < g.len() ==> arrows(g[w.ready[0] as int], v) <= #[trigger] w.incoming[v],
{
    let from = w.ready[0];
    let row = g[from as int];
    assert(w.ready.contains(from));
    assert(!w.order.contains(from)) by {
        if w.order.contains(from) {
            let i = w.order.index_of(from);
            assert(w.order[i] != w.ready[0]);
        }
    }
    assert forall|v: int| 0 <= v < g.len() implies arrows(row, v) <= #[trigger] w.incoming[v] by {
        lemma_arrows_bound(g, v, w.order, g.len(), from as int);
    }
    assert forall|k: int| 0 <= k < row.len() implies (#[trigger] row[k]).0 < w.incoming.len() by {
        assert(g[from as int][k].0 < g.len());
    }
    lemma_relax(row, w.incoming);
    let n = walk_step(g, w);
    let woken = relax(row, w.incoming).1;
    let rest = w.ready.drop_first();
    assert(n.ready == rest + woken);
    assert(n.order == w.order.push(from));
    assert forall|v: int| 0 <= v < g.len() implies #[trigger] n.incoming[v] == pending(g, v, n.order, g.len()) by {
        assert(w.incoming[v] == pending(g, v, w.order, g.len()));
        lemma_pending_push(g, v, w.order, g.len(), from);
    }
    // A woken node still waited, so it is neither placed nor ready.
    assert forall|i: int| 0 <= i < woken.len() implies !w.order.contains(#[trigger] woken[i]) && !w.ready.contains(woken[i]) by {
        let v = woken[i];
        assert(woken.contains(v));
        assert(w.incoming[v as int] > 0);
    }
    assert forall|i: int| 0 <= i < n.ready.len() implies (#[trigger] n.ready[i]) < g.len() by {
        if i < rest.len() {
            assert(n.ready[i] == w.ready[i + 1]);
        } else {
            assert(n.ready[i] == woken[i - rest.len()]);
        }
    }
    assert(n.ready.no_duplicates()) by {
        assert forall|i: int, j: int| 0 <= i < n.ready.len() && 0 <= j < n.ready.len() && i != j implies n.ready[i] != n.ready[j] by {
            if i < rest.len() && j < rest.len() {
                assert(w.ready[i + 1] != w.ready[j + 1]);
            } else if i >= rest.len() && j >= rest.len() {
                assert(woken[i - rest.len()] != woken[j - rest.len()]);
            } else if i < rest.len() {
                assert(w.ready.contains(w.ready[i + 1]));
                assert(!w.ready.contains(woken[j - rest.len()]));
            } else {
                assert(w.ready.contains(w.ready[j + 1]));
                assert(!w.ready.contains(woken[i - rest.len()]));
            }
        }
    }
    assert forall|i: int, j: int| 0 <= i < n.order.len() && 0 <= j < n.ready.len() implies #[trigger] n.order[i] != #[trigger] n.ready[j] by {
        if j < rest.len() {
            assert(n.ready[j] == w.ready[j + 1]);
            if i < w.order.len() {
                assert(w.order[i] != w.ready[j + 1]);
            } else {
                assert(w.ready[0] != w.ready[j + 1]);
            }
        } else {
            let v = woken[j - rest.len()];
            if i < w.order.len() {
                assert(w.order.contains(w.order[i]));
            } else {
                assert(w.ready.contains(from));
            }
            assert(!w.order.contains(v) && !w.ready.contains(v));
        }
    }
    assert forall|v: usize| v < g.len() implies (#[trigger] n.incoming[v as int] == 0 <==> n.order.contains(v) || n.ready.contains(v)) by {
        assert(n.incoming[v as int] == w.incoming[v as int] - arrows(row, v as int));
        assert(w.incoming[v as int] == 0 <==> w.order.contains(v) || w.ready.contains(v));
        assert(woken.contains(v) <==> arrows(row, v as int) > 0 && w.incoming[v as int] == arrows(row, v as int));
        if w.order.contains(v) {
            let i = w.order.index_of(v);
            assert(n.order[i] == v);
        }
        assert(n.order[w.order.len() as int] == from);
        if n.order.contains(v) && v != from {
            let i = n.order.index_of(v);
            assert(w.order[i] == v);
        }
        if w.ready.contains(v) && v != from {
            let i = w.ready.index_of(v);
            assert(n.ready[i - 1] == v);
        }
        if woken.contains(v) {
            let i = woken.index_of(v);
            assert(n.ready[rest.len() + i] == v);
        }
        if n.ready.contains(v) {
            let i = n.ready.index_of(v);
            if i < rest.len() {
                assert(w.ready[i + 1] == v);
                assert(w.ready.contains(v));
            } else {
                assert(woken[i - rest.len()] == v);
                assert(woken.contains(v));
            }
        }
    }
    assert(w.incoming[from as int] == 0);
    assert forall|u: int, k: int, i: int|
        0 <= u < g.len() && 0 <= k < g[u].len() && 0 <= i < n.order.len() && (#[trigger] g[u][k]).1 == 0
            && g[u][k].0 == #[trigger] n.order[i] implies n.order.take(i).contains(u as usize) by {
        if i < w.order.len() {
            assert(w.order[i] == n.order[i]);
            assert(w.order.take(i) =~= n.order.take(i));
        } else {
            assert(n.order.take(i) =~= w.order);
            assert(n.order[i] == from);
            if !w.order.contains(u as usize) {
                lemma_pending_zero(g, from as int, w.order, g.len(), u);
                lemma_arrows_zero(g[u], from as int, k);
            }
        }
    }
}

pub(crate) proof fn lemma_distinct_bound(s: Seq<usize>, n: nat)
    requires
        s.no_duplicates(),
        forall|i: int| 0 <= i < s.len() ==> (#[trigger] s[i]) < n,
    ensures
        s.len() <= n,
    decreases n,
{
    if n == 0 {
        if s.len() > 0 {
            assert(s[0] < 0);
        }
    } else {
        let x = (n - 1) as usize;
        if s.contains(x) && n - 1 <= usize::MAX {
            let i = s.index_of(x);
            let t = s.remove(i);
            assert forall|j: int| 0 <= j < t.len() implies (#[trigger] t[j]) < n - 1 by {
                let o = if j < i { j } else { j + 1 };
                assert(t[j] == s[o]);
                assert(s[o] != s[i]);
            }
            assert forall|a: int, b: int| 0 <= a < t.len() && 0 <= b < t.len() && a != b implies t[a] != t[b] by {
                let oa = if a < i { a } else { a + 1 };
                let ob = if b < i { b } else { b + 1 };
                assert(s[oa] != s[ob]);
            }
            lemma_distinct_bound(t, (n - 1) as nat);
        } else {
            assert forall|j: int| 0 <= j < s.len() implies (#[trigger] s[j]) < n - 1 by {
                assert(s[j] < n);
                if s[j] == n - 1 {
                    assert(s.contains(s[j]));
                }
            }
            lemma_distinct_bound(s, (n - 1) as nat);
        }
    }
}

proof fn lemma_walk_len(g: Graph, w: Walk)
    requires
        walk_inv(g, w),
    ensures
        w.order.len() + w.ready.len() <= g.len(),
{
    let all = w.order + w.ready;
    assert forall|i: int| 0 <= i < all.len() implies (#[trigger] all[i]) < g.len() by {
        if i < w.order.len() {
            assert(all[i] == w.order[i]);
        } else {
            assert(all[i] == w.ready[i - w.order.len()]);
        }
    }
    assert(all.no_duplicates()) by {
        assert forall|i: int, j: int| 0 <= i < all.len() && 0 <= j < all.len() && i != j implies all[i] != all[j] by {
            let n = w.order.len() as int;
            if i < n && j < n {
                assert(w.order[i] != w.order[j]);
            } else if i >= n && j >= n {
                assert(w.ready[i - n] != w.ready[j - n]);
            } else if i < n {
                assert(w.order[i] != w.ready[j - n]);
            } else {
                assert(w.order[j] != w.ready[i - n]);
            }
        }
    }
    lemma_distinct_bound(all, g.len());
}

proof fn lemma_walk_run(g: Graph, w: Walk, fuel: nat)
    requires
        closed(g),
        g.len() <= usize::MAX,
        walk_inv(g, w),
        w.order.len() + fuel >= g.len(),
    ensures
        walk_inv(g, walk_run(g, w, fuel)),
        walk_run(g, w, fuel).ready.len() == 0,
    decreases fuel,
{
    lemma_walk_len(g, w);
    if fuel > 0 && w.ready.len() > 0 {
        lemma_walk_step(g, w);
        lemma_walk_run(g, walk_step(g, w), (fuel - 1) as nat);
    }
}

/// The breadth-first walk lists distinct nodes, each after all its zero-lag
/// predecessors.
pub proof fn walk_order_is_topological(g: Graph)
    requires
        closed(g),
        g.len() <= usize::MAX,
    ensures
        walk_order(g).no_duplicates(),
        walk_order(g).len() <= g.len(),
        forall|i: int| 0 <= i < walk_order(g).len() ==> (#[trigger] walk_order(g)[i]) < g.len(),
        in_topological_order(g, walk_order(g)),
{
    lemma_walk_start(g);
    lemma_walk_run(g, walk_start(g), g.len());
    lemma_walk_len(g, walk_run(g, walk_start(g), g.len()));
}

/// A node that the walk leaves out waits for another node that it leaves out.
pub proof fn walk_leaves_out_only_waiting_nodes(g: Graph, v: usize) -> (u: usize)
    requires
        closed(g),
        g.len() <= usize::MAX,
        v < g.len(),
        !walk_order(g).contains(v),
    ensures
        u < g.len(),
        !walk_order(g).contains(u),
        arrows(g[u as int], v as int) > 0,
{
    lemma_walk_start(g);
    lemma_walk_run(g, walk_start(g), g.len());
    let w = walk_run(g, walk_start(g), g.len());
    assert(w.incoming[v as int] == 0 <==> w.order.contains(v) || w.ready.contains(v));
    assert(w.incoming[v as int] == pending(g, v as int, w.order, g.len()));
    let u = lemma_pending_some(g, v as int, w.order, g.len());
    u as usize
}

proof fn lemma_low_ranks_placed(g: Graph, rank: Seq<nat>, r: nat)
    requires
        closed(g),
        g.len() <= usize::MAX,
        ranks(g, rank),
    ensures
        forall|v: usize| v < g.len() && rank[v as int] < r ==> #[trigger] walk_order(g).contains(v),
    decreases r,
{
    if r > 0 {
        lemma_low_ranks_placed(g, rank, (r - 1) as nat);
        assert forall|v: usize| v < g.len() && rank[v as int] < r implies #[trigger] walk_order(g).contains(v) by {
            if !walk_order(g).contains(v) {
                let u = walk_leaves_out_only_waiting_nodes(g, v);
                let k = lemma_arrows_some(g[u as int], v as int);
                assert(g[u as int][k].1 == 0);
                assert(rank[u as int] < rank[v as int]);
                assert(walk_order(g).contains(u));
            }
        }
    }
}

spec fn max_rank(rank: Seq<nat>) -> nat
    decreases rank.len(),
{
    if rank.len() == 0 {
        0
    } else {
        let m = max_rank(rank.drop_last());
        if m < rank.last() { rank.last() } else { m }
    }
}

proof fn lemma_max_rank(rank: Seq<nat>, i: int)
    requires
        0 <= i < rank.len(),
    ensures
        rank[i] <= max_rank(rank),
    decreases rank.len(),
{
    if i < rank.len() - 1 {
        lemma_max_rank(rank.drop_last(), i);
    }
}

/// The walk lists every node exactly when the zero-lag edges close no cycle.
pub proof fn walk_is_complete_iff_acyclic(g: Graph)
    requires
        closed(g),
        g.len() <= usize::MAX,
    ensures
        walk_order(g).len() == g.len() <==> acyclic(g),
        acyclic(g) ==> forall|v: usize| v < g.len() ==> #[trigger] walk_order(g).contains(v),
{
    let order = walk_order(g);
    walk_order_is_topological(g);
    if acyclic(g) {
        let rank = choose|rank: Seq<nat>| #[trigger] ranks(g, rank);
        lemma_low_ranks_placed(g, rank, max_rank(rank) + 1);
        assert forall|v: usize| v < g.len() implies #[trigger] order.contains(v) by {
            lemma_max_rank(rank, v as int);
        }
        lemma_covers(order, g.len());
    }
    if order.len() == g.len() {
        lemma_full(order, g.len());
        let rank = Seq::new(g.len(), |v: int| order.index_of(v as usize) as nat);
        assert forall|u: int, k: int|
            0 <= u < g.len() && 0 <= k < g[u].len() && (#[trigger] g[u][k]).1 == 0 implies rank[u] < rank[g[u][k].0 as int] by {
            let to = g[u][k].0;
            assert(order.contains(to));
            let i = order.index_of(to);
            assert(order[i] == to);
            assert(order.take(i).contains(u as usize));
            let j = order.take(i).index_of(u as usize);
            assert(order[j] == u as usize);
            assert(order.contains(u as usize));
        }
        assert(ranks(g, rank));
    }
}

/// Distinct numbers below `n` that include all of them are `n` many.
proof fn lemma_covers(s: Seq<usize>, n: nat)
    requires
        n <= usize::MAX,
        s.no_duplicates(),
        forall|i: int| 0 <= i < s.len() ==> (#[trigger] s[i]) < n,
        forall|v: usize| v < n ==> #[trigger] s.contains(v),
    ensures
        s.len() == n,
    decreases n,
{
    lemma_distinct_bound(s, n);
    if n > 0 {
        let x = (n - 1) as usize;
        assert(s.contains(x));
        let i = s.index_of(x);
        let t = s.remove(i);
        assert forall|j: int| 0 <= j < t.len() implies (#[trigger] t[j]) < n - 1 by {
            let o = if j < i { j } else { j + 1 };
            assert(t[j] == s[o]);
            assert(s[o] != s[i]);
        }
        assert forall|a: int, b: int| 0 <= a < t.len() && 0 <= b < t.len() && a != b implies t[a] != t[b] by {
            let oa = if a < i { a } else { a + 1 };
            let ob = if b < i { b } else { b + 1 };
            assert(s[oa] != s[ob]);
        }
        assert forall|v: usize| v < n - 1 implies #[trigger] t.contains(v) by {
            assert(s.contains(v));
            let o = s.index_of(v);
            let j = if o < i { o } else { o - 1 };
            assert(t[j] == v);
        }
        lemma_covers(t, (n - 1) as nat);
    } else {
        if s.len() > 0 {
            assert(s[0] < 0);
        }
    }
}

/// `n` distinct numbers below `n` include all of them.
pub proof fn lemma_full(s: Seq<usize>, n: nat)
    requires
        n <= usize::MAX,
        s.no_duplicates(),
        forall|i: int| 0 <= i < s.len() ==> (#[trigger] s[i]) < n,
        s.len() == n,
    ensures
        forall|v: usize| v < n ==> #[trigger] s.contains(v),
{
    assert forall|v: usize| v < n implies #[trigger] s.contains(v) by {
        if !s.contains(v) {
            let t = s.push(v);
            assert forall|i: int| 0 <= i < t.len() implies (#[trigger] t[i]) < n by {
                if i < s.len() { assert(t[i] == s[i]); }
            }
            assert forall|a: int, b: int| 0 <= a < t.len() && 0 <= b < t.len() && a != b implies t[a] != t[b] by {
                if a < s.len() && b < s.len() {
                    assert(s[a] != s[b]);
                } else if a < s.len() {
                    assert(s.contains(s[a]));
                } else {
                    assert(s.contains(s[b]));
                }
            }
            lemma_distinct_bound(t, n);
        }
    }
}

proof fn lemma_arrows_le(row: Seq<(usize, u32)>, v: int)
    ensures
        arrows(row, v) <= row.len(),
    decreases row.len(),
{
    if row.len() > 0 {
        lemma_arrows_le(row.drop_last(), v);
    }
}

proof fn lemma_pending_le(g: Graph, v: int, placed: Seq<usize>, m: nat)
    requires
        m <= g.len(),
    ensures
        pending(g, v, placed, m) <= edge_count(g, m),
    decreases m,
{
    if m > 0 {
        lemma_pending_le(g, v, placed, (m - 1) as nat);
        lemma_arrows_le(g[m - 1], v);
    }
}

proof fn lemma_edge_count_monotone(g: Graph, a: nat, b: nat)
    requires
        a <= b <= g.len(),
    ensures
        edge_count(g, a) <= edge_count(g, b),
    decreases b,
{
    if a < b {
        lemma_edge_count_monotone(g, a, (b - 1) as nat);
    }
}

/// The edges of adjacency lists are few enough to be counted.
proof fn lemma_edges_fit(edges: Seq<Vec<(usize, u32)>>, m: nat)
    requires
        m <= edges.len(),
    ensures
        edge_count(graph_of(edges), m) <= m * usize::MAX,
    decreases m,
{
    if m > 0 {
        lemma_edges_fit(edges, (m - 1) as nat);
        assert(edges[m - 1].len() == edges[m - 1]@.len());
        assert(m * usize::MAX == (m - 1) * usize::MAX + usize::MAX) by (nonlinear_arith);
    }
}

/// For each node, how many zero-lag edges lead to it.
fn count_incoming(edges: &Vec<Vec<(usize, u32)>>) -> (incoming: Vec<u128>)
    requires
        closed(graph_of(edges@)),
    ensures
        incoming@.len() == edges@.len(),
        forall|v: int| 0 <= v < edges@.len() ==> (#[trigger] incoming@[v]) as nat == walk_start(graph_of(edges@)).incoming[v],
{
    let n: usize = edges.len();
    let ghost g = graph_of(edges@);
    proof {
        let limit = usize::MAX as int;
        lemma_edges_fit(edges@, edges@.len());
        assert(n * usize::MAX == n as int * limit);
        assert(n as int * limit <= u128::MAX) by (nonlinear_arith)
            requires
                0 <= n as int <= limit <= u64::MAX,
        ;
    }
    let mut incoming: Vec<u128> = Vec::new();
    let mut i: usize = 0;
    while i < n
        invariant
            n == edges@.len(),
            i <= n,
            incoming@.len() == i,
            forall|v: int| 0 <= v < i ==> incoming@[v] == 0,
        decreases n - i,
    {
        incoming.push(0);
        i = i + 1;
    }
    let mut u: usize = 0;
    while u < n
        invariant
            n == edges@.len(),
            g == graph_of(edges@),
            closed(g),
            edge_count(g, n as nat) <= u128::MAX,
            u <= n,
            incoming@.len() == n,
            forall|v: int| 0 <= v < n ==> (#[trigger] incoming@[v]) == pending(g, v, Seq::empty(), u as nat),
        decreases n - u,
    {
        let row: &Vec<(usize, u32)> = &edges[u];
        let mut k: usize = 0;
        assert(row@.take(0) =~= Seq::empty());
        while k < row.len()
            invariant
                n == edges@.len(),
                g == graph_of(edges@),
                closed(g),
                edge_count(g, n as nat) <= u128::MAX,
                u < n,
                row@ == g[u as int],
                k <= row@.len(),
                incoming@.len() == n,
                forall|v: int| 0 <= v < n ==> (#[trigger] incoming@[v]) == pending(g, v, Seq::empty(), u as nat) + arrows(row@.take(k as int), v),
            decreases row@.len() - k,
        {
            let (to, lag) = row[k];
            assert(g[u as int][k as int].0 < g.len());
            proof {
                assert(row@.take(k + 1).drop_last() =~= row@.take(k as int));
                lemma_arrows_le(row@.take(k as int), to as int);
                lemma_pending_le(g, to as int, Seq::empty(), u as nat);
                lemma_edge_count_monotone(g, (u + 1) as nat, n as nat);
            }
            if lag == 0 {
                let c: u128 = incoming[to];
                incoming.set(to, c + 1);
            }
            k = k + 1;
        }
        assert(row@.take(row@.len() as int) =~= row@);
        u = u + 1;
    }
    incoming
}

/// The nodes in breadth-first topological order; nodes on or behind a zero-lag
/// cycle are left out.
pub fn walk_nodes(edges: &Vec<Vec<(usize, u32)>>) -> (order: Vec<usize>)
    requires
        closed(graph_of(edges@)),
    ensures
        order@ == walk_order(graph_of(edges@)),
{
    let n: usize = edges.len();
    let ghost g = graph_of(edges@);
    let mut incoming: Vec<u128> = count_incoming(edges);
    let ghost start = walk_start(g);
    let mut ready: VecDeque<usize> = VecDeque::new();
    let mut i: usize = 0;
    while i < n
        invariant
            n == edges@.len(),
            g == graph_of(edges@),
            start == walk_start(g),
            i <= n,
            incoming@.len() == n,
            forall|v: int| 0 <= v < n ==> (#[trigger] incoming@[v]) == start.incoming[v],
            ready@ == free_nodes(start.incoming, i as nat),
        decreases n - i,
    {
        if incoming[i] == 0 {
            ready.push_back(i);
        }
        i = i + 1;
    }
    let mut order: Vec<usize> = Vec::new();
    let ghost mut w = start;
    let ghost mut fuel: nat = g.len();
    proof {
        lemma_walk_start(g);
        assert(order@ =~= start.order);
    }
    while ready.len() > 0
        invariant
            n == edges@.len(),
            g == graph_of(edges@),
            closed(g),
            g.len() == n,
            walk_inv(g, w),
            w.order.len() + fuel == g.len(),
            walk_run(g, w, fuel) == walk_run(g, walk_start(g), g.len()),
            order@ == w.order,
            ready@ == w.ready,
            incoming@.len() == n,
            forall|v: int| 0 <= v < n ==> (#[trigger] incoming@[v]) == w.incoming[v],
        decreases fuel,
    {
        proof {
            lemma_walk_len(g, w);
            lemma_walk_step(g, w);
        }
        let ghost before = w;
        let from: usize = ready.pop_front().unwrap();
        order.push(from);
        let row: &Vec<(usize, u32)> = &edges[from];
        let mut k: usize = 0;
        proof {
            assert(before.ready[0] == from);
            assert(row@.take(0) =~= Seq::empty());
            assert(ready@ =~= before.ready.drop_first() + relax(row@.take(0), before.incoming).1);
        }
        while k < row.len()
            invariant
                n == edges@.len(),
                g == graph_of(edges@),
                closed(g),
                g.len() == n,
                from < n,
                row@ == g[from as int],
                k <= row@.len(),
                before.incoming.len() == n,
                forall|v: int| 0 <= v < n ==> arrows(row@, v) <= #[trigger] before.incoming[v],
                incoming@.len() == n,
                relax(row@.take(k as int), before.incoming).0.len() == n,
                forall|v: int| 0 <= v < n ==> (#[trigger] incoming@[v]) == relax(row@.take(k as int), before.incoming).0[v],
                ready@ == before.ready.drop_first() + relax(row@.take(k as int), before.incoming).1,
            decreases row@.len() - k,
        {
            let (to, lag) = row[k];
            assert(g[from as int][k as int].0 < g.len());
            proof {
                assert(row@.take(k + 1).drop_last() =~= row@.take(k as int));
                lemma_prefix_arrows(row@, k as int, to as int);
                assert(arrows(row@, to as int) <= before.incoming[to as int]);
                lemma_relax_prefix(row@, before.incoming, k as int, to as int);
            }
            if lag == 0 {
                let c: u128 = incoming[to];
                incoming.set(to, c - 1);
                if c - 1 == 0 {
                    ready.push_back(to);
                }
            }
            proof {
                assert(ready@ =~= before.ready.drop_first() + relax(row@.take(k + 1), before.incoming).1);
            }
            k = k + 1;
        }
        proof {
            assert(row@.take(row@.len() as int) =~= row@);
            w = walk_step(g, before);
            fuel = (fuel - 1) as nat;
        }
    }
    order
}

proof fn lemma_prefix_arrows(row: Seq<(usize, u32)>, k: int, v: int)
    requires
        0 <= k < row.len(),
    ensures
        arrows(row.take(k + 1), v) <= arrows(row, v),
    decreases row.len(),
{
    if k + 1 == row.len() {
        assert(row.take(k + 1) =~= row);
    } else {
        lemma_prefix_arrows(row.drop_last(), k, v);
        assert(row.drop_last().take(k + 1) =~= row.take(k + 1));
    }
}

proof fn lemma_relax_prefix(row: Seq<(usize, u32)>, incoming: Seq<nat>, k: int, v: int)
    requires
        0 <= k < row.len(),
        0 <= v < incoming.len(),
        forall|j: int| 0 <= j < row.len() ==> (#[trigger] row[j]).0 < incoming.len(),
        forall|x: int| 0 <= x < incoming.len() ==> arrows(row, x) <= #[trigger] incoming[x],
    ensures
        relax(row.take(k), incoming).0[v] == incoming[v] - arrows(row.take(k), v),
        arrows(row.take(k + 1), v) <= incoming[v],
{
    let pre = row.take(k);
    assert forall|x: int| 0 <= x < incoming.len() implies arrows(pre, x) <= #[trigger] incoming[x] by {
        lemma_prefix_arrows(row, k, x);
        assert(row.take(k + 1).drop_last() =~= pre);
        assert(arrows(row, x) <= incoming[x]);
    }
    lemma_prefix_arrows(row, k, v);
    assert(arrows(row, v) <= incoming[v]);
    lemma_relax(pre, incoming);
}

/// The nodes in an order in which every node comes after its zero-lag
/// predecessors, or `None` when the zero-lag edges close a cycle.
///
/// Only zero-lag edges can deadlock a periodic schedule: positive-lag edges
/// point from earlier cycles, with the initial boundary already satisfied.
pub fn topological_order(edges: &Vec<Vec<(usize, u32)>>) -> (r: Option<Vec<usize>>)
    requires
        closed(graph_of(edges@)),
    ensures
        r is Some <==> acyclic(graph_of(edges@)),
        r matches Some(order) ==> {
            &&& order@ == walk_order(graph_of(edges@))
            &&& order@.len() == edges@.len()
            &&& order@.no_duplicates()
            &&& forall|i: int| 0 <= i < order@.len() ==> (#[trigger] order@[i]) < edges@.len()
            &&& in_topological_order(graph_of(edges@), order@)
        },
{
    let n: usize = edges.len();
    let order: Vec<usize> = walk_nodes(edges);
    proof {
        assert(graph_of(edges@).len() == n);
        walk_order_is_topological(graph_of(edges@));
        walk_is_complete_iff_acyclic(graph_of(edges@));
    }
    if order.len() != n {
        None
    } else {
        Some(order)
    }
}

/// The places in a complete topological walk number the nodes so that every
/// zero-lag edge goes up.
pub proof fn walk_order_ranks(g: Graph)
    requires
        closed(g),
        g.len() <= usize::MAX,
        acyclic(g),
    ensures
        ranks(g, Seq::new(g.len(), |v: int| walk_order(g).index_of(v as usize) as nat)),
        walk_order(g).len() == g.len(),
        forall|v: usize| v < g.len() ==> #[trigger] walk_order(g).contains(v),
{
    let order = walk_order(g);
    walk_order_is_topological(g);
    walk_is_complete_iff_acyclic(g);
    lemma_full(order, g.len());
    let rank = Seq::new(g.len(), |v: int| order.index_of(v as usize) as nat);
    assert forall|u: int, k: int|
        0 <= u < g.len() && 0 <= k < g[u].len() && (#[trigger] g[u][k]).1 == 0 implies rank[u] < rank[g[u][k].0 as int] by {
        assert(order.contains(g[u][k].0));
        assert(order.contains(u as usize));
    }
}

/// Whether a path of `n` edges leads from `from` to `to` over `lag` cycles.
pub open spec fn path(g: Graph, from: int, to: int, lag: int, n: nat) -> bool
    decreases n,
{
    if n == 0 {
        from == to && lag == 0
    } else {
        exists|mid: int, k: int| #[trigger]
            is_edge(g, mid, k, to) && path(g, from, mid, lag - g[mid][k].1, (n - 1) as nat)
    }
}

/// Whether edge `k` of `mid` leads to `to`.
pub open spec fn is_edge(g: Graph, mid: int, k: int, to: int) -> bool {
    0 <= mid < g.len() && 0 <= k < g[mid].len() && g[mid][k].0 == to
}

/// Whether `to` waits for `from` of `lag` cycles earlier: a path of at least
/// one edge leads there over exactly `lag` cycles.
pub open spec fn precedes(g: Graph, from: int, to: int, lag: int) -> bool {
    exists|n: nat| n > 0 && #[trigger] path(g, from, to, lag, n)
}

proof fn lemma_path_lag(g: Graph, from: int, to: int, lag: int, n: nat)
    requires
        path(g, from, to, lag, n),
    ensures
        lag >= 0,
    decreases n,
{
    if n > 0 {
        let (mid, k) = choose|mid: int, k: int| #[trigger]
            is_edge(g, mid, k, to) && path(g, from, mid, lag - g[mid][k].1, (n - 1) as nat);
        lemma_path_lag(g, from, mid, lag - g[mid][k].1, (n - 1) as nat);
    }
}

proof fn lemma_path_join(g: Graph, a: int, b: int, c: int, lag1: int, lag2: int, m: nat, n: nat)
    requires
        path(g, a, b, lag1, m),
        path(g, b, c, lag2, n),
    ensures
        path(g, a, c, lag1 + lag2, m + n),
    decreases n,
{
    if n > 0 {
        let (mid, k) = choose|mid: int, k: int| #[trigger]
            is_edge(g, mid, k, c) && path(g, b, mid, lag2 - g[mid][k].1, (n - 1) as nat);
        lemma_path_join(g, a, b, mid, lag1, lag2 - g[mid][k].1, m, (n - 1) as nat);
        assert(lag1 + (lag2 - g[mid][k].1) == lag1 + lag2 - g[mid][k].1);
        assert(is_edge(g, mid, k, c));
    }
}

/// Precedence is transitive, and the lags along it add up.
pub proof fn precedence_is_transitive(g: Graph, a: int, b: int, c: int, lag1: int, lag2: int)
    requires
        precedes(g, a, b, lag1),
        precedes(g, b, c, lag2),
    ensures
        precedes(g, a, c, lag1 + lag2),
{
    let m = choose|n: nat| n > 0 && #[trigger] path(g, a, b, lag1, n);
    let n = choose|n: nat| n > 0 && #[trigger] path(g, b, c, lag2, n);
    lemma_path_join(g, a, b, c, lag1, lag2, m, n);
}

/// An edge makes its end wait for its start.
pub proof fn edge_precedes(g: Graph, from: int, k: int)
    requires
        0 <= from < g.len(),
        0 <= k < g[from].len(),
    ensures
        precedes(g, from, g[from][k].0 as int, g[from][k].1 as int),
{
    assert(path(g, from, from, 0, 0));
    assert(is_edge(g, from, k, g[from][k].0 as int));
    assert(path(g, from, g[from][k].0 as int, g[from][k].1 as int, 1));
}

proof fn lemma_path_ranks(g: Graph, rank: Seq<nat>, from: int, to: int, lag: int, n: nat)
    requires
        ranks(g, rank),
        path(g, from, to, lag, n),
        lag <= 0,
        n > 0,
    ensures
        rank[from] < rank[to],
    decreases n,
{
    let (mid, k) = choose|mid: int, k: int| #[trigger]
            is_edge(g, mid, k, to) && path(g, from, mid, lag - g[mid][k].1, (n - 1) as nat);
    lemma_path_lag(g, from, mid, lag - g[mid][k].1, (n - 1) as nat);
    if n > 1 {
        lemma_path_ranks(g, rank, from, mid, lag - g[mid][k].1, (n - 1) as nat);
    }
}

/// Precedence within a cycle follows every numbering that zero-lag edges
/// go up in.
pub proof fn precedence_follows_ranks(g: Graph, rank: Seq<nat>, from: int, to: int)
    requires
        ranks(g, rank),
        precedes(g, from, to, 0),
    ensures
        rank[from] < rank[to],
{
    let n = choose|n: nat| n > 0 && #[trigger] path(g, from, to, 0, n);
    lemma_path_ranks(g, rank, from, to, 0, n);
}

/// The nodes that `v` waits for within a cycle.
spec fn waited_for(g: Graph, v: int) -> Set<int> {
    set_int_range(0, g.len() as int).filter(|u: int| precedes(g, u, v, 0))
}

/// The zero-lag edges close no cycle exactly when no node waits for itself
/// within a cycle.
pub proof fn acyclic_iff_nothing_precedes_itself(g: Graph)
    requires
        closed(g),
    ensures
        acyclic(g) <==> forall|u: int| 0 <= u < g.len() ==> !#[trigger] precedes(g, u, u, 0),
{
    if acyclic(g) {
        let rank = choose|rank: Seq<nat>| #[trigger] ranks(g, rank);
        assert forall|u: int| 0 <= u < g.len() implies !#[trigger] precedes(g, u, u, 0) by {
            if precedes(g, u, u, 0) {
                precedence_follows_ranks(g, rank, u, u);
            }
        }
    }
    if forall|u: int| 0 <= u < g.len() ==> !#[trigger] precedes(g, u, u, 0) {
        let rank = Seq::new(g.len(), |v: int| waited_for(g, v).len());
        assert forall|u: int, k: int|
            0 <= u < g.len() && 0 <= k < g[u].len() && (#[trigger] g[u][k]).1 == 0 implies rank[u] < rank[g[u][k].0 as int] by {
            let v = g[u][k].0 as int;
            edge_precedes(g, u, k);
            lemma_int_range(0, g.len() as int);
            let (before, after) = (waited_for(g, u), waited_for(g, v));
            assert(!before.contains(u));
            assert forall|w: int| #[trigger] before.insert(u).contains(w) implies after.contains(w) by {
                if w != u {
                    precedence_is_transitive(g, w, u, v, 0, 0);
                }
            }
            lemma_len_subset(before.insert(u), after);
        }
        assert(ranks(g, rank));
    }
}

/// How many entries of a row are unset.
spec fn unset(row: Seq<bool>) -> nat
    decreases row.len(),
{
    if row.len() == 0 {
        0
    } else {
        unset(row.drop_last()) + (if row.last() { 0nat } else { 1nat })
    }
}

proof fn lemma_unset(row: Seq<bool>, i: int)
    requires
        0 <= i < row.len(),
        !row[i],
    ensures
        unset(row.update(i, true)) + 1 == unset(row),
    decreases row.len(),
{
    let next = row.update(i, true);
    if i + 1 == row.len() {
        assert(next.drop_last() =~= row.drop_last());
    } else {
        lemma_unset(row.drop_last(), i);
        assert(next.drop_last() =~= row.drop_last().update(i, true));
    }
}

/// How many entries of all rows are unset.
spec fn unset_all(rows: Seq<Vec<bool>>) -> nat
    decreases rows.len(),
{
    if rows.len() == 0 {
        0
    } else {
        unset_all(rows.drop_last()) + unset(rows.last()@)
    }
}

proof fn lemma_unset_all(rows: Seq<Vec<bool>>, next: Seq<Vec<bool>>, l: int, i: int)
    requires
        0 <= l < rows.len(),
        0 <= i < rows[l]@.len(),
        !rows[l]@[i],
        next.len() == rows.len(),
        forall|j: int| 0 <= j < rows.len() && j != l ==> #[trigger] next[j] == rows[j],
        next[l]@ == rows[l]@.update(i, true),
    ensures
        unset_all(next) + 1 == unset_all(rows),
    decreases rows.len(),
{
    if l + 1 == rows.len() {
        assert(next.drop_last() =~= rows.drop_last());
        lemma_unset(rows[l]@, i);
    } else {
        lemma_unset_all(rows.drop_last(), next.drop_last(), l, i);
    }
}

/// Whether `lag` cycles after `from`, `v` is known to be reached.
spec fn marked(rows: Seq<Vec<bool>>, l: int, v: int) -> bool {
    rows[l]@[v]
}

/// What a search from `from` knows: every mark has a path behind it, and the
/// edges of each marked node that is not in `open` have been followed.
spec fn search_inv(g: Graph, from: int, to: int, lag: int, rows: Seq<Vec<bool>>, open: Seq<(usize, u32)>) -> bool {
    &&& rows.len() == lag + 1
    &&& forall|l: int| 0 <= l <= lag ==> (#[trigger] rows[l])@.len() == g.len()
    &&& marked(rows, 0, from)
    &&& forall|l: int, v: int|
        0 <= l <= lag && 0 <= v < g.len() && #[trigger] marked(rows, l, v) ==> exists|n: nat| path(g, from, v, l, n)
    &&& forall|i: int|
        0 <= i < open.len() ==> (#[trigger] open[i]).0 < g.len() && open[i].1 <= lag && marked(
            rows,
            open[i].1 as int,
            open[i].0 as int,
        )
}

/// Whether edge `k` of `v`, taken `l` cycles after the start, has been followed.
spec fn followed(g: Graph, to: int, lag: int, rows: Seq<Vec<bool>>, l: int, v: int, k: int) -> bool {
    let (w, d) = g[v][k];
    l + d <= lag ==> marked(rows, l + d, w as int) && !(w == to && l + d == lag)
}

spec fn settled(g: Graph, to: int, lag: int, rows: Seq<Vec<bool>>, open: Seq<(usize, u32)>) -> bool {
    forall|l: int, v: int, k: int|
        0 <= l <= lag && 0 <= v < g.len() && marked(rows, l, v) && !open.contains((v as usize, l as u32)) && 0 <= k
            < g[v].len() ==> #[trigger] followed(g, to, lag, rows, l, v, k)
}

proof fn lemma_settled_search(g: Graph, from: int, to: int, lag: int, rows: Seq<Vec<bool>>, v: int, l: int, n: nat)
    requires
        closed(g),
        0 <= from < g.len(),
        search_inv(g, from, to, lag, rows, Seq::empty()),
        settled(g, to, lag, rows, Seq::empty()),
        path(g, from, v, l, n),
        l <= lag,
    ensures
        0 <= v < g.len(),
        0 <= l,
        marked(rows, l, v),
        n > 0 ==> !(v == to && l == lag),
    decreases n,
{
    if n > 0 {
        let (mid, k) = choose|mid: int, k: int| #[trigger]
            is_edge(g, mid, k, v) && path(g, from, mid, l - g[mid][k].1, (n - 1) as nat);
        let before = l - g[mid][k].1;
        lemma_path_lag(g, from, mid, before, (n - 1) as nat);
        lemma_settled_search(g, from, to, lag, rows, mid, before, (n - 1) as nat);
        assert(followed(g, to, lag, rows, before, mid, k));
    }
}

/// Whether `to` waits for `from` of `lag` cycles earlier.
///
/// The search keeps one layer of marks per elapsed cycle instead of a
/// transitive-closure matrix.
pub fn reaches(edges: &Vec<Vec<(usize, u32)>>, from: usize, to: usize, lag: u32) -> (found: bool)
    requires
        closed(graph_of(edges@)),
        from < edges@.len(),
    ensures
        found == precedes(graph_of(edges@), from as int, to as int, lag as int),
{
    let n: usize = edges.len();
    let ghost g = graph_of(edges@);
    let mut visited: Vec<Vec<bool>> = Vec::new();
    let mut layer: u32 = 0;
    let mut last: bool = false;
    while !last
        invariant
            n == edges@.len(),
            layer <= lag,
            visited@.len() == (if last { lag + 1 } else { layer as int }),
            forall|l: int| 0 <= l < visited@.len() ==> (#[trigger] visited@[l])@.len() == n,
            forall|l: int, v: int| 0 <= l < visited@.len() && 0 <= v < n ==> !#[trigger] marked(visited@, l, v),
        decreases lag - layer, (if last { 0int } else { 1int }),
    {
        let mut row: Vec<bool> = Vec::new();
        while row.len() < n
            invariant
                row@.len() <= n,
                forall|v: int| 0 <= v < row@.len() ==> !#[trigger] row@[v],
            decreases n - row@.len(),
        {
            row.push(false);
        }
        let ghost before = visited@;
        visited.push(row);
        assert forall|l: int, v: int| 0 <= l < visited@.len() && 0 <= v < n implies !#[trigger] marked(visited@, l, v) by {
            if l < before.len() {
                assert(!marked(before, l, v));
            }
        }
        if layer == lag {
            last = true;
        } else {
            layer = layer + 1;
        }
    }
    let ghost blank = visited@;
    visited[0][from] = true;
    let mut ready: Vec<(usize, u32)> = Vec::new();
    ready.push((from, 0));
    proof {
        assert(path(g, from as int, from as int, 0, 0));
        assert forall|l: int, v: int| 0 <= l <= lag && 0 <= v < g.len() implies #[trigger] marked(visited@, l, v) == (l
            == 0 && v == from) by {
            assert(!marked(blank, l, v));
        }
        assert(ready@[0] == (from, 0u32));
        assert(ready@.contains((from, 0u32)));
    }
    while ready.len() > 0
        invariant
            n == edges@.len(),
            g == graph_of(edges@),
            closed(g),
            from < n,
            search_inv(g, from as int, to as int, lag as int, visited@, ready@),
            settled(g, to as int, lag as int, visited@, ready@),
        decreases unset_all(visited@), ready@.len(),
    {
        let ghost open = ready@;
        let (node, elapsed) = ready.pop().unwrap();
        let row: &Vec<(usize, u32)> = &edges[node];
        let mut k: usize = 0;
        proof {
            assert(open[open.len() - 1] == (node, elapsed));
            assert(marked(visited@, elapsed as int, node as int));
            assert forall|l: int, v: int, j: int|
                0 <= l <= lag && 0 <= v < g.len() && marked(visited@, l, v) && !ready@.contains((v as usize, l as u32))
                    && (v != node || l != elapsed || j < k) && 0 <= j < g[v].len() implies #[trigger] followed(
                g,
                to as int,
                lag as int,
                visited@,
                l,
                v,
                j,
            ) by {
                if open.contains((v as usize, l as u32)) {
                    let i = choose|i: int| 0 <= i < open.len() && open[i] == (v as usize, l as u32);
                    if i < open.len() - 1 {
                        assert(ready@[i] == (v as usize, l as u32));
                    }
                }
            }
            assert(ready@ =~= open.drop_last());
        }
        let ghost start = visited@;
        while k < row.len()
            invariant
                n == edges@.len(),
                g == graph_of(edges@),
                closed(g),
                from < n,
                node < n,
                elapsed <= lag,
                row@ == g[node as int],
                k <= row@.len(),
                marked(visited@, elapsed as int, node as int),
                search_inv(g, from as int, to as int, lag as int, visited@, ready@),
                forall|l: int, v: int, j: int|
                    0 <= l <= lag && 0 <= v < g.len() && marked(visited@, l, v) && !ready@.contains(
                        (v as usize, l as u32),
                    ) && (v != node || l != elapsed || j < k) && 0 <= j < g[v].len() ==> #[trigger] followed(
                        g,
                        to as int,
                        lag as int,
                        visited@,
                        l,
                        v,
                        j,
                    ),
                unset_all(visited@) <= unset_all(start),
                unset_all(visited@) == unset_all(start) ==> ready@.len() < open.len(),
            decreases row@.len() - k,
        {
            let (next, distance) = row[k];
            assert(g[node as int][k as int].0 < g.len());
            if distance <= lag - elapsed {
                let next_lag: u32 = elapsed + distance;
                let ghost steps = choose|n: nat| path(g, from as int, node as int, elapsed as int, n);
                proof {
                    assert(is_edge(g, node as int, k as int, next as int));
                    assert(path(g, from as int, next as int, next_lag as int, steps + 1));
                }
                if next == to && next_lag == lag {
                    return true;
                }
                let ghost rows = visited@;
                let ghost open_now = ready@;
                if !visited[next_lag as usize][next] {
                    visited[next_lag as usize][next] = true;
                    ready.push((next, next_lag));
                    proof {
                        assert(!marked(rows, next_lag as int, next as int));
                        lemma_unset_all(rows, visited@, next_lag as int, next as int);
                        assert forall|l: int, v: int| 0 <= l <= lag && 0 <= v < g.len() implies #[trigger] marked(visited@, l, v)
                            == (marked(rows, l, v) || (l == next_lag && v == next)) by {}
                        assert forall|l: int, v: int|
                            0 <= l <= lag && 0 <= v < g.len() && #[trigger] marked(visited@, l, v) implies exists|n: nat|
                            path(g, from as int, v, l, n) by {
                            if !marked(rows, l, v) {
                                assert(path(g, from as int, next as int, next_lag as int, steps + 1));
                            }
                        }
                        assert(ready@[ready@.len() - 1] == (next, next_lag));
                        assert forall|i: int| 0 <= i < ready@.len() implies marked(
                            visited@,
                            (#[trigger] ready@[i]).1 as int,
                            ready@[i].0 as int,
                        ) && ready@[i].0 < g.len() && ready@[i].1 <= lag by {
                            if i < open_now.len() {
                                assert(ready@[i] == open_now[i]);
                            }
                        }
                        assert forall|l: int, v: int, j: int|
                            0 <= l <= lag && 0 <= v < g.len() && marked(visited@, l, v) && !ready@.contains(
                                (v as usize, l as u32),
                            ) && (v != node || l != elapsed || j < k) && 0 <= j < g[v].len() implies #[trigger] followed(
                            g,
                            to as int,
                            lag as int,
                            visited@,
                            l,
                            v,
                            j,
                        ) by {
                            if open_now.contains((v as usize, l as u32)) {
                                let i = choose|i: int| 0 <= i < open_now.len() && open_now[i] == (v as usize, l as u32);
                                assert(ready@[i] == (v as usize, l as u32));
                            }
                            assert(marked(rows, l, v));
                            assert(followed(g, to as int, lag as int, rows, l, v, j));
                        }
                    }
                }
            }
            assert(followed(g, to as int, lag as int, visited@, elapsed as int, node as int, k as int));
            k = k + 1;
        }
    }
    proof {
        assert(ready@ =~= Seq::empty());
        if precedes(g, from as int, to as int, lag as int) {
            let n = choose|n: nat| n > 0 && #[trigger] path(g, from as int, to as int, lag as int, n);
            lemma_settled_search(g, from as int, to as int, lag as int, visited@, to as int, lag as int, n);
        }
    }
    false
}

/// The number of listed nodes up to the last of the first `n` that `v` waits for,
/// zero when it waits for none of them.
pub open spec fn freed(g: Graph, order: Seq<usize>, v: int, n: nat) -> nat
    decreases n,
{
    if n == 0 {
        0
    } else if arrows(g[order[n - 1] as int], v) > 0 {
        n
    } else {
        freed(g, order, v, (n - 1) as nat)
    }
}

/// The number of a row's edges up to the last zero-lag one to `v`, zero when there
/// is none.
pub open spec fn last_arrow(row: Seq<(usize, u32)>, v: int) -> nat
    decreases row.len(),
{
    if row.len() == 0 {
        0
    } else if row.last().0 == v && row.last().1 == 0 {
        row.len()
    } else {
        last_arrow(row.drop_last(), v)
    }
}

proof fn lemma_last_arrow(row: Seq<(usize, u32)>, v: int)
    ensures
        last_arrow(row, v) <= row.len(),
    decreases row.len(),
{
    if row.len() > 0 {
        lemma_last_arrow(row.drop_last(), v);
    }
}

proof fn lemma_relax_order(row: Seq<(usize, u32)>, incoming: Seq<nat>)
    requires
        forall|k: int| 0 <= k < row.len() ==> (#[trigger] row[k]).0 < incoming.len(),
        forall|v: int| 0 <= v < incoming.len() ==> arrows(row, v) <= #[trigger] incoming[v],
    ensures
        ({
            let woken = relax(row, incoming).1;
            forall|p: int, q: int|
                0 <= p < q < woken.len() ==> last_arrow(row, #[trigger] woken[p] as int) < last_arrow(
                    row,
                    #[trigger] woken[q] as int,
                )
        }),
    decreases row.len(),
{
    if row.len() > 0 {
        let pre = row.drop_last();
        assert forall|v: int| 0 <= v < incoming.len() implies arrows(pre, v) <= #[trigger] incoming[v] by {
            assert(arrows(row, v) <= incoming[v]);
        }
        lemma_relax(pre, incoming);
        lemma_relax_order(pre, incoming);
        let (to, lag) = row.last();
        assert(row[row.len() - 1].0 < incoming.len());
        assert(arrows(row, to as int) <= incoming[to as int]);
        let before = relax(pre, incoming).1;
        let woken = relax(row, incoming).1;
        assert forall|p: int| 0 <= p < before.len() implies last_arrow(row, #[trigger] before[p] as int) == last_arrow(
            pre,
            before[p] as int,
        ) && last_arrow(pre, before[p] as int) < row.len() by {
            lemma_last_arrow(pre, before[p] as int);
            assert(before.contains(before[p]));
            if lag == 0 && before[p] == to {
                assert(incoming[to as int] == arrows(pre, to as int));
            }
        }
        assert forall|p: int, q: int| 0 <= p < q < woken.len() implies last_arrow(row, #[trigger] woken[p] as int)
            < last_arrow(row, #[trigger] woken[q] as int) by {
            assert(woken[p] == before[p]);
            if q < before.len() {
                assert(woken[q] == before[q]);
            }
        }
    }
}

proof fn lemma_freed_push(g: Graph, order: Seq<usize>, x: usize, v: int, n: nat)
    requires
        n <= order.len(),
    ensures
        freed(g, order.push(x), v, n) == freed(g, order, v, n),
        freed(g, order, v, n) <= n,
    decreases n,
{
    if n > 0 {
        lemma_freed_push(g, order, x, v, (n - 1) as nat);
    }
}

/// Whether node `b` may be taken after node `a`: it became free later, or at the
/// same time and further on.
pub open spec fn takes_turn(g: Graph, order: Seq<usize>, a: usize, b: usize) -> bool {
    let s = freed(g, order, a as int, order.len());
    let t = freed(g, order, b as int, order.len());
    ||| s < t
    ||| s == t == 0 && a < b
    ||| s == t > 0 && last_arrow(g[order[s - 1] as int], a as int) < last_arrow(g[order[s - 1] as int], b as int)
}

/// Whether the nodes placed, and then those that are ready, are in the order in
/// which they became free.
spec fn first_in_first_out(g: Graph, w: Walk) -> bool {
    let all = w.order + w.ready;
    forall|a: int, b: int| 0 <= a < b < all.len() ==> takes_turn(g, w.order, #[trigger] all[a], #[trigger] all[b])
}

proof fn lemma_turns_start(g: Graph)
    requires
        closed(g),
        g.len() <= usize::MAX,
    ensures
        first_in_first_out(g, walk_start(g)),
{
    let w = walk_start(g);
    lemma_free_ascend(w.incoming, g.len());
    assert(w.order + w.ready =~= w.ready);
}

proof fn lemma_free_ascend(incoming: Seq<nat>, m: nat)
    requires
        m <= incoming.len(),
        m <= usize::MAX,
    ensures
        forall|i: int| 0 <= i < free_nodes(incoming, m).len() ==> (#[trigger] free_nodes(incoming, m)[i]) < m,
        forall|i: int, j: int|
            0 <= i < j < free_nodes(incoming, m).len() ==> #[trigger] free_nodes(incoming, m)[i] < #[trigger] free_nodes(
                incoming,
                m,
            )[j],
    decreases m,
{
    if m > 0 {
        lemma_free_ascend(incoming, (m - 1) as nat);
        let rest = free_nodes(incoming, (m - 1) as nat);
        let all = free_nodes(incoming, m);
        assert(all == rest || all == rest.push((m - 1) as usize));
        assert forall|i: int| 0 <= i < all.len() implies (#[trigger] all[i]) < m by {
            if i < rest.len() {
                assert(rest[i] < m - 1);
            }
        }
        assert forall|i: int, j: int| 0 <= i < j < all.len() implies #[trigger] all[i] < #[trigger] all[j] by {
            assert(rest[i] < m - 1);
            if j < rest.len() {
                assert(rest[i] < rest[j]);
            }
        }
    }
}

proof fn lemma_turns_step(g: Graph, w: Walk)
    requires
        closed(g),
        g.len() <= usize::MAX,
        walk_inv(g, w),
        w.ready.len() > 0,
        first_in_first_out(g, w),
    ensures
        first_in_first_out(g, walk_step(g, w)),
{
    let from = w.ready[0];
    let row = g[from as int];
    let m = w.order.len();
    let next = walk_step(g, w);
    let woken = relax(row, w.incoming).1;
    let all = w.order + w.ready;
    let more = next.order + next.ready;
    lemma_walk_step(g, w);
    assert(more =~= all + woken);
    assert(next.order == w.order.push(from));
    assert(!w.order.contains(from)) by {
        if w.order.contains(from) {
            let i = w.order.index_of(from);
            assert(w.order[i] != w.ready[0]);
        }
    }
    assert forall|k: int| 0 <= k < row.len() implies (#[trigger] row[k]).0 < w.incoming.len() by {
        assert(g[from as int][k].0 < g.len());
    }
    lemma_relax(row, w.incoming);
    lemma_relax_order(row, w.incoming);
    assert forall|a: int| 0 <= a < all.len() implies freed(g, next.order, #[trigger] all[a] as int, next.order.len())
        == freed(g, w.order, all[a] as int, m) && freed(g, w.order, all[a] as int, m) <= m by {
        let v = all[a];
        if a < m {
            assert(w.order[a] == v);
            assert(w.order.contains(v));
        } else {
            assert(w.ready[a - m] == v);
            assert(w.ready.contains(v));
        }
        assert(w.incoming[v as int] == 0);
        assert(pending(g, v as int, w.order, g.len()) == 0);
        lemma_pending_zero(g, v as int, w.order, g.len(), from as int);
        lemma_freed_push(g, w.order, from, v as int, m);
        assert(next.order[m as int] == from);
    }
    assert forall|p: int| 0 <= p < woken.len() implies freed(g, next.order, #[trigger] woken[p] as int, next.order.len())
        == m + 1 by {
        assert(woken.contains(woken[p]));
        assert(next.order[m as int] == from);
    }
    assert forall|a: int, b: int| 0 <= a < b < more.len() implies takes_turn(
        g,
        next.order,
        #[trigger] more[a],
        #[trigger] more[b],
    ) by {
        if b < all.len() {
            assert(more[a] == all[a] && more[b] == all[b]);
            assert(takes_turn(g, w.order, all[a], all[b]));
            let s = freed(g, w.order, all[a] as int, m);
            if s > 0 {
                assert(next.order[s - 1] == w.order[s - 1]);
            }
        } else {
            let q = b - all.len();
            assert(more[b] == woken[q]);
            if a < all.len() {
                assert(more[a] == all[a]);
            } else {
                assert(more[a] == woken[a - all.len()]);
                assert(next.order[m as int] == from);
            }
        }
    }
}

proof fn lemma_turns_run(g: Graph, w: Walk, fuel: nat)
    requires
        closed(g),
        g.len() <= usize::MAX,
        walk_inv(g, w),
        first_in_first_out(g, w),
    ensures
        first_in_first_out(g, walk_run(g, w, fuel)),
    decreases fuel,
{
    if fuel > 0 && w.ready.len() > 0 {
        lemma_walk_step(g, w);
        lemma_turns_step(g, w);
        lemma_turns_run(g, walk_step(g, w), (fuel - 1) as nat);
    }
}

/// Nodes are taken first-in first-out: one that becomes free earlier is taken
/// earlier. Those that wait for nothing are taken in ascending order, and those
/// that the same node sets free in the order of its edges.
pub proof fn nodes_are_taken_as_they_become_free(g: Graph, i: int, j: int)
    requires
        closed(g),
        g.len() <= usize::MAX,
        0 <= i < j < walk_order(g).len(),
    ensures
        takes_turn(g, walk_order(g), walk_order(g)[i], walk_order(g)[j]),
{
    lemma_walk_start(g);
    lemma_turns_start(g);
    lemma_turns_run(g, walk_start(g), g.len());
    lemma_walk_run(g, walk_start(g), g.len());
    let w = walk_run(g, walk_start(g), g.len());
    let all = w.order + w.ready;
    assert(all[i] == w.order[i] && all[j] == w.order[j]);
}

} // verus!
