use vstd::prelude::*;
use crate::edge::{EdgeIdView, EdgeView};
use crate::node::NodeView;

verus! {

/// A subgraph record: its id and, by position in the graph's tables, its
/// child subgraphs and the nodes and edges it holds directly.
pub struct ClusterView {
    pub id: Seq<char>,
    pub children: Seq<usize>,
    pub nodes: Seq<usize>,
    pub edges: Seq<usize>,
}

/// What a graph holds: its id, its nodes, edges and subgraph records.
/// Subgraph 0 is the root, whose id is the graph's.
pub struct GraphView {
    pub id: Seq<char>,
    pub nodes: Seq<NodeView>,
    pub edges: Seq<EdgeView>,
    pub clusters: Seq<ClusterView>,
}

/// Whether some node of `g` has id `x`.
pub open spec fn has_node(g: GraphView, x: Seq<char>) -> bool {
    exists|i: int| 0 <= i < g.nodes.len() && (#[trigger] g.nodes[i]).id == x
}

pub open spec fn node_ids_unique(g: GraphView) -> bool {
    forall|i: int, j: int|
        0 <= i < g.nodes.len() && 0 <= j < g.nodes.len() && i != j ==> (#[trigger] g.nodes[i]).id
            != (#[trigger] g.nodes[j]).id
}

pub open spec fn edge_ids_unique(g: GraphView) -> bool {
    forall|i: int, j: int|
        0 <= i < g.edges.len() && 0 <= j < g.edges.len() && i != j ==> (#[trigger] g.edges[i]).id
            != (#[trigger] g.edges[j]).id
}

pub open spec fn cluster_ids_unique(g: GraphView) -> bool {
    forall|i: int, j: int|
        0 <= i < g.clusters.len() && 0 <= j < g.clusters.len() && i != j
            ==> (#[trigger] g.clusters[i]).id != (#[trigger] g.clusters[j]).id
}

/// Every edge's endpoints are nodes of the graph.
pub open spec fn endpoints_exist(g: GraphView) -> bool {
    forall|e: int|
        0 <= e < g.edges.len() ==> has_node(g, (#[trigger] g.edges[e]).id.from) && has_node(
            g,
            g.edges[e].id.to,
        )
}

/// Every reference of a subgraph record is in range; children come after
/// their parent.
pub open spec fn references_in_range(g: GraphView) -> bool {
    forall|c: int|
        0 <= c < g.clusters.len() ==> {
            let cl = #[trigger] g.clusters[c];
            &&& forall|k: int|
                0 <= k < cl.children.len() ==> c < #[trigger] cl.children[k] < g.clusters.len()
            &&& forall|k: int| 0 <= k < cl.nodes.len() ==> #[trigger] cl.nodes[k] < g.nodes.len()
            &&& forall|k: int| 0 <= k < cl.edges.len() ==> #[trigger] cl.edges[k] < g.edges.len()
        }
}

/// Subgraph `p` lists `c` among its children.
pub open spec fn is_child(g: GraphView, p: int, c: int) -> bool {
    exists|k: int|
        0 <= k < g.clusters[p].children.len() && (#[trigger] g.clusters[p].children[k]) == c
}

/// Subgraph `c` has a parent before it.
pub open spec fn has_parent(g: GraphView, c: int) -> bool {
    exists|p: int| 0 <= p < c && #[trigger] is_child(g, p, c)
}

/// Every subgraph but the root has a parent before it.
pub open spec fn parented(g: GraphView) -> bool {
    forall|c: int| 0 < c < g.clusters.len() ==> #[trigger] has_parent(g, c)
}

/// Subgraph `c` holds node `i` directly.
pub open spec fn holds_node(g: GraphView, c: int, i: int) -> bool {
    exists|k: int| 0 <= k < g.clusters[c].nodes.len() && (#[trigger] g.clusters[c].nodes[k]) == i
}

/// Node `i` is held by some subgraph.
pub open spec fn held(g: GraphView, i: int) -> bool {
    exists|c: int| 0 <= c < g.clusters.len() && #[trigger] holds_node(g, c, i)
}

/// Every node is held by some subgraph.
pub open spec fn nodes_held(g: GraphView) -> bool {
    forall|i: int|
        0 <= i < g.nodes.len() ==> #[trigger] held(g, i)
}

/// The invariants every graph keeps: unique ids, no dangling reference, a
/// root with the graph's id from which every subgraph descends, and every
/// node held by a subgraph.
pub open spec fn wf(g: GraphView) -> bool {
    &&& node_ids_unique(g)
    &&& edge_ids_unique(g)
    &&& cluster_ids_unique(g)
    &&& endpoints_exist(g)
    &&& g.clusters.len() > 0
    &&& g.clusters[0].id == g.id
    &&& references_in_range(g)
    &&& parented(g)
    &&& nodes_held(g)
}

// ---- extraction ----

/// Node `i` is kept: its id is in `keep`.
pub open spec fn node_kept(g: GraphView, keep: Set<Seq<char>>, i: int) -> bool {
    0 <= i < g.nodes.len() && keep.contains(g.nodes[i].id)
}

/// Edge `e` is kept: both its endpoints are in `keep`.
pub open spec fn edge_kept(g: GraphView, keep: Set<Seq<char>>, e: int) -> bool {
    0 <= e < g.edges.len() && keep.contains(g.edges[e].id.from) && keep.contains(g.edges[e].id.to)
}

/// Subgraph `c` still holds something once only `keep` is kept: a kept node
/// or edge of its own, or a child that does.
pub open spec fn live(g: GraphView, keep: Set<Seq<char>>, c: int) -> bool
    decreases g.clusters.len() - c,
{
    if 0 <= c < g.clusters.len() {
        let cl = g.clusters[c];
        ||| exists|k: int| 0 <= k < cl.nodes.len() && node_kept(g, keep, #[trigger] cl.nodes[k] as int)
        ||| exists|k: int| 0 <= k < cl.edges.len() && edge_kept(g, keep, #[trigger] cl.edges[k] as int)
        ||| exists|k: int|
            0 <= k < cl.children.len() && c < #[trigger] cl.children[k] < g.clusters.len() && live(
                g,
                keep,
                cl.children[k] as int,
            )
    } else {
        false
    }
}

pub open spec fn node_flags(g: GraphView, keep: Set<Seq<char>>) -> Seq<bool> {
    Seq::new(g.nodes.len(), |i: int| node_kept(g, keep, i))
}

pub open spec fn edge_flags(g: GraphView, keep: Set<Seq<char>>) -> Seq<bool> {
    Seq::new(g.edges.len(), |e: int| edge_kept(g, keep, e))
}

pub open spec fn live_flags(g: GraphView, keep: Set<Seq<char>>) -> Seq<bool> {
    Seq::new(g.clusters.len(), |c: int| live(g, keep, c))
}

/// How many of `f[0..i]` are true: the new position of a kept entry `i`.
pub open spec fn count_true(f: Seq<bool>, i: int) -> nat
    decreases i,
{
    if i <= 0 {
        0
    } else {
        count_true(f, i - 1) + if f[i - 1] {
            1nat
        } else {
            0nat
        }
    }
}

/// The entries `s[i]` with `f[i]` true, in order.
pub open spec fn select<A>(s: Seq<A>, f: Seq<bool>) -> Seq<A>
    decreases s.len(),
{
    if s.len() == 0 {
        Seq::empty()
    } else {
        let r = select(s.drop_last(), f);
        if f[s.len() - 1] {
            r.push(s.last())
        } else {
            r
        }
    }
}

/// The positions `x` of `xs` with `f[x]` true, each moved to its new
/// position `count_true(f, x)`, in order.
pub open spec fn renumber(xs: Seq<usize>, f: Seq<bool>) -> Seq<usize>
    decreases xs.len(),
{
    if xs.len() == 0 {
        Seq::empty()
    } else {
        let r = renumber(xs.drop_last(), f);
        let x = xs.last() as int;
        if f[x] {
            r.push(count_true(f, x) as usize)
        } else {
            r
        }
    }
}

/// A subgraph record once the dropped nodes, edges and subgraphs are gone.
pub open spec fn pruned(c: ClusterView, nf: Seq<bool>, ef: Seq<bool>, lf: Seq<bool>) -> ClusterView {
    ClusterView {
        id: c.id,
        children: renumber(c.children, lf),
        nodes: renumber(c.nodes, nf),
        edges: renumber(c.edges, ef),
    }
}

/// The graph induced by the node ids `keep`: the kept nodes, the edges with
/// both endpoints kept, and the subgraphs that still hold something, each
/// trimmed to what is kept.
pub open spec fn extracted(g: GraphView, keep: Set<Seq<char>>) -> GraphView {
    let nf = node_flags(g, keep);
    let ef = edge_flags(g, keep);
    let lf = live_flags(g, keep);
    GraphView {
        id: g.id,
        nodes: select(g.nodes, nf),
        edges: select(g.edges, ef),
        clusters: select(g.clusters, lf).map_values(|c: ClusterView| pruned(c, nf, ef, lf)),
    }
}

/// Some node of `g` has its id in `keep`.
pub open spec fn keeps_some(g: GraphView, keep: Set<Seq<char>>) -> bool {
    exists|i: int| node_kept(g, keep, i)
}

// ---- lemmas on counting, selecting and renumbering ----

pub proof fn lemma_count_bounds(f: Seq<bool>, i: int, j: int)
    requires
        0 <= i <= j,
    ensures
        count_true(f, i) <= count_true(f, j),
        count_true(f, j) <= count_true(f, i) + (j - i),
        i < j && f[i] ==> count_true(f, i) < count_true(f, j),
    decreases j,
{
    if i < j {
        lemma_count_bounds(f, i, j - 1);
    }
}

/// Entry `j` of `select(s, f)` is some `s[i]` with `f[i]`, moved to `j`.
pub open spec fn selected_from<A>(s: Seq<A>, f: Seq<bool>, j: int) -> bool {
    exists|i: int|
        #![trigger count_true(f, i)]
        0 <= i < s.len() && f[i] && count_true(f, i) == j && select(s, f)[j] == s[i]
}

pub proof fn lemma_select<A>(s: Seq<A>, f: Seq<bool>)
    requires
        s.len() <= f.len(),
    ensures
        select(s, f).len() == count_true(f, s.len() as int),
        forall|i: int|
            #![trigger count_true(f, i)]
            0 <= i < s.len() && f[i] ==> count_true(f, i) < select(s, f).len() && select(s, f)[count_true(
                f,
                i,
            ) as int] == s[i],
        forall|j: int| 0 <= j < select(s, f).len() ==> #[trigger] selected_from(s, f, j),
    decreases s.len(),
{
    if s.len() > 0 {
        let n = s.len() - 1;
        let t = s.drop_last();
        lemma_select(t, f);
        assert forall|i: int|
            #![trigger count_true(f, i)]
            0 <= i < s.len() && f[i] implies count_true(f, i) < select(s, f).len() && select(s, f)[count_true(
                f,
                i,
            ) as int] == s[i] by {
            if i < n {
                assert(t[i] == s[i]);
            }
        }
        assert forall|j: int| 0 <= j < select(s, f).len() implies #[trigger] selected_from(s, f, j) by {
            if j < select(t, f).len() {
                assert(selected_from(t, f, j));
                let i = choose|i: int|
                    #![trigger count_true(f, i)]
                    0 <= i < t.len() && f[i] && count_true(f, i) == j && select(t, f)[j] == t[i];
                assert(s[i] == t[i]);
                assert(select(s, f)[j] == select(t, f)[j]);
                assert(0 <= i < s.len() && f[i] && count_true(f, i) == j && select(s, f)[j] == s[i]);
            } else {
                assert(f[n]);
                assert(count_true(f, n) == j);
                assert(select(s, f)[j] == s[n]);
            }
        }
        assert(select(s, f).len() == count_true(f, s.len() as int));
    } else {
        assert(select(s, f).len() == 0);
    }
}

/// Selecting with every flag set changes nothing.
pub proof fn lemma_select_all<A>(s: Seq<A>, f: Seq<bool>)
    requires
        s.len() <= f.len(),
        forall|i: int| 0 <= i < f.len() ==> #[trigger] f[i],
    ensures
        select(s, f) == s,
    decreases s.len(),
{
    if s.len() > 0 {
        lemma_select_all(s.drop_last(), f);
        assert(select(s, f) =~= s);
    }
}

/// With every flag set, every position keeps its place.
pub proof fn lemma_count_all(f: Seq<bool>, i: int)
    requires
        0 <= i <= f.len(),
        forall|k: int| 0 <= k < f.len() ==> #[trigger] f[k],
    ensures
        count_true(f, i) == i,
    decreases i,
{
    if i > 0 {
        lemma_count_all(f, i - 1);
    }
}

/// Entry `j` of `renumber(xs, f)` is the new position of some kept `xs[k]`.
pub open spec fn renumbered_from(xs: Seq<usize>, f: Seq<bool>, j: int) -> bool {
    exists|k: int|
        0 <= k < xs.len() && f[xs[k] as int] && #[trigger] renumber(xs, f)[j] == count_true(f, xs[k] as int) as usize
}

pub proof fn lemma_renumber(xs: Seq<usize>, f: Seq<bool>)
    requires
        forall|k: int| 0 <= k < xs.len() ==> #[trigger] xs[k] < f.len(),
    ensures
        forall|k: int|
            0 <= k < xs.len() && f[xs[k] as int] ==> renumber(xs, f).contains(
                count_true(f, #[trigger] xs[k] as int) as usize,
            ),
        forall|j: int| 0 <= j < renumber(xs, f).len() ==> #[trigger] renumbered_from(xs, f, j),
    decreases xs.len(),
{
    if xs.len() > 0 {
        let t = xs.drop_last();
        lemma_renumber(t, f);
        let r = renumber(xs, f);
        let rt = renumber(t, f);
        assert forall|k: int|
            0 <= k < xs.len() && f[xs[k] as int] implies r.contains(
            count_true(f, #[trigger] xs[k] as int) as usize,
        ) by {
            if k < t.len() {
                assert(t[k] == xs[k]);
                let v = count_true(f, t[k] as int) as usize;
                let w = choose|w: int| 0 <= w < rt.len() && rt[w] == v;
                assert(r[w] == v);
            } else {
                assert(r[r.len() - 1] == count_true(f, xs[k] as int) as usize);
            }
        }
        assert forall|j: int| 0 <= j < r.len() implies #[trigger] renumbered_from(xs, f, j) by {
            if j < rt.len() {
                assert(renumbered_from(t, f, j));
                assert(r[j] == rt[j]);
                let k = choose|k: int|
                    0 <= k < t.len() && f[t[k] as int] && #[trigger] rt[j] == count_true(f, t[k] as int) as usize;
                assert(xs[k] == t[k]);
                assert(0 <= k < xs.len() && f[xs[k] as int] && r[j] == count_true(f, xs[k] as int) as usize);
            } else {
                let k = xs.len() - 1;
                assert(r[j] == count_true(f, xs[k] as int) as usize);
                assert(0 <= k < xs.len() && f[xs[k] as int] && r[j] == count_true(f, xs[k] as int) as usize);
            }
        }
    }
}

/// Renumbering with every flag set changes nothing.
pub proof fn lemma_renumber_all(xs: Seq<usize>, f: Seq<bool>)
    requires
        forall|k: int| 0 <= k < xs.len() ==> #[trigger] xs[k] < f.len(),
        forall|i: int| 0 <= i < f.len() ==> #[trigger] f[i],
    ensures
        renumber(xs, f) == xs,
    decreases xs.len(),
{
    if xs.len() > 0 {
        let t = xs.drop_last();
        lemma_renumber_all(t, f);
        lemma_count_all(f, xs.last() as int);
        assert(renumber(xs, f) =~= xs);
    }
}

// ---- lemmas on extraction ----

/// A subgraph that still holds something makes its parent hold something.
pub proof fn lemma_live_parent(g: GraphView, keep: Set<Seq<char>>, p: int, c: int)
    requires
        references_in_range(g),
        0 <= p < g.clusters.len(),
        is_child(g, p, c),
        live(g, keep, c),
    ensures
        live(g, keep, p),
{
    let k = choose|k: int| 0 <= k < g.clusters[p].children.len() && (#[trigger] g.clusters[p].children[k]) == c;
    let cl = g.clusters[p];
    assert(p < cl.children[k] < g.clusters.len());
}

/// A subgraph that still holds something makes the root hold something.
pub proof fn lemma_live_root(g: GraphView, keep: Set<Seq<char>>, c: int)
    requires
        wf(g),
        0 <= c < g.clusters.len(),
        live(g, keep, c),
    ensures
        live(g, keep, 0),
    decreases c,
{
    if c > 0 {
        assert(has_parent(g, c));
        let p = choose|p: int| 0 <= p < c && #[trigger] is_child(g, p, c);
        lemma_live_parent(g, keep, p, c);
        lemma_live_root(g, keep, p);
    }
}

/// A subgraph holding a kept node still holds something.
pub proof fn lemma_live_holder(g: GraphView, keep: Set<Seq<char>>, c: int, i: int)
    requires
        0 <= c < g.clusters.len(),
        holds_node(g, c, i),
        node_kept(g, keep, i),
    ensures
        live(g, keep, c),
{
    let k = choose|k: int| 0 <= k < g.clusters[c].nodes.len() && (#[trigger] g.clusters[c].nodes[k]) == i;
    let cl = g.clusters[c];
    assert(node_kept(g, keep, cl.nodes[k] as int));
}

/// Where some node is kept, the root still holds something.
pub proof fn lemma_root_live(g: GraphView, keep: Set<Seq<char>>)
    requires
        wf(g),
        keeps_some(g, keep),
    ensures
        live(g, keep, 0),
{
    let i = choose|i: int| node_kept(g, keep, i);
    assert(held(g, i));
    let c = choose|c: int| 0 <= c < g.clusters.len() && #[trigger] holds_node(g, c, i);
    lemma_live_holder(g, keep, c, i);
    lemma_live_root(g, keep, c);
}

/// A kept entry's new position is below the number of kept entries.
pub proof fn lemma_rank_below(f: Seq<bool>, x: int)
    requires
        0 <= x < f.len(),
        f[x],
    ensures
        count_true(f, x) < count_true(f, f.len() as int),
{
    lemma_count_bounds(f, x, f.len() as int);
}

/// Subgraph `j` of the extracted graph is subgraph `i` of `g`, trimmed.
pub proof fn lemma_extracted_cluster(g: GraphView, keep: Set<Seq<char>>, i: int)
    requires
        0 <= i < g.clusters.len(),
        live(g, keep, i),
    ensures
        count_true(live_flags(g, keep), i) < extracted(g, keep).clusters.len(),
        extracted(g, keep).clusters[count_true(live_flags(g, keep), i) as int] == pruned(
            g.clusters[i],
            node_flags(g, keep),
            edge_flags(g, keep),
            live_flags(g, keep),
        ),
{
    let lf = live_flags(g, keep);
    lemma_select(g.clusters, lf);
    assert(lf[i]);
    assert(count_true(lf, i) < select(g.clusters, lf).len());
}

/// Extraction keeps every invariant of a graph, where some node is kept.
pub proof fn lemma_extracted_wf(g: GraphView, keep: Set<Seq<char>>)
    requires
        wf(g),
        keeps_some(g, keep),
    ensures
        wf(extracted(g, keep)),
{
    let nf = node_flags(g, keep);
    let ef = edge_flags(g, keep);
    let lf = live_flags(g, keep);
    let e = extracted(g, keep);
    let sc = select(g.clusters, lf);
    lemma_select(g.nodes, nf);
    lemma_select(g.edges, ef);
    lemma_select(g.clusters, lf);
    assert forall|i: int, j: int|
        0 <= i < e.nodes.len() && 0 <= j < e.nodes.len() && i != j implies (#[trigger] e.nodes[i]).id
        != (#[trigger] e.nodes[j]).id by {
        assert(selected_from(g.nodes, nf, i));
        assert(selected_from(g.nodes, nf, j));
    }
    assert forall|i: int, j: int|
        0 <= i < e.edges.len() && 0 <= j < e.edges.len() && i != j implies (#[trigger] e.edges[i]).id
        != (#[trigger] e.edges[j]).id by {
        assert(selected_from(g.edges, ef, i));
        assert(selected_from(g.edges, ef, j));
    }
    assert forall|i: int, j: int|
        0 <= i < e.clusters.len() && 0 <= j < e.clusters.len() && i != j implies (
        #[trigger] e.clusters[i]).id != (#[trigger] e.clusters[j]).id by {
        assert(selected_from(g.clusters, lf, i));
        assert(selected_from(g.clusters, lf, j));
        assert(e.clusters[i] == pruned(sc[i], nf, ef, lf));
        assert(e.clusters[j] == pruned(sc[j], nf, ef, lf));
    }
    assert forall|j: int| 0 <= j < e.edges.len() implies has_node(e, (#[trigger] e.edges[j]).id.from)
        && has_node(e, e.edges[j].id.to) by {
        assert(selected_from(g.edges, ef, j));
        let i = choose|i: int|
            #![trigger count_true(ef, i)]
            0 <= i < g.edges.len() && ef[i] && count_true(ef, i) == j && select(g.edges, ef)[j] == g.edges[i];
        assert(has_node(g, g.edges[i].id.from));
        assert(has_node(g, g.edges[i].id.to));
        let u = choose|u: int| 0 <= u < g.nodes.len() && (#[trigger] g.nodes[u]).id == g.edges[i].id.from;
        let v = choose|v: int| 0 <= v < g.nodes.len() && (#[trigger] g.nodes[v]).id == g.edges[i].id.to;
        assert(nf[u]);
        assert(nf[v]);
        assert(e.nodes[count_true(nf, u) as int] == g.nodes[u]);
        assert(e.nodes[count_true(nf, v) as int] == g.nodes[v]);
    }
    lemma_root_live(g, keep);
    lemma_extracted_cluster(g, keep, 0);
    assert forall|c: int| 0 <= c < e.clusters.len() implies {
        let cl = #[trigger] e.clusters[c];
        &&& forall|k: int| 0 <= k < cl.children.len() ==> c < #[trigger] cl.children[k] < e.clusters.len()
        &&& forall|k: int| 0 <= k < cl.nodes.len() ==> #[trigger] cl.nodes[k] < e.nodes.len()
        &&& forall|k: int| 0 <= k < cl.edges.len() ==> #[trigger] cl.edges[k] < e.edges.len()
    } by {
        assert(selected_from(g.clusters, lf, c));
        let i = choose|i: int|
            #![trigger count_true(lf, i)]
            0 <= i < g.clusters.len() && lf[i] && count_true(lf, i) == c && sc[c] == g.clusters[i];
        let gc = g.clusters[i];
        let cl = e.clusters[c];
        assert(cl == pruned(gc, nf, ef, lf));
        lemma_renumber(gc.children, lf);
        lemma_renumber(gc.nodes, nf);
        lemma_renumber(gc.edges, ef);
        assert forall|k: int| 0 <= k < cl.children.len() implies c < #[trigger] cl.children[k] < e.clusters.len() by {
            assert(renumbered_from(gc.children, lf, k));
            let m = choose|m: int|
                0 <= m < gc.children.len() && lf[gc.children[m] as int] && #[trigger] renumber(gc.children, lf)[k]
                    == count_true(lf, gc.children[m] as int) as usize;
            let x = gc.children[m] as int;
            lemma_count_bounds(lf, i, x);
            lemma_rank_below(lf, x);
            lemma_count_bounds(lf, 0, x);
        }
        assert forall|k: int| 0 <= k < cl.nodes.len() implies #[trigger] cl.nodes[k] < e.nodes.len() by {
            assert(renumbered_from(gc.nodes, nf, k));
            let m = choose|m: int|
                0 <= m < gc.nodes.len() && nf[gc.nodes[m] as int] && #[trigger] renumber(gc.nodes, nf)[k]
                    == count_true(nf, gc.nodes[m] as int) as usize;
            let x = gc.nodes[m] as int;
            lemma_rank_below(nf, x);
            lemma_count_bounds(nf, 0, x);
        }
        assert forall|k: int| 0 <= k < cl.edges.len() implies #[trigger] cl.edges[k] < e.edges.len() by {
            assert(renumbered_from(gc.edges, ef, k));
            let m = choose|m: int|
                0 <= m < gc.edges.len() && ef[gc.edges[m] as int] && #[trigger] renumber(gc.edges, ef)[k]
                    == count_true(ef, gc.edges[m] as int) as usize;
            let x = gc.edges[m] as int;
            lemma_rank_below(ef, x);
            lemma_count_bounds(ef, 0, x);
        }
    }
    assert forall|c: int| 0 < c < e.clusters.len() implies #[trigger] has_parent(e, c) by {
        assert(selected_from(g.clusters, lf, c));
        let i = choose|i: int|
            #![trigger count_true(lf, i)]
            0 <= i < g.clusters.len() && lf[i] && count_true(lf, i) == c && sc[c] == g.clusters[i];
        assert(i != 0);
        assert(has_parent(g, i));
        let p = choose|p: int| 0 <= p < i && #[trigger] is_child(g, p, i);
        assert(live(g, keep, i));
        lemma_live_parent(g, keep, p, i);
        lemma_extracted_cluster(g, keep, p);
        lemma_count_bounds(lf, p, i);
        let gp = g.clusters[p];
        let k = choose|k: int| 0 <= k < gp.children.len() && (#[trigger] gp.children[k]) == i;
        lemma_renumber(gp.children, lf);
        assert(lf[gp.children[k] as int]);
        let r = renumber(gp.children, lf);
        assert(r.contains(count_true(lf, gp.children[k] as int) as usize));
        lemma_count_bounds(lf, 0, i);
        assert(c as usize == c);
        let w = choose|w: int| 0 <= w < r.len() && r[w] == c as usize;
        let q = count_true(lf, p) as int;
        assert(e.clusters[q].children == r);
        assert(is_child(e, q, c));
    }
    assert forall|j: int| 0 <= j < e.nodes.len() implies #[trigger] held(e, j) by {
        assert(selected_from(g.nodes, nf, j));
        let i = choose|i: int|
            #![trigger count_true(nf, i)]
            0 <= i < g.nodes.len() && nf[i] && count_true(nf, i) == j && select(g.nodes, nf)[j] == g.nodes[i];
        assert(held(g, i));
        let c = choose|c: int| 0 <= c < g.clusters.len() && #[trigger] holds_node(g, c, i);
        lemma_live_holder(g, keep, c, i);
        lemma_extracted_cluster(g, keep, c);
        let gc = g.clusters[c];
        let k = choose|k: int| 0 <= k < gc.nodes.len() && (#[trigger] gc.nodes[k]) == i;
        lemma_renumber(gc.nodes, nf);
        let r = renumber(gc.nodes, nf);
        assert(r.contains(count_true(nf, gc.nodes[k] as int) as usize));
        lemma_count_bounds(nf, 0, i);
        assert(j as usize == j);
        let w = choose|w: int| 0 <= w < r.len() && r[w] == j as usize;
        let q = count_true(lf, c) as int;
        assert(e.clusters[q].nodes == r);
        assert(holds_node(e, q, j));
    }
}

// ---- sets of kept ids ----

/// Subgraph `c` descends from subgraph `r`, or is `r`.
pub open spec fn descends(g: GraphView, r: int, c: int) -> bool
    decreases c,
{
    0 <= r <= c < g.clusters.len() && (c == r || exists|p: int|
        r <= p < c && #[trigger] is_child(g, p, c) && descends(g, r, p))
}

/// The ids of the nodes held by subgraph `r` or by any subgraph below it.
pub open spec fn subtree_node_ids(g: GraphView, r: int) -> Set<Seq<char>> {
    Set::new(
        |x: Seq<char>|
            exists|c: int, i: int|
                descends(g, r, c) && #[trigger] holds_node(g, c, i) && g.nodes[i].id == x,
    )
}

/// Subgraph `c` holds edge `e` directly.
pub open spec fn holds_edge(g: GraphView, c: int, e: int) -> bool {
    exists|k: int| 0 <= k < g.clusters[c].edges.len() && (#[trigger] g.clusters[c].edges[k]) == e
}

/// The ids of the edges held by subgraph `r` or by any subgraph below it.
pub open spec fn subtree_edge_ids(g: GraphView, r: int) -> Set<EdgeIdView> {
    Set::new(
        |x: EdgeIdView|
            exists|c: int, e: int|
                descends(g, r, c) && #[trigger] holds_edge(g, c, e) && g.edges[e].id == x,
    )
}

/// The ids of the subgraphs below subgraph `r`.
pub open spec fn below_ids(g: GraphView, r: int) -> Set<Seq<char>> {
    Set::new(|x: Seq<char>| exists|c: int| #[trigger] descends(g, r, c) && c != r && g.clusters[c].id == x)
}

/// Whether some subgraph of `g` has id `x`.
pub open spec fn has_cluster(g: GraphView, x: Seq<char>) -> bool {
    exists|c: int| 0 <= c < g.clusters.len() && (#[trigger] g.clusters[c]).id == x
}

/// The position of the subgraph with id `x`, where there is one.
pub open spec fn cluster_index(g: GraphView, x: Seq<char>) -> int {
    choose|c: int| 0 <= c < g.clusters.len() && (#[trigger] g.clusters[c]).id == x
}

/// The ids of the nodes with an edge to node `x`.
pub open spec fn pred_ids(g: GraphView, x: Seq<char>) -> Set<Seq<char>> {
    Set::new(|y: Seq<char>| exists|e: int| 0 <= e < g.edges.len() && (#[trigger] g.edges[e]).id.from == y && g.edges[e].id.to == x)
}

/// The ids of the nodes with an edge from node `x`.
pub open spec fn succ_ids(g: GraphView, x: Seq<char>) -> Set<Seq<char>> {
    Set::new(|y: Seq<char>| exists|e: int| 0 <= e < g.edges.len() && (#[trigger] g.edges[e]).id.from == x && g.edges[e].id.to == y)
}

/// `s` starts with `p`.
pub open spec fn has_prefix(s: Seq<char>, p: Seq<char>) -> bool {
    p.len() <= s.len() && s.subrange(0, p.len() as int) == p
}

/// Every id that starts with `p`.
pub open spec fn prefixed(p: Seq<char>) -> Set<Seq<char>> {
    Set::new(|x: Seq<char>| has_prefix(x, p))
}

/// An edge joins nodes `u` and `v`, in either direction.
pub open spec fn adjacent(g: GraphView, u: int, v: int) -> bool {
    exists|e: int|
        0 <= e < g.edges.len() && ({
            let id = (#[trigger] g.edges[e]).id;
            (id.from == g.nodes[u].id && id.to == g.nodes[v].id) || (id.from == g.nodes[v].id && id.to
                == g.nodes[u].id)
        })
}

/// Node `v` is at most `d` edges, in either direction, from node `s`.
pub open spec fn within(g: GraphView, s: int, v: int, d: nat) -> bool
    decreases d,
{
    0 <= v < g.nodes.len() && (v == s || (d > 0 && exists|u: int|
        0 <= u < g.nodes.len() && #[trigger] adjacent(g, u, v) && within(g, s, u, (d - 1) as nat)))
}

/// The ids of the nodes at most `d` edges from node `s`.
pub open spec fn near_ids(g: GraphView, s: int, d: nat) -> Set<Seq<char>> {
    Set::new(|x: Seq<char>| exists|v: int| #[trigger] within(g, s, v, d) && g.nodes[v].id == x)
}

/// Extraction looks at the kept ids only through the graph's node ids.
pub proof fn lemma_extracted_agree(g: GraphView, s1: Set<Seq<char>>, s2: Set<Seq<char>>)
    requires
        wf(g),
        forall|i: int| 0 <= i < g.nodes.len() ==> s1.contains(#[trigger] g.nodes[i].id) == s2.contains(g.nodes[i].id),
    ensures
        extracted(g, s1) == extracted(g, s2),
{
    assert(node_flags(g, s1) =~= node_flags(g, s2));
    assert forall|e: int| 0 <= e < g.edges.len() implies edge_kept(g, s1, e) == edge_kept(g, s2, e) by {
        assert(has_node(g, g.edges[e].id.from));
        assert(has_node(g, g.edges[e].id.to));
        let u = choose|u: int| 0 <= u < g.nodes.len() && (#[trigger] g.nodes[u]).id == g.edges[e].id.from;
        let v = choose|v: int| 0 <= v < g.nodes.len() && (#[trigger] g.nodes[v]).id == g.edges[e].id.to;
    }
    assert(edge_flags(g, s1) =~= edge_flags(g, s2));
    assert forall|c: int| 0 <= c < g.clusters.len() implies live(g, s1, c) == live(g, s2, c) by {
        lemma_live_agree(g, s1, s2, c);
    }
    assert(live_flags(g, s1) =~= live_flags(g, s2));
}

proof fn lemma_live_agree(g: GraphView, s1: Set<Seq<char>>, s2: Set<Seq<char>>, c: int)
    requires
        wf(g),
        0 <= c < g.clusters.len(),
        forall|i: int| 0 <= i < g.nodes.len() ==> s1.contains(#[trigger] g.nodes[i].id) == s2.contains(g.nodes[i].id),
        forall|e: int| 0 <= e < g.edges.len() ==> edge_kept(g, s1, e) == edge_kept(g, s2, e),
    ensures
        live(g, s1, c) == live(g, s2, c),
    decreases g.clusters.len() - c,
{
    let cl = g.clusters[c];
    assert forall|k: int| 0 <= k < cl.nodes.len() implies node_kept(g, s1, #[trigger] cl.nodes[k] as int)
        == node_kept(g, s2, cl.nodes[k] as int) by {
        if 0 <= cl.nodes[k] < g.nodes.len() {
            assert(s1.contains(g.nodes[cl.nodes[k] as int].id) == s2.contains(g.nodes[cl.nodes[k] as int].id));
        }
    }
    assert forall|k: int| 0 <= k < cl.edges.len() implies edge_kept(g, s1, #[trigger] cl.edges[k] as int)
        == edge_kept(g, s2, cl.edges[k] as int) by {}
    assert forall|k: int| 0 <= k < cl.children.len() && c < #[trigger] cl.children[k] < g.clusters.len()
        implies live(g, s1, cl.children[k] as int) == live(g, s2, cl.children[k] as int) by {
        lemma_live_agree(g, s1, s2, cl.children[k] as int);
    }
}

/// Reaching within `d` edges implies reaching within `d + 1`.
pub proof fn lemma_within_grows(g: GraphView, s: int, v: int, d: nat)
    requires
        within(g, s, v, d),
    ensures
        within(g, s, v, d + 1),
    decreases d,
{
    if v != s {
        let u = choose|u: int| 0 <= u < g.nodes.len() && #[trigger] adjacent(g, u, v) && within(g, s, u, (d - 1) as nat);
        lemma_within_grows(g, s, u, (d - 1) as nat);
    }
}

/// Once one more step reaches nothing new, no further step does.
pub proof fn lemma_within_stable(g: GraphView, s: int, k: nat, d: nat)
    requires
        k <= d,
        forall|v: int| within(g, s, v, k + 1) == #[trigger] within(g, s, v, k),
    ensures
        forall|v: int| within(g, s, v, d) == #[trigger] within(g, s, v, k),
    decreases d - k,
{
    if k < d {
        lemma_within_stable(g, s, k, (d - 1) as nat);
        assert forall|v: int| within(g, s, v, d) == #[trigger] within(g, s, v, k) by {
            assert forall|u: int| within(g, s, u, (d - 1) as nat) == #[trigger] within(g, s, u, k) by {}
            if within(g, s, v, d) && v != s {
                let u = choose|u: int|
                    0 <= u < g.nodes.len() && #[trigger] adjacent(g, u, v) && within(g, s, u, (d - 1) as nat);
                assert(within(g, s, u, k));
                assert(within(g, s, v, k + 1));
            }
            if within(g, s, v, k) {
                assert(within(g, s, v, k + 1));
                if v != s {
                    let u = choose|u: int| 0 <= u < g.nodes.len() && #[trigger] adjacent(g, u, v) && within(g, s, u, k);
                    assert(within(g, s, u, (d - 1) as nat));
                }
            }
        }
    }
}

// ---- order ----

/// Whether some node of `nodes` has id `x`.
pub open spec fn lists_node(nodes: Seq<NodeView>, x: Seq<char>) -> bool {
    exists|i: int| 0 <= i < nodes.len() && (#[trigger] nodes[i]).id == x
}

/// `order` lists the id of every node exactly once, and for every edge the
/// id of its source before the id of its destination.
pub open spec fn is_topological(nodes: Seq<NodeView>, edges: Seq<EdgeView>, order: Seq<Seq<char>>) -> bool {
    &&& forall|i: int, j: int| 0 <= i < j < order.len() ==> #[trigger] order[i] != #[trigger] order[j]
    &&& forall|i: int| 0 <= i < order.len() ==> lists_node(nodes, #[trigger] order[i])
    &&& forall|v: int| 0 <= v < nodes.len() ==> order.contains(#[trigger] nodes[v].id)
    &&& forall|e: int, i: int, j: int|
        0 <= e < edges.len() && 0 <= i < order.len() && 0 <= j < order.len() && #[trigger] order[i]
            == (#[trigger] edges[e]).id.from && #[trigger] order[j] == edges[e].id.to ==> i < j
}

/// The nodes can be put in an order that every edge follows.
pub open spec fn acyclic(nodes: Seq<NodeView>, edges: Seq<EdgeView>) -> bool {
    exists|order: Seq<Seq<char>>| is_topological(nodes, edges, order)
}

/// Some edge of `edges` runs from `x` to `y`.
pub open spec fn has_edge(edges: Seq<EdgeView>, x: Seq<char>, y: Seq<char>) -> bool {
    exists|e: int| 0 <= e < edges.len() && (#[trigger] edges[e]).id.from == x && edges[e].id.to == y
}

/// `path` follows edges and ends where it starts: a directed cycle.
pub open spec fn is_cycle(edges: Seq<EdgeView>, path: Seq<Seq<char>>) -> bool {
    &&& path.len() >= 2
    &&& path[0] == path[path.len() - 1]
    &&& forall|k: int| 0 <= k < path.len() - 1 ==> has_edge(edges, #[trigger] path[k], path[k + 1])
}

/// Along a path, each id comes later in a topological order than the first.
proof fn lemma_path_rises(
    nodes: Seq<NodeView>,
    edges: Seq<EdgeView>,
    order: Seq<Seq<char>>,
    path: Seq<Seq<char>>,
    k: int,
)
    requires
        is_topological(nodes, edges, order),
        forall|e: int| 0 <= e < edges.len() ==> lists_node(nodes, (#[trigger] edges[e]).id.from) && lists_node(nodes, edges[e].id.to),
        path.len() >= 2,
        forall|m: int| 0 <= m < path.len() - 1 ==> has_edge(edges, #[trigger] path[m], path[m + 1]),
        1 <= k < path.len(),
    ensures
        exists|i: int, j: int| 0 <= i < j < order.len() && #[trigger] order[i] == path[0] && #[trigger] order[j] == path[k],
    decreases k,
{
    let e = choose|e: int| 0 <= e < edges.len() && (#[trigger] edges[e]).id.from == path[k - 1] && edges[e].id.to == path[k];
    let a = choose|a: int| 0 <= a < nodes.len() && (#[trigger] nodes[a]).id == edges[e].id.from;
    let b = choose|b: int| 0 <= b < nodes.len() && (#[trigger] nodes[b]).id == edges[e].id.to;
    assert(order.contains(nodes[a].id));
    assert(order.contains(nodes[b].id));
    let i = choose|i: int| 0 <= i < order.len() && order[i] == nodes[a].id;
    let j = choose|j: int| 0 <= j < order.len() && order[j] == nodes[b].id;
    assert(i < j);
    if k == 1 {
        assert(order[i] == path[0]);
    } else {
        lemma_path_rises(nodes, edges, order, path, k - 1);
        let (i2, j2) = choose|i2: int, j2: int| 0 <= i2 < j2 < order.len() && #[trigger] order[i2] == path[0] && #[trigger] order[j2] == path[k - 1];
        if j2 != i {
            assert(order[j2] == order[i]);
        }
    }
}

/// A graph whose edges hold a directed cycle has no topological order.
pub proof fn lemma_cycle_not_acyclic(nodes: Seq<NodeView>, edges: Seq<EdgeView>, path: Seq<Seq<char>>)
    requires
        forall|e: int| 0 <= e < edges.len() ==> lists_node(nodes, (#[trigger] edges[e]).id.from) && lists_node(nodes, edges[e].id.to),
        is_cycle(edges, path),
    ensures
        !acyclic(nodes, edges),
{
    if acyclic(nodes, edges) {
        let order = choose|order: Seq<Seq<char>>| is_topological(nodes, edges, order);
        lemma_path_rises(nodes, edges, order, path, path.len() - 1);
        let (i, j) = choose|i: int, j: int| 0 <= i < j < order.len() && #[trigger] order[i] == path[0] && #[trigger] order[j] == path[path.len() - 1];
        assert(order[i] == order[j]);
    }
}

} // verus!
