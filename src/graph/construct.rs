use vstd::prelude::*;
use super::{edges_view, ends_match, make_edge_maps, nodes_view, clusters_view, Graph, SubGraph};
use super::topo::cycle_error;
use crate::edge::{Edge, EdgeId, EdgeIdView, EdgeView};
use crate::error::DotGraphError;
use crate::model::{acyclic, lists_node, wf, ClusterView, GraphView};
use crate::node::{Node, NodeView};

verus! {

/// A container as a parser hands it over: an id, the containers nested in
/// it, and the nodes and edges declared directly in it.
#[derive(Debug)]
pub struct IGraph {
    pub id: String,
    pub igraphs: Vec<IGraph>,
    pub nodes: Vec<Node>,
    pub edges: Vec<Edge>,
}

impl IGraph {
    pub fn new(id: String, igraphs: Vec<IGraph>, nodes: Vec<Node>, edges: Vec<Edge>) -> (r: IGraph)
        ensures
            r.id == id,
            r.igraphs == igraphs,
            r.nodes == nodes,
            r.edges == edges,
    {
        IGraph { id, igraphs, nodes, edges }
    }
}

/// The containers of a tree in preorder: the container, then the
/// containers of each child in turn.
pub open spec fn flat(t: IGraph) -> Seq<IGraph>
    decreases t,
{
    seq![t] + flat_all(t.igraphs@)
}

/// The preorders of a list of trees, one after the other.
pub open spec fn flat_all(ts: Seq<IGraph>) -> Seq<IGraph>
    decreases ts,
{
    if ts.len() == 0 {
        Seq::empty()
    } else {
        flat_all(ts.drop_last()) + flat(ts.last())
    }
}

/// Some edge of `edges` has id `x`.
pub open spec fn lists_edge(edges: Seq<EdgeView>, x: EdgeIdView) -> bool {
    exists|e: int| 0 <= e < edges.len() && (#[trigger] edges[e]).id == x
}

/// Every node and edge declared in the tree is among `nodes` and `edges`,
/// by id.
pub open spec fn resolves(t: IGraph, nodes: Seq<NodeView>, edges: Seq<EdgeView>) -> bool
    decreases t,
{
    &&& forall|k: int| 0 <= k < t.nodes.len() ==> lists_node(nodes, (#[trigger] t.nodes@[k])@.id)
    &&& forall|k: int| 0 <= k < t.edges.len() ==> lists_edge(edges, (#[trigger] t.edges@[k])@.id)
    &&& forall|k: int| 0 <= k < t.igraphs.len() ==> resolves(#[trigger] t.igraphs@[k], nodes, edges)
}

/// Record `c` of `recs` stands for container `t`: same id, and children,
/// nodes and edges that are those of `t`, in order, by id.
pub open spec fn record_matches(recs: Seq<ClusterView>, c: int, t: IGraph, nodes: Seq<NodeView>, edges: Seq<EdgeView>) -> bool {
    let r = recs[c];
    &&& r.id == t.id@
    &&& r.children.len() == t.igraphs.len()
    &&& forall|k: int|
        0 <= k < r.children.len() ==> c < #[trigger] r.children[k] < recs.len() && recs[r.children[k] as int].id
            == t.igraphs@[k].id@
    &&& r.nodes.len() == t.nodes.len()
    &&& forall|k: int|
        0 <= k < r.nodes.len() ==> #[trigger] r.nodes[k] < nodes.len() && nodes[r.nodes[k] as int].id == t.nodes@[k]@.id
    &&& r.edges.len() == t.edges.len()
    &&& forall|k: int|
        0 <= k < r.edges.len() ==> #[trigger] r.edges[k] < edges.len() && edges[r.edges[k] as int].id == t.edges@[k]@.id
}

/// Record `p` lists `c` among its children.
pub open spec fn child_of(recs: Seq<ClusterView>, p: int, c: int) -> bool {
    exists|k: int| 0 <= k < recs[p].children.len() && (#[trigger] recs[p].children[k]) == c
}

/// Record `c` has a parent at or after `lo` and before itself.
pub open spec fn parent_in(recs: Seq<ClusterView>, lo: int, c: int) -> bool {
    exists|p: int| lo <= p < c && #[trigger] child_of(recs, p, c)
}

/// `after` is `before` followed by one record for each container of `f`.
pub open spec fn encoded(
    before: Seq<ClusterView>,
    after: Seq<ClusterView>,
    f: Seq<IGraph>,
    nodes: Seq<NodeView>,
    edges: Seq<EdgeView>,
) -> bool {
    &&& after.len() == before.len() + f.len()
    &&& after.subrange(0, before.len() as int) == before
    &&& forall|q: int| 0 <= q < f.len() ==> record_matches(after, before.len() + q, #[trigger] f[q], nodes, edges)
    &&& forall|c: int| before.len() < c < after.len() ==> #[trigger] parent_in(after, before.len() as int, c)
}

/// A record stays matched where only later records are appended or only
/// an earlier record changes.
proof fn lemma_record_stable(
    a: Seq<ClusterView>,
    b: Seq<ClusterView>,
    c: int,
    p: int,
    t: IGraph,
    nodes: Seq<NodeView>,
    edges: Seq<EdgeView>,
)
    requires
        0 <= c < a.len() <= b.len(),
        record_matches(a, c, t, nodes, edges),
        p < c,
        forall|i: int| 0 <= i < a.len() && i != p ==> #[trigger] b[i] == a[i],
    ensures
        record_matches(b, c, t, nodes, edges),
{
    let r = a[c];
    assert(b[c] == r);
    assert forall|k: int| 0 <= k < r.children.len() implies c < #[trigger] r.children[k] < b.len()
        && b[r.children[k] as int].id == t.igraphs@[k].id@ by {
        assert(b[r.children[k] as int] == a[r.children[k] as int]);
    }
}

proof fn lemma_flat_first(t: IGraph)
    ensures
        flat(t).len() >= 1,
        flat(t)[0] == t,
{
}

/// The position of the node with id `id` in `nodes`.
fn node_position(nodes: &Vec<Node>, id: &String) -> (r: Option<usize>)
    ensures
        r matches Some(i) ==> i < nodes.len() && nodes@[i as int]@.id == id@,
        r is None ==> !lists_node(nodes_view(nodes@), id@),
{
    let mut i: usize = 0;
    while i < nodes.len()
        invariant
            i <= nodes.len(),
            forall|k: int| 0 <= k < i ==> (#[trigger] nodes@[k])@.id != id@,
        decreases nodes.len() - i,
    {
        if *nodes[i].id() == *id {
            return Some(i);
        }
        i = i + 1;
    }
    proof {
        assert forall|k: int| 0 <= k < nodes@.len() implies (#[trigger] nodes_view(nodes@)[k]).id != id@ by {
            assert(nodes_view(nodes@)[k] == nodes@[k]@);
        }
    }
    None
}

/// The position of the edge with id `id` in `edges`.
fn edge_position(edges: &Vec<Edge>, id: &EdgeId) -> (r: Option<usize>)
    ensures
        r matches Some(i) ==> i < edges.len() && edges@[i as int]@.id == id@,
        r is None ==> !lists_edge(edges_view(edges@), id@),
{
    let mut i: usize = 0;
    while i < edges.len()
        invariant
            i <= edges.len(),
            forall|k: int| 0 <= k < i ==> (#[trigger] edges@[k])@.id != id@,
        decreases edges.len() - i,
    {
        if edges[i].id().same(id) {
            return Some(i);
        }
        i = i + 1;
    }
    proof {
        assert forall|k: int| 0 <= k < edges@.len() implies (#[trigger] edges_view(edges@)[k]).id != id@ by {
            assert(edges_view(edges@)[k] == edges@[k]@);
        }
    }
    None
}

/// The positions of the nodes declared directly in `t`.
fn resolve_nodes(t: &IGraph, nodes: &Vec<Node>) -> (r: Option<Vec<usize>>)
    ensures
        r is Some <==> forall|k: int| 0 <= k < t.nodes.len() ==> lists_node(nodes_view(nodes@), (#[trigger] t.nodes@[k])@.id),
        r matches Some(v) ==> v.len() == t.nodes.len() && forall|k: int|
            0 <= k < v.len() ==> #[trigger] v[k] < nodes.len() && nodes_view(nodes@)[v[k] as int].id == t.nodes@[k]@.id,
{
    let mut v: Vec<usize> = Vec::new();
    let mut k: usize = 0;
    while k < t.nodes.len()
        invariant
            k <= t.nodes.len(),
            v.len() == k,
            forall|j: int| 0 <= j < k ==> lists_node(nodes_view(nodes@), (#[trigger] t.nodes@[j])@.id),
            forall|j: int| 0 <= j < k ==> #[trigger] v[j] < nodes.len() && nodes_view(nodes@)[v[j] as int].id == t.nodes@[j]@.id,
        decreases t.nodes.len() - k,
    {
        match node_position(nodes, t.nodes[k].id()) {
            None => {
                return None;
            },
            Some(i) => {
                assert(nodes_view(nodes@)[i as int] == nodes@[i as int]@);
                v.push(i);
            },
        }
        k = k + 1;
    }
    Some(v)
}

/// The positions of the edges declared directly in `t`.
fn resolve_edges(t: &IGraph, edges: &Vec<Edge>) -> (r: Option<Vec<usize>>)
    ensures
        r is Some <==> forall|k: int| 0 <= k < t.edges.len() ==> lists_edge(edges_view(edges@), (#[trigger] t.edges@[k])@.id),
        r matches Some(v) ==> v.len() == t.edges.len() && forall|k: int|
            0 <= k < v.len() ==> #[trigger] v[k] < edges.len() && edges_view(edges@)[v[k] as int].id == t.edges@[k]@.id,
{
    let mut v: Vec<usize> = Vec::new();
    let mut k: usize = 0;
    while k < t.edges.len()
        invariant
            k <= t.edges.len(),
            v.len() == k,
            forall|j: int| 0 <= j < k ==> lists_edge(edges_view(edges@), (#[trigger] t.edges@[j])@.id),
            forall|j: int| 0 <= j < k ==> #[trigger] v[j] < edges.len() && edges_view(edges@)[v[j] as int].id == t.edges@[j]@.id,
        decreases t.edges.len() - k,
    {
        match edge_position(edges, t.edges[k].id()) {
            None => {
                return None;
            },
            Some(i) => {
                assert(edges_view(edges@)[i as int] == edges@[i as int]@);
                v.push(i);
            },
        }
        k = k + 1;
    }
    Some(v)
}

/// Appends one record per container of `t`, in preorder, with children,
/// nodes and edges by position; `false` where some declared node or edge
/// is not among `nodes` or `edges`.
fn encode(t: &IGraph, nodes: &Vec<Node>, edges: &Vec<Edge>, out: &mut Vec<SubGraph>) -> (ok: bool)
    ensures
        ok == resolves(*t, nodes_view(nodes@), edges_view(edges@)),
        ok ==> encoded(
            clusters_view(old(out)@),
            clusters_view(final(out)@),
            flat(*t),
            nodes_view(nodes@),
            edges_view(edges@),
        ),
    decreases t,
{
    let ghost nv = nodes_view(nodes@);
    let ghost ev = edges_view(edges@);
    let ghost before = clusters_view(out@);
    let own_nodes = match resolve_nodes(t, nodes) {
        None => {
            return false;
        },
        Some(v) => v,
    };
    let own_edges = match resolve_edges(t, edges) {
        None => {
            return false;
        },
        Some(v) => v,
    };
    let p = out.len();
    out.push(SubGraph { id: String::new(), subgraph_ids: Vec::new(), node_ids: Vec::new(), edge_ids: Vec::new() });
    let mut children: Vec<usize> = Vec::new();
    let mut k: usize = 0;
    while k < t.igraphs.len()
        invariant
            nv == nodes_view(nodes@),
            ev == edges_view(edges@),
            p == before.len(),
            k <= t.igraphs.len(),
            out.len() == p + 1 + flat_all(t.igraphs@.take(k as int)).len(),
            clusters_view(out@).subrange(0, p as int) == before,
            children.len() == k,
            forall|j: int| 0 <= j < k ==> resolves(#[trigger] t.igraphs@[j], nv, ev),
            forall|j: int|
                0 <= j < k ==> p < #[trigger] children[j] < out.len() && clusters_view(out@)[children[j] as int].id
                    == t.igraphs@[j].id@,
            forall|q: int|
                0 <= q < flat_all(t.igraphs@.take(k as int)).len() ==> record_matches(
                    clusters_view(out@),
                    p + 1 + q,
                    #[trigger] flat_all(t.igraphs@.take(k as int))[q],
                    nv,
                    ev,
                ),
            forall|c: int|
                p < c < out.len() ==> children@.contains(c as usize) || #[trigger] parent_in(
                    clusters_view(out@),
                    p + 1,
                    c,
                ),
        decreases t.igraphs.len() - k,
    {
        let ghost mid = clusters_view(out@);
        let ghost fa = flat_all(t.igraphs@.take(k as int));
        let ghost ch = t.igraphs@[k as int];
        let c = out.len();
        let ok = encode(&t.igraphs[k], nodes, edges, out);
        if !ok {
            proof {
                assert(!resolves(ch, nv, ev));
            }
            return false;
        }
        let ghost after = clusters_view(out@);
        proof {
            lemma_flat_first(ch);
            assert(t.igraphs@.take(k + 1).drop_last() == t.igraphs@.take(k as int));
            assert(t.igraphs@.take(k + 1).last() == ch);
            let fa2 = flat_all(t.igraphs@.take(k + 1));
            assert(fa2 == fa + flat(ch));
            assert forall|i: int| 0 <= i < mid.len() implies #[trigger] after[i] == mid[i] by {
                assert(after.subrange(0, mid.len() as int)[i] == after[i]);
            }
            assert forall|q: int| 0 <= q < fa2.len() implies record_matches(after, p + 1 + q, #[trigger] fa2[q], nv, ev) by {
                if q < fa.len() {
                    assert(fa2[q] == fa[q]);
                    lemma_record_stable(mid, after, p + 1 + q, -1, fa[q], nv, ev);
                } else {
                    assert(fa2[q] == flat(ch)[q - fa.len()]);
                }
            }
            assert(after[c as int].id == ch.id@);
        }
        let ghost old_ch = children@;
        children.push(c);
        proof {
            assert forall|j: int| 0 <= j < k + 1 implies p < #[trigger] children[j] < out.len() && clusters_view(out@)[children[j] as int].id
                == t.igraphs@[j].id@ by {
                if j < k {
                    assert(after[children[j] as int] == mid[children[j] as int]);
                }
            }
            assert forall|x: int| p < x < out.len() implies children@.contains(x as usize) || #[trigger] parent_in(after, p + 1, x) by {
                if x < c {
                    if !children@.contains(x as usize) {
                        let old_children = old_ch;
                        assert(children@.drop_last() == old_ch);
                        if old_children.contains(x as usize) {
                            let z = choose|z: int| 0 <= z < old_children.len() && old_children[z] == x as usize;
                            assert(children@[z] == x as usize);
                        }
                        assert(parent_in(mid, p + 1, x));
                        let pp = choose|pp: int| p + 1 <= pp < x && #[trigger] child_of(mid, pp, x);
                        assert(after[pp] == mid[pp]);
                        assert(child_of(after, pp, x));
                    }
                } else if x == c {
                    assert(children@[k as int] == x as usize);
                } else {
                    assert(parent_in(after, c as int, x));
                    let pp = choose|pp: int| c <= pp < x && #[trigger] child_of(after, pp, x);
                    assert(child_of(after, pp, x));
                }
            }
            assert(clusters_view(out@).subrange(0, p as int) == before) by {
                assert forall|i: int| 0 <= i < p implies clusters_view(out@).subrange(0, p as int)[i] == before[i] by {
                    assert(after[i] == mid[i]);
                    assert(mid.subrange(0, p as int)[i] == mid[i]);
                }
                assert(clusters_view(out@).subrange(0, p as int) =~= before);
            }
        }
        k = k + 1;
    }
    let ghost mid = clusters_view(out@);
    let rec = SubGraph { id: t.id.clone(), subgraph_ids: children, node_ids: own_nodes, edge_ids: own_edges };
    out.set(p, rec);
    proof {
        let fin = clusters_view(out@);
        let f = flat(*t);
        assert(t.igraphs@.take(t.igraphs.len() as int) == t.igraphs@);
        let fa = flat_all(t.igraphs@);
        assert(f == seq![*t] + fa);
        assert forall|i: int| 0 <= i < mid.len() && i != p implies #[trigger] fin[i] == mid[i] by {}
        assert(fin[p as int] == rec@);
        assert(record_matches(fin, p as int, *t, nv, ev)) by {
            assert forall|j: int| 0 <= j < rec@.children.len() implies p < #[trigger] rec@.children[j] < fin.len()
                && fin[rec@.children[j] as int].id == t.igraphs@[j].id@ by {
                assert(rec@.children[j] == children[j]);
                assert(fin[children[j] as int] == mid[children[j] as int]);
            }
            assert forall|j: int| 0 <= j < rec@.nodes.len() implies #[trigger] rec@.nodes[j] < nv.len()
                && nv[rec@.nodes[j] as int].id == t.nodes@[j]@.id by {
                assert(rec@.nodes[j] == own_nodes[j]);
            }
            assert forall|j: int| 0 <= j < rec@.edges.len() implies #[trigger] rec@.edges[j] < ev.len()
                && ev[rec@.edges[j] as int].id == t.edges@[j]@.id by {
                assert(rec@.edges[j] == own_edges[j]);
            }
        }
        assert forall|q: int| 0 <= q < f.len() implies record_matches(fin, before.len() + q, #[trigger] f[q], nv, ev) by {
            if q == 0 {
            } else {
                assert(f[q] == fa[q - 1]);
                lemma_record_stable(mid, fin, p + q, p as int, fa[q - 1], nv, ev);
            }
        }
        assert forall|x: int| before.len() < x < fin.len() implies #[trigger] parent_in(fin, before.len() as int, x) by {
            if children@.contains(x as usize) {
                let z = choose|z: int| 0 <= z < children.len() && children@[z] == x as usize;
                assert(fin[p as int].children[z] == x);
                assert(child_of(fin, p as int, x));
            } else {
                assert(parent_in(mid, p + 1, x));
                let pp = choose|pp: int| p + 1 <= pp < x && #[trigger] child_of(mid, pp, x);
                assert(fin[pp] == mid[pp]);
                assert(child_of(fin, pp, x));
            }
        }
        assert(fin.subrange(0, before.len() as int) =~= before) by {
            assert forall|i: int| 0 <= i < before.len() implies fin.subrange(0, before.len() as int)[i] == before[i] by {
                assert(mid.subrange(0, p as int)[i] == mid[i]);
            }
        }
        assert(resolves(*t, nv, ev));
    }
    true
}

/// Some container of `f` declares a node with id `x`.
pub open spec fn declared(f: Seq<IGraph>, x: Seq<char>) -> bool {
    exists|q: int, k: int| 0 <= q < f.len() && 0 <= k < f[q].nodes.len() && (#[trigger] f[q].nodes@[k])@.id == x
}

/// What construction asks of its input: the root carries the graph's id;
/// node ids, edge ids and container ids are each unique; every edge's
/// endpoints and every declared node and edge are among `nodes` and
/// `edges`; and every node is declared in some container.
pub open spec fn valid_input(id: Seq<char>, root: IGraph, nodes: Seq<NodeView>, edges: Seq<EdgeView>) -> bool {
    let f = flat(root);
    &&& root.id@ == id
    &&& forall|i: int, j: int|
        0 <= i < nodes.len() && 0 <= j < nodes.len() && i != j ==> (#[trigger] nodes[i]).id != (#[trigger] nodes[j]).id
    &&& forall|i: int, j: int|
        0 <= i < edges.len() && 0 <= j < edges.len() && i != j ==> (#[trigger] edges[i]).id != (#[trigger] edges[j]).id
    &&& forall|e: int|
        0 <= e < edges.len() ==> lists_node(nodes, (#[trigger] edges[e]).id.from) && lists_node(nodes, edges[e].id.to)
    &&& resolves(root, nodes, edges)
    &&& forall|a: int, b: int| 0 <= a < f.len() && 0 <= b < f.len() && a != b ==> (#[trigger] f[a]).id@ != (#[trigger] f[b]).id@
    &&& forall|i: int| 0 <= i < nodes.len() ==> declared(f, #[trigger] nodes[i].id)
}

/// `g` holds exactly the input: its id, nodes and edges, and one subgraph
/// record per container of `root` in preorder.
pub open spec fn built_from(g: GraphView, id: Seq<char>, root: IGraph, nodes: Seq<NodeView>, edges: Seq<EdgeView>) -> bool {
    &&& g.id == id
    &&& g.nodes == nodes
    &&& g.edges == edges
    &&& g.clusters.len() == flat(root).len()
    &&& forall|c: int| 0 <= c < g.clusters.len() ==> record_matches(g.clusters, c, #[trigger] flat(root)[c], nodes, edges)
}

/// `e` is the error for an ill-formed input to graph `gid`.
pub open spec fn invalid_error(e: DotGraphError, gid: Seq<char>) -> bool {
    match e {
        DotGraphError::InvalidGraph(a) => a@ == gid,
        _ => false,
    }
}

fn distinct_node_ids(nodes: &Vec<Node>) -> (r: bool)
    ensures
        r == forall|i: int, j: int|
            0 <= i < nodes.len() && 0 <= j < nodes.len() && i != j ==> (#[trigger] nodes_view(nodes@)[i]).id
                != (#[trigger] nodes_view(nodes@)[j]).id,
{
    let ghost nv = nodes_view(nodes@);
    let mut i: usize = 0;
    while i < nodes.len()
        invariant
            nv == nodes_view(nodes@),
            i <= nodes.len(),
            forall|a: int, b: int| 0 <= a < i && 0 <= b < nodes.len() && a != b ==> (#[trigger] nv[a]).id != (#[trigger] nv[b]).id,
        decreases nodes.len() - i,
    {
        let mut j: usize = 0;
        while j < nodes.len()
            invariant
                nv == nodes_view(nodes@),
                i < nodes.len(),
                j <= nodes.len(),
                forall|a: int, b: int| 0 <= a < i && 0 <= b < nodes.len() && a != b ==> (#[trigger] nv[a]).id != (#[trigger] nv[b]).id,
                forall|b: int| 0 <= b < j && b != i ==> nv[i as int].id != (#[trigger] nv[b]).id,
            decreases nodes.len() - j,
        {
            assert(nv[i as int] == nodes@[i as int]@ && nv[j as int] == nodes@[j as int]@);
            if j != i && *nodes[i].id() == *nodes[j].id() {
                return false;
            }
            j = j + 1;
        }
        i = i + 1;
    }
    true
}

fn distinct_edge_ids(edges: &Vec<Edge>) -> (r: bool)
    ensures
        r == forall|i: int, j: int|
            0 <= i < edges.len() && 0 <= j < edges.len() && i != j ==> (#[trigger] edges_view(edges@)[i]).id
                != (#[trigger] edges_view(edges@)[j]).id,
{
    let ghost ev = edges_view(edges@);
    let mut i: usize = 0;
    while i < edges.len()
        invariant
            ev == edges_view(edges@),
            i <= edges.len(),
            forall|a: int, b: int| 0 <= a < i && 0 <= b < edges.len() && a != b ==> (#[trigger] ev[a]).id != (#[trigger] ev[b]).id,
        decreases edges.len() - i,
    {
        let mut j: usize = 0;
        while j < edges.len()
            invariant
                ev == edges_view(edges@),
                i < edges.len(),
                j <= edges.len(),
                forall|a: int, b: int| 0 <= a < i && 0 <= b < edges.len() && a != b ==> (#[trigger] ev[a]).id != (#[trigger] ev[b]).id,
                forall|b: int| 0 <= b < j && b != i ==> ev[i as int].id != (#[trigger] ev[b]).id,
            decreases edges.len() - j,
        {
            assert(ev[i as int] == edges@[i as int]@ && ev[j as int] == edges@[j as int]@);
            if j != i && edges[i].id().same(edges[j].id()) {
                return false;
            }
            j = j + 1;
        }
        i = i + 1;
    }
    true
}

fn distinct_subgraph_ids(out: &Vec<SubGraph>) -> (r: bool)
    ensures
        r == forall|i: int, j: int|
            0 <= i < out.len() && 0 <= j < out.len() && i != j ==> (#[trigger] clusters_view(out@)[i]).id
                != (#[trigger] clusters_view(out@)[j]).id,
{
    let ghost cv = clusters_view(out@);
    let mut i: usize = 0;
    while i < out.len()
        invariant
            cv == clusters_view(out@),
            i <= out.len(),
            forall|a: int, b: int| 0 <= a < i && 0 <= b < out.len() && a != b ==> (#[trigger] cv[a]).id != (#[trigger] cv[b]).id,
        decreases out.len() - i,
    {
        let mut j: usize = 0;
        while j < out.len()
            invariant
                cv == clusters_view(out@),
                i < out.len(),
                j <= out.len(),
                forall|a: int, b: int| 0 <= a < i && 0 <= b < out.len() && a != b ==> (#[trigger] cv[a]).id != (#[trigger] cv[b]).id,
                forall|b: int| 0 <= b < j && b != i ==> cv[i as int].id != (#[trigger] cv[b]).id,
            decreases out.len() - j,
        {
            assert(cv[i as int] == out@[i as int]@ && cv[j as int] == out@[j as int]@);
            if j != i && out[i].id == out[j].id {
                return false;
            }
            j = j + 1;
        }
        i = i + 1;
    }
    true
}

/// The positions of every edge's endpoints; `None` where an endpoint is
/// not among the nodes.
fn edge_ends(nodes: &Vec<Node>, edges: &Vec<Edge>) -> (r: Option<Vec<(usize, usize)>>)
    ensures
        r is Some <==> forall|e: int|
            0 <= e < edges.len() ==> lists_node(nodes_view(nodes@), (#[trigger] edges_view(edges@)[e]).id.from)
                && lists_node(nodes_view(nodes@), edges_view(edges@)[e].id.to),
        r matches Some(v) ==> ends_match(
            GraphView { id: Seq::empty(), nodes: nodes_view(nodes@), edges: edges_view(edges@), clusters: Seq::empty() },
            v@,
        ),
{
    let ghost nv = nodes_view(nodes@);
    let ghost ev = edges_view(edges@);
    let mut v: Vec<(usize, usize)> = Vec::new();
    let mut e: usize = 0;
    while e < edges.len()
        invariant
            nv == nodes_view(nodes@),
            ev == edges_view(edges@),
            e <= edges.len(),
            v.len() == e,
            forall|f: int| 0 <= f < e ==> lists_node(nv, (#[trigger] ev[f]).id.from) && lists_node(nv, ev[f].id.to),
            forall|f: int|
                0 <= f < e ==> {
                    let p = #[trigger] v@[f];
                    &&& p.0 < nv.len()
                    &&& p.1 < nv.len()
                    &&& nv[p.0 as int].id == ev[f].id.from
                    &&& nv[p.1 as int].id == ev[f].id.to
                },
        decreases edges.len() - e,
    {
        assert(ev[e as int] == edges@[e as int]@);
        let a = match node_position(nodes, edges[e].id().from()) {
            None => {
                return None;
            },
            Some(a) => a,
        };
        let b = match node_position(nodes, edges[e].id().to()) {
            None => {
                return None;
            },
            Some(b) => b,
        };
        assert(nv[a as int] == nodes@[a as int]@ && nv[b as int] == nodes@[b as int]@);
        v.push((a, b));
        e = e + 1;
    }
    Some(v)
}

/// Some record holds node position `i`.
pub open spec fn held_by_record(cv: Seq<ClusterView>, i: int) -> bool {
    exists|c: int, k: int| 0 <= c < cv.len() && 0 <= k < cv[c].nodes.len() && #[trigger] cv[c].nodes[k] == i
}

/// Whether every node position below `n` is held by some record.
fn all_nodes_held(n: usize, out: &Vec<SubGraph>) -> (r: bool)
    ensures
        r == forall|i: int| 0 <= i < n ==> #[trigger] held_by_record(clusters_view(out@), i),
{
    let ghost cv = clusters_view(out@);
    let mut i: usize = 0;
    while i < n
        invariant
            cv == clusters_view(out@),
            i <= n,
            forall|x: int| 0 <= x < i ==> #[trigger] held_by_record(cv, x),
        decreases n - i,
    {
        let mut found = false;
        let mut c: usize = 0;
        while c < out.len() && !found
            invariant
                cv == clusters_view(out@),
                i < n,
                c <= out.len(),
                found ==> held_by_record(cv, i as int),
                !found ==> forall|d: int, k: int| 0 <= d < c && 0 <= k < cv[d].nodes.len() ==> #[trigger] cv[d].nodes[k] != i,
            decreases out.len() - c, if found { 0int } else { 1int },
        {
            let sg = &out[c];
            assert(cv[c as int] == sg@);
            let mut k: usize = 0;
            while k < sg.node_ids.len() && !found
                invariant
                    cv == clusters_view(out@),
                    c < out.len(),
                    cv[c as int] == sg@,
                    k <= sg.node_ids.len(),
                    found ==> held_by_record(cv, i as int),
                    !found ==> forall|d: int, q: int| 0 <= d < c && 0 <= q < cv[d].nodes.len() ==> #[trigger] cv[d].nodes[q] != i,
                    !found ==> forall|q: int| 0 <= q < k ==> #[trigger] cv[c as int].nodes[q] != i,
                decreases sg.node_ids.len() - k, if found { 0int } else { 1int },
            {
                if sg.node_ids[k] == i {
                    found = true;
                    assert(cv[c as int].nodes[k as int] == i);
                } else {
                    k = k + 1;
                }
            }
            if !found {
                c = c + 1;
            }
        }
        if !found {
            assert(!held_by_record(cv, i as int));
            return false;
        }
        i = i + 1;
    }
    true
}

impl Graph {
    /// Builds a graph from a parsed container tree and the node and edge
    /// stores. Fails with `InvalidGraph` where the input breaks one of the
    /// demands of `valid_input`, else with `Cycle` where the edges hold a
    /// directed cycle.
    pub fn new(id: String, root: IGraph, nodes: Vec<Node>, edges: Vec<Edge>) -> (r: Result<Graph, DotGraphError>)
        ensures
            !valid_input(id@, root, nodes_view(nodes@), edges_view(edges@)) ==> (r matches Err(e) && invalid_error(e, id@)),
            valid_input(id@, root, nodes_view(nodes@), edges_view(edges@)) && !acyclic(nodes_view(nodes@), edges_view(edges@))
                ==> (r matches Err(e) && cycle_error(e, id@)),
            valid_input(id@, root, nodes_view(nodes@), edges_view(edges@)) && acyclic(nodes_view(nodes@), edges_view(edges@))
                ==> (r matches Ok(g) && built_from(g@, id@, root, nodes_view(nodes@), edges_view(edges@))),
            r matches Ok(g) ==> wf(g@),
    {
        let ghost nv = nodes_view(nodes@);
        let ghost ev = edges_view(edges@);
        let ghost f = flat(root);
        if !(root.id == id) {
            return Err(DotGraphError::InvalidGraph(id));
        }
        if !distinct_node_ids(&nodes) || !distinct_edge_ids(&edges) {
            return Err(DotGraphError::InvalidGraph(id));
        }
        let ends = match edge_ends(&nodes, &edges) {
            None => {
                return Err(DotGraphError::InvalidGraph(id));
            },
            Some(v) => v,
        };
        let mut subgraphs: Vec<SubGraph> = Vec::new();
        if !encode(&root, &nodes, &edges, &mut subgraphs) {
            return Err(DotGraphError::InvalidGraph(id));
        }
        let ghost cv = clusters_view(subgraphs@);
        proof {
            lemma_flat_first(root);
            assert(clusters_view(Seq::<SubGraph>::empty()) =~= Seq::<ClusterView>::empty());
            assert(encoded(Seq::empty(), cv, f, nv, ev));
        }
        if !distinct_subgraph_ids(&subgraphs) {
            proof {
                let (a, b) = choose|a: int, b: int| 0 <= a < cv.len() && 0 <= b < cv.len() && a != b && (#[trigger] cv[a]).id == (#[trigger] cv[b]).id;
                assert(record_matches(cv, a, f[a], nv, ev));
                assert(record_matches(cv, b, f[b], nv, ev));
            }
            return Err(DotGraphError::InvalidGraph(id));
        }
        if !all_nodes_held(nodes.len(), &subgraphs) {
            proof {
                let i = choose|i: int| 0 <= i < nodes.len() && !#[trigger] held_by_record(cv, i);
                if declared(f, nv[i].id) {
                    let (q, k) = choose|q: int, k: int| 0 <= q < f.len() && 0 <= k < f[q].nodes.len() && (#[trigger] f[q].nodes@[k])@.id == nv[i].id;
                    assert(record_matches(cv, q, f[q], nv, ev));
                    let j = cv[q].nodes[k] as int;
                    assert(nv[j].id == nv[i].id);
                    assert(held_by_record(cv, i));
                }
            }
            return Err(DotGraphError::InvalidGraph(id));
        }
        proof {
            assert forall|a: int, b: int| 0 <= a < f.len() && 0 <= b < f.len() && a != b implies (#[trigger] f[a]).id@ != (#[trigger] f[b]).id@ by {
                assert(record_matches(cv, a, f[a], nv, ev));
                assert(record_matches(cv, b, f[b], nv, ev));
            }
            assert forall|i: int| 0 <= i < nv.len() implies declared(f, #[trigger] nv[i].id) by {
                assert(held_by_record(cv, i));
                let (c, k) = choose|c: int, k: int| 0 <= c < cv.len() && 0 <= k < cv[c].nodes.len() && #[trigger] cv[c].nodes[k] == i;
                assert(record_matches(cv, c, f[c], nv, ev));
                assert(f[c].nodes@[k]@.id == nv[i].id);
            }
            assert(valid_input(id@, root, nv, ev));
        }
        let (fwdmap, bwdmap) = make_edge_maps(nodes.len(), &ends);
        let ghost gv = GraphView { id: id@, nodes: nv, edges: ev, clusters: cv };
        proof {
            assert forall|c: int| 0 <= c < cv.len() implies {
                let cl = #[trigger] cv[c];
                &&& forall|k: int| 0 <= k < cl.children.len() ==> c < #[trigger] cl.children[k] < cv.len()
                &&& forall|k: int| 0 <= k < cl.nodes.len() ==> #[trigger] cl.nodes[k] < nv.len()
                &&& forall|k: int| 0 <= k < cl.edges.len() ==> #[trigger] cl.edges[k] < ev.len()
            } by {
                assert(record_matches(cv, c, f[c], nv, ev));
            }
            assert forall|c: int| 0 < c < cv.len() implies #[trigger] crate::model::has_parent(gv, c) by {
                assert(parent_in(cv, 0, c));
                let p = choose|p: int| 0 <= p < c && #[trigger] child_of(cv, p, c);
                let k = choose|k: int| 0 <= k < cv[p].children.len() && (#[trigger] cv[p].children[k]) == c;
                assert(gv.clusters[p].children[k] == c);
                assert(crate::model::is_child(gv, p, c));
            }
            assert forall|i: int| 0 <= i < nv.len() implies #[trigger] crate::model::held(gv, i) by {
                assert(held_by_record(cv, i));
                let (c, k) = choose|c: int, k: int| 0 <= c < cv.len() && 0 <= k < cv[c].nodes.len() && #[trigger] cv[c].nodes[k] == i;
                assert(gv.clusters[c].nodes[k] == i);
                assert(crate::model::holds_node(gv, c, i));
            }
            assert forall|e: int| 0 <= e < ev.len() implies crate::model::has_node(gv, (#[trigger] ev[e]).id.from)
                && crate::model::has_node(gv, ev[e].id.to) by {
                assert(lists_node(nv, ev[e].id.from));
                assert(lists_node(nv, ev[e].id.to));
                let a = choose|a: int| 0 <= a < nv.len() && (#[trigger] nv[a]).id == ev[e].id.from;
                let b = choose|b: int| 0 <= b < nv.len() && (#[trigger] nv[b]).id == ev[e].id.to;
                assert(gv.nodes[a].id == ev[e].id.from);
                assert(gv.nodes[b].id == ev[e].id.to);
            }
            assert(cv[0].id == id@) by {
                assert(record_matches(cv, 0, f[0], nv, ev));
            }
            assert(wf(gv));
        }
        let g = Graph { id, subgraphs, nodes, edges, ends, fwdmap, bwdmap };
        proof {
            assert(g@ == gv);
        }
        match g.topsort() {
            Ok(_) => Ok(g),
            Err(e) => Err(e),
        }
    }
}

} // verus!
