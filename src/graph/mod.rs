use vstd::prelude::*;
use crate::edge::{Edge, EdgeView};
use crate::model::{
    count_true, edge_flags, edge_kept, extracted, keeps_some, lemma_count_bounds, lemma_extracted_wf,
    lemma_rank_below, lemma_select, live, live_flags, node_flags, node_kept, pruned, renumber, select, selected_from, wf,
    ClusterView, GraphView,
};
use crate::node::{Node, NodeView};

mod construct;
mod dot;
mod query;
mod topo;
mod tree;

pub use construct::{
    built_from, declared, flat, flat_all, invalid_error, lists_edge, record_matches, resolves, valid_input, IGraph,
};
pub use dot::{block_open, children_text, cluster_text, edges_text, nodes_text};
pub use query::{edge_index, has_edge_id, no_such_node, no_such_subgraph, node_index, starts_with};
pub use topo::{cycle_error, ids_view};
pub use tree::edge_id_set;

verus! {

/// A subgraph record: its id, and by position in the owning graph its
/// child subgraphs and the nodes and edges it holds directly.
#[derive(Debug)]
pub struct SubGraph {
    id: String,
    subgraph_ids: Vec<usize>,
    node_ids: Vec<usize>,
    edge_ids: Vec<usize>,
}

impl View for SubGraph {
    type V = ClusterView;

    closed spec fn view(&self) -> ClusterView {
        ClusterView {
            id: self.id@,
            children: self.subgraph_ids@,
            nodes: self.node_ids@,
            edges: self.edge_ids@,
        }
    }
}

impl SubGraph {
    pub fn id(&self) -> (r: &String)
        ensures
            r@ == self@.id,
    {
        &self.id
    }

    /// Positions of the child subgraphs in the owning graph.
    pub fn subgraphs(&self) -> (r: &Vec<usize>)
        ensures
            r@ == self@.children,
    {
        &self.subgraph_ids
    }

    /// Positions of the nodes held directly, in the owning graph.
    pub fn nodes(&self) -> (r: &Vec<usize>)
        ensures
            r@ == self@.nodes,
    {
        &self.node_ids
    }

    /// Positions of the edges held directly, in the owning graph.
    pub fn edges(&self) -> (r: &Vec<usize>)
        ensures
            r@ == self@.edges,
    {
        &self.edge_ids
    }
}

/// The views of a list of nodes.
pub open spec fn nodes_view(v: Seq<Node>) -> Seq<NodeView> {
    v.map_values(|n: Node| n@)
}

/// The views of a list of edges.
pub open spec fn edges_view(v: Seq<Edge>) -> Seq<EdgeView> {
    v.map_values(|e: Edge| e@)
}

/// The views of a list of subgraph records.
pub open spec fn clusters_view(v: Seq<SubGraph>) -> Seq<ClusterView> {
    v.map_values(|s: SubGraph| s@)
}

/// The ids held by a list of strings.
pub open spec fn id_set(v: Seq<String>) -> Set<Seq<char>> {
    Set::new(|x: Seq<char>| exists|i: int| 0 <= i < v.len() && (#[trigger] v[i])@ == x)
}

/// Some edge runs from node `u` to node `v`, by position.
pub open spec fn links(ends: Seq<(usize, usize)>, u: int, v: int) -> bool {
    exists|e: int| 0 <= e < ends.len() && (#[trigger] ends[e]).0 == u && ends[e].1 == v
}

/// `ends[e]` holds the positions of edge `e`'s endpoints.
pub open spec fn ends_match(g: GraphView, ends: Seq<(usize, usize)>) -> bool {
    &&& ends.len() == g.edges.len()
    &&& forall|e: int|
        0 <= e < ends.len() ==> {
            let p = #[trigger] ends[e];
            &&& p.0 < g.nodes.len()
            &&& p.1 < g.nodes.len()
            &&& g.nodes[p.0 as int].id == g.edges[e].id.from
            &&& g.nodes[p.1 as int].id == g.edges[e].id.to
        }
}

/// `fwd[u]` lists the successors of `u` and `bwd[v]` the predecessors of
/// `v`, each once.
pub open spec fn adjacency(ends: Seq<(usize, usize)>, n: nat, fwd: Seq<Vec<usize>>, bwd: Seq<Vec<usize>>) -> bool {
    &&& fwd.len() == n
    &&& bwd.len() == n
    &&& forall|u: int| 0 <= u < n ==> (#[trigger] fwd[u])@.no_duplicates()
    &&& forall|u: int| 0 <= u < n ==> (#[trigger] bwd[u])@.no_duplicates()
    &&& forall|u: int, v: usize| 0 <= u < n ==> ((#[trigger] fwd[u]@.contains(v)) <==> (v < n && links(ends, u, v as int)))
    &&& forall|v: int, u: usize| 0 <= v < n ==> ((#[trigger] bwd[v]@.contains(u)) <==> (u < n && links(ends, u as int, v)))
}

/// A directed graph: deduplicated stores of nodes, edges and subgraph
/// records, with the endpoints of each edge and the adjacency in both
/// directions, all by position.
#[derive(Debug)]
pub struct Graph {
    id: String,
    subgraphs: Vec<SubGraph>,
    nodes: Vec<Node>,
    edges: Vec<Edge>,
    ends: Vec<(usize, usize)>,
    fwdmap: Vec<Vec<usize>>,
    bwdmap: Vec<Vec<usize>>,
}

impl View for Graph {
    type V = GraphView;

    closed spec fn view(&self) -> GraphView {
        GraphView {
            id: self.id@,
            nodes: nodes_view(self.nodes@),
            edges: edges_view(self.edges@),
            clusters: clusters_view(self.subgraphs@),
        }
    }
}

/// Whether `x` occurs among the indices `v`.
pub fn index_in(v: &Vec<usize>, x: usize) -> (r: bool)
    ensures
        r == v@.contains(x),
{
    let mut i: usize = 0;
    while i < v.len()
        invariant
            i <= v.len(),
            forall|k: int| 0 <= k < i ==> v@[k] != x,
        decreases v.len() - i,
    {
        if v[i] == x {
            return true;
        }
        i = i + 1;
    }
    false
}

/// Whether `x` is among the ids `v`.
pub fn contains_id(v: &[String], x: &String) -> (r: bool)
    ensures
        r == id_set(v@).contains(x@),
{
    let mut i: usize = 0;
    while i < v.len()
        invariant
            i <= v.len(),
            forall|k: int| 0 <= k < i ==> v@[k]@ != x@,
        decreases v.len() - i,
    {
        if v[i] == *x {
            return true;
        }
        i = i + 1;
    }
    false
}

/// Builds the adjacency of `n` nodes from the endpoints of the edges.
pub fn make_edge_maps(n: usize, ends: &Vec<(usize, usize)>) -> (r: (Vec<Vec<usize>>, Vec<Vec<usize>>))
    requires
        forall|e: int| 0 <= e < ends.len() ==> (#[trigger] ends[e]).0 < n && ends[e].1 < n,
    ensures
        adjacency(ends@, n as nat, r.0@, r.1@),
{
    let mut fwd: Vec<Vec<usize>> = Vec::new();
    let mut bwd: Vec<Vec<usize>> = Vec::new();
    let mut i: usize = 0;
    while i < n
        invariant
            i <= n,
            fwd.len() == i,
            bwd.len() == i,
            forall|u: int| 0 <= u < i ==> (#[trigger] fwd[u])@.len() == 0,
            forall|u: int| 0 <= u < i ==> (#[trigger] bwd[u])@.len() == 0,
        decreases n - i,
    {
        fwd.push(Vec::new());
        bwd.push(Vec::new());
        i = i + 1;
    }
    proof {
        assert forall|v: int, u: usize| 0 <= v < n implies ((#[trigger] bwd[v]@.contains(u)) <==> (u < n && links(
            ends@.take(0),
            u as int,
            v,
        ))) by {
            assert(bwd[v]@.len() == 0);
        }
        assert forall|u: int, v: usize| 0 <= u < n implies ((#[trigger] fwd[u]@.contains(v)) <==> (v < n && links(
            ends@.take(0),
            u,
            v as int,
        ))) by {
            assert(fwd[u]@.len() == 0);
        }
    }
    let mut e: usize = 0;
    while e < ends.len()
        invariant
            e <= ends.len(),
            forall|k: int| 0 <= k < ends.len() ==> (#[trigger] ends[k]).0 < n && ends[k].1 < n,
            fwd.len() == n,
            bwd.len() == n,
            forall|u: int| 0 <= u < n ==> (#[trigger] fwd[u])@.no_duplicates(),
            forall|u: int| 0 <= u < n ==> (#[trigger] bwd[u])@.no_duplicates(),
            forall|u: int, v: usize|
                0 <= u < n ==> ((#[trigger] fwd[u]@.contains(v)) <==> (v < n && links(
                    ends@.take(e as int),
                    u,
                    v as int,
                ))),
            forall|v: int, u: usize|
                0 <= v < n ==> ((#[trigger] bwd[v]@.contains(u)) <==> (u < n && links(
                    ends@.take(e as int),
                    u as int,
                    v,
                ))),
        decreases ends.len() - e,
    {
        let (a, b) = ends[e];
        let ghost pre = ends@.take(e as int);
        let ghost post = ends@.take(e + 1);
        proof {
            assert(post == pre.push((a, b)));
            assert forall|u: int, v: int| links(post, u, v) <==> (links(pre, u, v) || (u == a && v == b)) by {
                if links(post, u, v) {
                    let k = choose|k: int| 0 <= k < post.len() && (#[trigger] post[k]).0 == u && post[k].1 == v;
                    if k < pre.len() {
                        assert(pre[k] == post[k]);
                    }
                }
                if links(pre, u, v) {
                    let k = choose|k: int| 0 <= k < pre.len() && (#[trigger] pre[k]).0 == u && pre[k].1 == v;
                    assert(pre[k] == post[k]);
                }
                if u == a && v == b {
                    assert(post[e as int] == (a, b));
                }
            }
        }
        if !index_in(&fwd[a], b) {
            let ghost old_row = fwd[a as int]@;
            fwd[a].push(b);
            proof {
                assert forall|x: usize| #[trigger] fwd[a as int]@.contains(x) <==> (old_row.contains(x) || x == b) by {
                    if fwd[a as int]@.contains(x) {
                        let k = choose|k: int| 0 <= k < fwd[a as int]@.len() && fwd[a as int]@[k] == x;
                        if k < old_row.len() {
                            assert(old_row[k] == x);
                        }
                    }
                    if old_row.contains(x) {
                        let k = choose|k: int| 0 <= k < old_row.len() && old_row[k] == x;
                        assert(fwd[a as int]@[k] == x);
                    }
                    if x == b {
                        assert(fwd[a as int]@[old_row.len() as int] == x);
                    }
                }
            }
        }
        if !index_in(&bwd[b], a) {
            let ghost old_row = bwd[b as int]@;
            bwd[b].push(a);
            proof {
                assert forall|x: usize| #[trigger] bwd[b as int]@.contains(x) <==> (old_row.contains(x) || x == a) by {
                    if bwd[b as int]@.contains(x) {
                        let k = choose|k: int| 0 <= k < bwd[b as int]@.len() && bwd[b as int]@[k] == x;
                        if k < old_row.len() {
                            assert(old_row[k] == x);
                        }
                    }
                    if old_row.contains(x) {
                        let k = choose|k: int| 0 <= k < old_row.len() && old_row[k] == x;
                        assert(bwd[b as int]@[k] == x);
                    }
                    if x == a {
                        assert(bwd[b as int]@[old_row.len() as int] == x);
                    }
                }
            }
        }
        e = e + 1;
    }
    proof {
        assert(ends@.take(ends.len() as int) == ends@);
    }
    (fwd, bwd)
}

/// The position each entry would take among the kept ones, and how many
/// are kept.
pub fn ranks(f: &Vec<bool>) -> (r: (Vec<usize>, usize))
    ensures
        r.0.len() == f.len(),
        forall|i: int| 0 <= i < f.len() ==> #[trigger] r.0[i] == count_true(f@, i),
        r.1 == count_true(f@, f.len() as int),
{
    let mut out: Vec<usize> = Vec::new();
    let mut c: usize = 0;
    let mut i: usize = 0;
    while i < f.len()
        invariant
            i <= f.len(),
            out.len() == i,
            c == count_true(f@, i as int),
            forall|k: int| 0 <= k < i ==> #[trigger] out[k] == count_true(f@, k),
        decreases f.len() - i,
    {
        proof {
            lemma_count_bounds(f@, 0, i as int);
        }
        out.push(c);
        if f[i] {
            c = c + 1;
        }
        i = i + 1;
    }
    (out, c)
}

/// The kept positions of `xs`, each moved to its new position.
pub fn renumber_vec(xs: &Vec<usize>, f: &Vec<bool>, rank: &Vec<usize>) -> (r: Vec<usize>)
    requires
        rank.len() == f.len(),
        forall|k: int| 0 <= k < xs.len() ==> #[trigger] xs[k] < f.len(),
        forall|i: int| 0 <= i < f.len() ==> #[trigger] rank[i] == count_true(f@, i),
    ensures
        r@ == renumber(xs@, f@),
{
    let mut out: Vec<usize> = Vec::new();
    let mut k: usize = 0;
    while k < xs.len()
        invariant
            k <= xs.len(),
            rank.len() == f.len(),
            forall|m: int| 0 <= m < xs.len() ==> #[trigger] xs[m] < f.len(),
            forall|i: int| 0 <= i < f.len() ==> #[trigger] rank[i] == count_true(f@, i),
            out@ == renumber(xs@.take(k as int), f@),
        decreases xs.len() - k,
    {
        let x = xs[k];
        proof {
            let t = xs@.take(k + 1);
            assert(t.drop_last() == xs@.take(k as int));
            assert(t.last() == x);
        }
        if f[x] {
            out.push(rank[x]);
        }
        k = k + 1;
    }
    proof {
        assert(xs@.take(xs.len() as int) == xs@);
    }
    out
}

fn copy_indices(v: &Vec<usize>) -> (r: Vec<usize>)
    ensures
        r@ == v@,
{
    let mut out: Vec<usize> = Vec::new();
    let mut i: usize = 0;
    while i < v.len()
        invariant
            i <= v.len(),
            out@ == v@.take(i as int),
        decreases v.len() - i,
    {
        out.push(v[i]);
        proof {
            assert(out@ =~= v@.take(i + 1));
        }
        i = i + 1;
    }
    proof {
        assert(v@.take(v.len() as int) == v@);
    }
    out
}

impl Clone for SubGraph {
    fn clone(&self) -> (r: SubGraph)
        ensures
            r@ == self@,
    {
        SubGraph {
            id: self.id.clone(),
            subgraph_ids: copy_indices(&self.subgraph_ids),
            node_ids: copy_indices(&self.node_ids),
            edge_ids: copy_indices(&self.edge_ids),
        }
    }
}

impl Graph {
    #[verifier::type_invariant]
    spec fn inv(&self) -> bool {
        &&& wf(self@)
        &&& ends_match(self@, self.ends@)
        &&& adjacency(self.ends@, self.nodes@.len(), self.fwdmap@, self.bwdmap@)
    }

    fn kept_nodes(&self, keep: &[String]) -> (f: Vec<bool>)
        ensures
            f@ == node_flags(self@, id_set(keep@)),
    {
        let ghost g = self@;
        let ghost ks = id_set(keep@);
        let mut f: Vec<bool> = Vec::new();
        let mut i: usize = 0;
        while i < self.nodes.len()
            invariant
                g == self@,
                ks == id_set(keep@),
                i <= self.nodes.len(),
                f.len() == i,
                forall|k: int| 0 <= k < i ==> #[trigger] f[k] == node_kept(g, ks, k),
            decreases self.nodes.len() - i,
        {
            let nid = self.nodes[i].id();
            let b = contains_id(keep, nid);
            assert(g.nodes[i as int] == self.nodes@[i as int]@);
            assert(nid@ == g.nodes[i as int].id);
            assert(i < g.nodes.len());
            assert(b == ks.contains(nid@));
            assert(b == node_kept(g, ks, i as int));
            f.push(b);
            i = i + 1;
        }
        proof {
            assert(f@ =~= node_flags(g, ks));
        }
        f
    }

    fn kept_edges(&self, keep: &[String], nf: &Vec<bool>) -> (f: Vec<bool>)
        requires
            nf@ == node_flags(self@, id_set(keep@)),
        ensures
            f@ == edge_flags(self@, id_set(keep@)),
    {
        proof {
            use_type_invariant(self);
        }
        let ghost g = self@;
        let ghost ks = id_set(keep@);
        let mut f: Vec<bool> = Vec::new();
        let mut e: usize = 0;
        while e < self.ends.len()
            invariant
                g == self@,
                e <= self.ends.len(),
                ends_match(g, self.ends@),
                nf@ == node_flags(g, ks),
                f.len() == e,
                forall|k: int| 0 <= k < e ==> #[trigger] f[k] == edge_kept(g, ks, k),
            decreases self.ends.len() - e,
        {
            let (a, b) = self.ends[e];
            proof {
                let p = self.ends@[e as int];
                assert(nf@[a as int] == node_kept(g, ks, a as int));
                assert(nf@[b as int] == node_kept(g, ks, b as int));
            }
            f.push(nf[a] && nf[b]);
            e = e + 1;
        }
        proof {
            assert(f@ =~= edge_flags(g, ks));
        }
        f
    }

    fn live_subgraphs(&self, keep: &[String], nf: &Vec<bool>, ef: &Vec<bool>) -> (f: Vec<bool>)
        requires
            nf@ == node_flags(self@, id_set(keep@)),
            ef@ == edge_flags(self@, id_set(keep@)),
        ensures
            f@ == live_flags(self@, id_set(keep@)),
    {
        proof {
            use_type_invariant(self);
        }
        let ghost g = self@;
        let ghost ks = id_set(keep@);
        let len = self.subgraphs.len();
        let mut f: Vec<bool> = Vec::new();
        let mut i: usize = 0;
        while i < len
            invariant
                i <= len,
                f.len() == i,
            decreases len - i,
        {
            f.push(false);
            i = i + 1;
        }
        let mut c: usize = len;
        while c > 0
            invariant
                g == self@,
                wf(g),
                c <= len,
                len == g.clusters.len(),
                f.len() == len,
                nf@ == node_flags(g, ks),
                ef@ == edge_flags(g, ks),
                forall|j: int| c <= j < len ==> #[trigger] f[j] == live(g, ks, j),
            decreases c,
        {
            c = c - 1;
            let sg = &self.subgraphs[c];
            let ghost cl = g.clusters[c as int];
            assert(sg@ == cl);
            let mut hit = false;
            let mut k: usize = 0;
            while k < sg.node_ids.len()
                invariant
                    k <= sg.node_ids.len(),
                    sg@ == cl,
                    c < len,
                    len == g.clusters.len(),
                    cl == g.clusters[c as int],
                    wf(g),
                    nf@ == node_flags(g, ks),
                    hit == exists|m: int| 0 <= m < k && node_kept(g, ks, #[trigger] cl.nodes[m] as int),
                decreases sg.node_ids.len() - k,
            {
                let x = sg.node_ids[k];
                assert(cl.nodes[k as int] == x);
                assert(g.clusters[c as int] == cl);
                assert(x < g.nodes.len());
                if nf[x] {
                    hit = true;
                }
                k = k + 1;
            }
            let mut k: usize = 0;
            while k < sg.edge_ids.len()
                invariant
                    k <= sg.edge_ids.len(),
                    sg@ == cl,
                    c < len,
                    len == g.clusters.len(),
                    cl == g.clusters[c as int],
                    wf(g),
                    ef@ == edge_flags(g, ks),
                    hit == ((exists|m: int| 0 <= m < cl.nodes.len() && node_kept(g, ks, #[trigger] cl.nodes[m] as int))
                        || exists|m: int| 0 <= m < k && edge_kept(g, ks, #[trigger] cl.edges[m] as int)),
                decreases sg.edge_ids.len() - k,
            {
                let x = sg.edge_ids[k];
                assert(cl.edges[k as int] == x);
                assert(g.clusters[c as int] == cl);
                assert(x < g.edges.len());
                if ef[x] {
                    hit = true;
                }
                k = k + 1;
            }
            let mut k: usize = 0;
            while k < sg.subgraph_ids.len()
                invariant
                    k <= sg.subgraph_ids.len(),
                    sg@ == cl,
                    c < len,
                    len == g.clusters.len(),
                    cl == g.clusters[c as int],
                    len == g.clusters.len(),
                    wf(g),
                    f.len() == len,
                    forall|j: int| c < j < len ==> #[trigger] f[j] == live(g, ks, j),
                    hit == ((exists|m: int| 0 <= m < cl.nodes.len() && node_kept(g, ks, #[trigger] cl.nodes[m] as int))
                        || (exists|m: int| 0 <= m < cl.edges.len() && edge_kept(g, ks, #[trigger] cl.edges[m] as int))
                        || exists|m: int|
                        0 <= m < k && c < #[trigger] cl.children[m] < g.clusters.len() && live(
                            g,
                            ks,
                            cl.children[m] as int,
                        )),
                decreases sg.subgraph_ids.len() - k,
            {
                let x = sg.subgraph_ids[k];
                assert(cl.children[k as int] == x);
                assert(g.clusters[c as int] == cl);
                assert(c < x < len);
                if f[x] {
                    hit = true;
                }
                k = k + 1;
            }
            assert(hit == live(g, ks, c as int));
            f.set(c, hit);
        }
        proof {
            assert(f@ =~= live_flags(g, ks));
        }
        f
    }

    fn selected_nodes(&self, nf: &Vec<bool>) -> (r: Vec<Node>)
        requires
            nf.len() == self.nodes.len(),
        ensures
            nodes_view(r@) == select(self@.nodes, nf@),
    {
        let ghost g = self@;
        let mut out: Vec<Node> = Vec::new();
        let mut i: usize = 0;
        while i < self.nodes.len()
            invariant
                g == self@,
                i <= self.nodes.len(),
                nf.len() == self.nodes.len(),
                nodes_view(out@) == select(g.nodes.take(i as int), nf@),
            decreases self.nodes.len() - i,
        {
            proof {
                let t = g.nodes.take(i + 1);
                assert(t.drop_last() == g.nodes.take(i as int));
                assert(t.last() == self.nodes@[i as int]@);
            }
            if nf[i] {
                let ghost before = out@;
                out.push(self.nodes[i].clone());
                proof {
                    assert(nodes_view(out@) =~= nodes_view(before).push(self.nodes@[i as int]@));
                }
            }
            i = i + 1;
        }
        proof {
            assert(g.nodes.take(self.nodes.len() as int) == g.nodes);
        }
        out
    }

    fn selected_edges(&self, ef: &Vec<bool>, nr: &Vec<usize>) -> (r: (Vec<Edge>, Vec<(usize, usize)>))
        requires
            ef.len() == self.edges.len(),
            nr.len() == self.nodes.len(),
        ensures
            edges_view(r.0@) == select(self@.edges, ef@),
            r.1.len() == r.0.len(),
            forall|i: int|
                #![trigger count_true(ef@, i)]
                0 <= i < ef.len() && ef[i] ==> count_true(ef@, i) < r.1.len() && r.1[count_true(ef@, i) as int] == (
                    nr[self.ends[i].0 as int],
                    nr[self.ends[i].1 as int],
                ),
    {
        proof {
            use_type_invariant(self);
            lemma_select(self@.edges, ef@);
        }
        let ghost g = self@;
        let mut out: Vec<Edge> = Vec::new();
        let mut ends: Vec<(usize, usize)> = Vec::new();
        let mut i: usize = 0;
        while i < self.edges.len()
            invariant
                g == self@,
                i <= self.edges.len(),
                ef.len() == self.edges.len(),
                nr.len() == self.nodes.len(),
                ends_match(g, self.ends@),
                edges_view(out@) == select(g.edges.take(i as int), ef@),
                ends.len() == out.len(),
                ends.len() == count_true(ef@, i as int),
                forall|k: int|
                    #![trigger count_true(ef@, k)]
                    0 <= k < i && ef[k] ==> count_true(ef@, k) < ends.len() && ends[count_true(ef@, k) as int] == (
                        nr[self.ends[k].0 as int],
                        nr[self.ends[k].1 as int],
                    ),
            decreases self.edges.len() - i,
        {
            proof {
                let t = g.edges.take(i + 1);
                assert(t.drop_last() == g.edges.take(i as int));
                assert(t.last() == self.edges@[i as int]@);
                lemma_select(g.edges.take(i as int), ef@);
            }
            if ef[i] {
                let ghost before = out@;
                out.push(self.edges[i].clone());
                let (a, b) = self.ends[i];
                ends.push((nr[a], nr[b]));
                proof {
                    assert(edges_view(out@) =~= edges_view(before).push(self.edges@[i as int]@));
                }
            }
            i = i + 1;
        }
        proof {
            assert(g.edges.take(self.edges.len() as int) == g.edges);
        }
        (out, ends)
    }

    fn pruned_subgraphs(
        &self,
        nf: &Vec<bool>,
        nr: &Vec<usize>,
        ef: &Vec<bool>,
        er: &Vec<usize>,
        lf: &Vec<bool>,
        lr: &Vec<usize>,
    ) -> (r: Vec<SubGraph>)
        requires
            nf.len() == self.nodes.len(),
            nr.len() == nf.len(),
            forall|i: int| 0 <= i < nf.len() ==> #[trigger] nr[i] == count_true(nf@, i),
            ef.len() == self.edges.len(),
            er.len() == ef.len(),
            forall|i: int| 0 <= i < ef.len() ==> #[trigger] er[i] == count_true(ef@, i),
            lf.len() == self.subgraphs.len(),
            lr.len() == lf.len(),
            forall|i: int| 0 <= i < lf.len() ==> #[trigger] lr[i] == count_true(lf@, i),
        ensures
            clusters_view(r@) == select(self@.clusters, lf@).map_values(
                |c: ClusterView| pruned(c, nf@, ef@, lf@),
            ),
    {
        proof {
            use_type_invariant(self);
        }
        let ghost g = self@;
        let mut out: Vec<SubGraph> = Vec::new();
        let mut c: usize = 0;
        while c < self.subgraphs.len()
            invariant
                g == self@,
                wf(g),
                c <= self.subgraphs.len(),
                nf.len() == self.nodes.len(),
                nr.len() == nf.len(),
                forall|i: int| 0 <= i < nf.len() ==> #[trigger] nr[i] == count_true(nf@, i),
                ef.len() == self.edges.len(),
                er.len() == ef.len(),
                forall|i: int| 0 <= i < ef.len() ==> #[trigger] er[i] == count_true(ef@, i),
                lf.len() == self.subgraphs.len(),
                lr.len() == lf.len(),
                forall|i: int| 0 <= i < lf.len() ==> #[trigger] lr[i] == count_true(lf@, i),
                out.len() == select(g.clusters.take(c as int), lf@).len(),
                forall|j: int|
                    0 <= j < out.len() ==> (#[trigger] out[j])@ == pruned(
                        select(g.clusters.take(c as int), lf@)[j],
                        nf@,
                        ef@,
                        lf@,
                    ),
            decreases self.subgraphs.len() - c,
        {
            let ghost t = g.clusters.take(c + 1);
            proof {
                assert(t.drop_last() == g.clusters.take(c as int));
                assert(t.last() == self.subgraphs@[c as int]@);
            }
            if lf[c] {
                let sg = &self.subgraphs[c];
                let ghost cl = g.clusters[c as int];
                proof {
                    assert(sg@ == cl);
                    assert forall|k: int| 0 <= k < sg.subgraph_ids.len() implies #[trigger] sg.subgraph_ids[k] < lf.len() by {
                        assert(cl.children[k] == sg.subgraph_ids[k]);
                    }
                    assert forall|k: int| 0 <= k < sg.node_ids.len() implies #[trigger] sg.node_ids[k] < nf.len() by {
                        assert(cl.nodes[k] == sg.node_ids[k]);
                    }
                    assert forall|k: int| 0 <= k < sg.edge_ids.len() implies #[trigger] sg.edge_ids[k] < ef.len() by {
                        assert(cl.edges[k] == sg.edge_ids[k]);
                    }
                }
                let item = SubGraph {
                    id: sg.id.clone(),
                    subgraph_ids: renumber_vec(&sg.subgraph_ids, lf, lr),
                    node_ids: renumber_vec(&sg.node_ids, nf, nr),
                    edge_ids: renumber_vec(&sg.edge_ids, ef, er),
                };
                out.push(item);
            }
            c = c + 1;
        }
        proof {
            assert(g.clusters.take(self.subgraphs.len() as int) == g.clusters);
            assert(clusters_view(out@) =~= select(g.clusters, lf@).map_values(
                |c: ClusterView| pruned(c, nf@, ef@, lf@),
            ));
        }
        out
    }

    /// The graph induced by the node ids `node_ids`: the nodes with those
    /// ids, the edges with both endpoints among them, and the subgraphs that
    /// still hold something directly or through a child, each trimmed to what
    /// is kept. `None` where no node of this graph has one of those ids.
    pub fn extract(&self, node_ids: &[String]) -> (r: Option<Graph>)
        ensures
            r is None <==> !keeps_some(self@, id_set(node_ids@)),
            r matches Some(x) ==> x@ == extracted(self@, id_set(node_ids@)) && wf(x@),
    {
        proof {
            use_type_invariant(self);
        }
        let ghost g = self@;
        let ghost ks = id_set(node_ids@);
        let nf = self.kept_nodes(node_ids);
        let (nr, kept) = ranks(&nf);
        proof {
            lemma_select(g.nodes, nf@);
        }
        if kept == 0 {
            proof {
                if keeps_some(g, ks) {
                    let i = choose|i: int| node_kept(g, ks, i);
                    lemma_rank_below(nf@, i);
                }
            }
            return None;
        }
        proof {
            assert(selected_from(g.nodes, nf@, 0));
            let i = choose|i: int|
                #![trigger count_true(nf@, i)]
                0 <= i < g.nodes.len() && nf@[i] && count_true(nf@, i) == 0 && select(g.nodes, nf@)[0] == g.nodes[i];
            assert(node_kept(g, ks, i));
        }
        let ef = self.kept_edges(node_ids, &nf);
        let (er, _) = ranks(&ef);
        let lf = self.live_subgraphs(node_ids, &nf, &ef);
        let (lr, _) = ranks(&lf);
        let nodes = self.selected_nodes(&nf);
        let (edges, ends) = self.selected_edges(&ef, &nr);
        let subgraphs = self.pruned_subgraphs(&nf, &nr, &ef, &er, &lf, &lr);
        let ghost x = GraphView {
            id: self.id@,
            nodes: nodes_view(nodes@),
            edges: edges_view(edges@),
            clusters: clusters_view(subgraphs@),
        };
        proof {
            assert(x == extracted(g, ks));
            lemma_extracted_wf(g, ks);
            lemma_select(g.edges, ef@);
            assert forall|j: int| 0 <= j < ends.len() implies {
                let p = #[trigger] ends@[j];
                &&& p.0 < x.nodes.len()
                &&& p.1 < x.nodes.len()
                &&& x.nodes[p.0 as int].id == x.edges[j].id.from
                &&& x.nodes[p.1 as int].id == x.edges[j].id.to
            } by {
                assert(selected_from(g.edges, ef@, j));
                let i = choose|i: int|
                    #![trigger count_true(ef@, i)]
                    0 <= i < g.edges.len() && ef@[i] && count_true(ef@, i) == j && select(g.edges, ef@)[j]
                        == g.edges[i];
                let u = self.ends@[i].0 as int;
                let v = self.ends@[i].1 as int;
                assert(edge_kept(g, ks, i));
                assert(node_kept(g, ks, u));
                assert(node_kept(g, ks, v));
                lemma_rank_below(nf@, u);
                lemma_rank_below(nf@, v);
            }
        }
        let (fwdmap, bwdmap) = make_edge_maps(nodes.len(), &ends);
        let r = Graph { id: self.id.clone(), subgraphs, nodes, edges, ends, fwdmap, bwdmap };
        Some(r)
    }
}

} // verus!
