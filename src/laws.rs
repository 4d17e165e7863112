use vstd::prelude::*;
use crate::edge::EdgeView;
use crate::node::NodeView;
use crate::graph::{valid_input, IGraph};
use crate::model::{
    acyclic, is_cycle, lemma_cycle_not_acyclic, lists_node,
    count_true, edge_flags, edge_kept, extracted, has_node, keeps_some, lemma_count_bounds,
    lemma_extracted_cluster, lemma_extracted_wf, lemma_renumber, lemma_renumber_all, lemma_select,
    lemma_select_all, live, live_flags, node_flags, node_kept, pruned, select, selected_from, wf,
    GraphView,
};

verus! {

/// A subgraph of which no member, direct or transitive, is kept does not
/// appear in the extracted graph.
pub proof fn lemma_empty_subgraph_dropped(g: GraphView, keep: Set<Seq<char>>, x: int)
    requires
        wf(g),
        0 <= x < g.clusters.len(),
        !live(g, keep, x),
    ensures
        forall|j: int|
            0 <= j < extracted(g, keep).clusters.len() ==> (#[trigger] extracted(g, keep).clusters[j]).id
                != g.clusters[x].id,
{
    let lf = live_flags(g, keep);
    let e = extracted(g, keep);
    lemma_select(g.clusters, lf);
    assert forall|j: int| 0 <= j < e.clusters.len() implies (#[trigger] e.clusters[j]).id != g.clusters[x].id by {
        assert(selected_from(g.clusters, lf, j));
        let i = choose|i: int|
            #![trigger count_true(lf, i)]
            0 <= i < g.clusters.len() && lf[i] && count_true(lf, i) == j && select(g.clusters, lf)[j]
                == g.clusters[i];
        assert(i != x);
    }
}

/// In an extracted graph every subgraph still holds something.
proof fn lemma_extracted_all_live(g: GraphView, keep: Set<Seq<char>>, j: int)
    requires
        wf(g),
        keeps_some(g, keep),
        0 <= j < extracted(g, keep).clusters.len(),
    ensures
        live(extracted(g, keep), keep, j),
    decreases extracted(g, keep).clusters.len() - j,
{
    let nf = node_flags(g, keep);
    let ef = edge_flags(g, keep);
    let lf = live_flags(g, keep);
    let e = extracted(g, keep);
    lemma_extracted_wf(g, keep);
    lemma_select(g.nodes, nf);
    lemma_select(g.edges, ef);
    lemma_select(g.clusters, lf);
    assert(selected_from(g.clusters, lf, j));
    let i = choose|i: int|
        #![trigger count_true(lf, i)]
        0 <= i < g.clusters.len() && lf[i] && count_true(lf, i) == j && select(g.clusters, lf)[j] == g.clusters[i];
    lemma_extracted_cluster(g, keep, i);
    let gc = g.clusters[i];
    let ec = e.clusters[j];
    assert(ec == pruned(gc, nf, ef, lf));
    lemma_renumber(gc.children, lf);
    lemma_renumber(gc.nodes, nf);
    lemma_renumber(gc.edges, ef);
    assert(live(g, keep, i));
    if exists|k: int| 0 <= k < gc.nodes.len() && node_kept(g, keep, #[trigger] gc.nodes[k] as int) {
        let k = choose|k: int| 0 <= k < gc.nodes.len() && node_kept(g, keep, #[trigger] gc.nodes[k] as int);
        let xn = gc.nodes[k] as int;
        assert(nf[xn]);
        assert(ec.nodes.contains(count_true(nf, xn) as usize));
        let w = choose|w: int| 0 <= w < ec.nodes.len() && ec.nodes[w] == count_true(nf, xn) as usize;
        lemma_count_bounds(nf, 0, xn);
        assert(e.nodes[count_true(nf, xn) as int] == g.nodes[xn]);
        assert(node_kept(e, keep, ec.nodes[w] as int));
    } else if exists|k: int| 0 <= k < gc.edges.len() && edge_kept(g, keep, #[trigger] gc.edges[k] as int) {
        let k = choose|k: int| 0 <= k < gc.edges.len() && edge_kept(g, keep, #[trigger] gc.edges[k] as int);
        let xe = gc.edges[k] as int;
        assert(ef[xe]);
        assert(ec.edges.contains(count_true(ef, xe) as usize));
        let w = choose|w: int| 0 <= w < ec.edges.len() && ec.edges[w] == count_true(ef, xe) as usize;
        lemma_count_bounds(ef, 0, xe);
        assert(e.edges[count_true(ef, xe) as int] == g.edges[xe]);
        assert(edge_kept(e, keep, ec.edges[w] as int));
    } else {
        let k = choose|k: int|
            0 <= k < gc.children.len() && i < #[trigger] gc.children[k] < g.clusters.len() && live(
                g,
                keep,
                gc.children[k] as int,
            );
        let xc = gc.children[k] as int;
        assert(lf[xc]);
        assert(ec.children.contains(count_true(lf, xc) as usize));
        let w = choose|w: int| 0 <= w < ec.children.len() && ec.children[w] == count_true(lf, xc) as usize;
        lemma_count_bounds(lf, 0, xc);
        lemma_count_bounds(lf, i, xc);
        assert(j < ec.children[w] < e.clusters.len());
        lemma_extracted_all_live(g, keep, ec.children[w] as int);
    }
}

/// Extracting a second time with the same kept ids changes nothing.
pub proof fn lemma_extract_idempotent(g: GraphView, keep: Set<Seq<char>>)
    requires
        wf(g),
    ensures
        extracted(extracted(g, keep), keep) == extracted(g, keep),
{
    let e = extracted(g, keep);
    let nf = node_flags(g, keep);
    let ef = edge_flags(g, keep);
    let lf = live_flags(g, keep);
    let nf2 = node_flags(e, keep);
    let ef2 = edge_flags(e, keep);
    let lf2 = live_flags(e, keep);
    let e2 = extracted(e, keep);
    lemma_select(g.nodes, nf);
    lemma_select(g.edges, ef);
    lemma_select(g.clusters, lf);
    if keeps_some(g, keep) {
        lemma_extracted_wf(g, keep);
        assert forall|j: int| 0 <= j < nf2.len() implies #[trigger] nf2[j] by {
            assert(selected_from(g.nodes, nf, j));
        }
        assert forall|j: int| 0 <= j < ef2.len() implies #[trigger] ef2[j] by {
            assert(selected_from(g.edges, ef, j));
        }
        assert forall|j: int| 0 <= j < lf2.len() implies #[trigger] lf2[j] by {
            lemma_extracted_all_live(g, keep, j);
        }
        lemma_select_all(e.nodes, nf2);
        lemma_select_all(e.edges, ef2);
        lemma_select_all(e.clusters, lf2);
        assert forall|j: int| 0 <= j < e.clusters.len() implies pruned(#[trigger] e.clusters[j], nf2, ef2, lf2)
            == e.clusters[j] by {
            let c = e.clusters[j];
            lemma_renumber_all(c.children, lf2);
            lemma_renumber_all(c.nodes, nf2);
            lemma_renumber_all(c.edges, ef2);
        }
        assert(e2.clusters =~= e.clusters);
        assert(e2 == e);
    } else {
        assert(e.nodes.len() == 0) by {
            if e.nodes.len() > 0 {
                assert(selected_from(g.nodes, nf, 0));
            }
        }
        assert(e.edges.len() == 0) by {
            if e.edges.len() > 0 {
                assert(selected_from(g.edges, ef, 0));
                let i = choose|i: int|
                    #![trigger count_true(ef, i)]
                    0 <= i < g.edges.len() && ef[i] && count_true(ef, i) == 0 && select(g.edges, ef)[0]
                        == g.edges[i];
                assert(has_node(g, g.edges[i].id.from));
                let u = choose|u: int| 0 <= u < g.nodes.len() && (#[trigger] g.nodes[u]).id == g.edges[i].id.from;
                assert(node_kept(g, keep, u));
            }
        }
        assert(e.clusters.len() == 0) by {
            if e.clusters.len() > 0 {
                assert(selected_from(g.clusters, lf, 0));
                let i = choose|i: int|
                    #![trigger count_true(lf, i)]
                    0 <= i < g.clusters.len() && lf[i] && count_true(lf, i) == 0 && select(g.clusters, lf)[0]
                        == g.clusters[i];
                lemma_live_keeps_some(g, keep, i);
            }
        }
        assert(e2.nodes =~= e.nodes);
        assert(e2.edges =~= e.edges);
        assert(e2.clusters =~= e.clusters);
    }
}

/// A subgraph can hold something only where some node is kept.
proof fn lemma_live_keeps_some(g: GraphView, keep: Set<Seq<char>>, c: int)
    requires
        wf(g),
        live(g, keep, c),
    ensures
        keeps_some(g, keep),
    decreases g.clusters.len() - c,
{
    let cl = g.clusters[c];
    if exists|k: int| 0 <= k < cl.nodes.len() && node_kept(g, keep, #[trigger] cl.nodes[k] as int) {
        let k = choose|k: int| 0 <= k < cl.nodes.len() && node_kept(g, keep, #[trigger] cl.nodes[k] as int);
        assert(node_kept(g, keep, cl.nodes[k] as int));
    } else if exists|k: int| 0 <= k < cl.edges.len() && edge_kept(g, keep, #[trigger] cl.edges[k] as int) {
        let k = choose|k: int| 0 <= k < cl.edges.len() && edge_kept(g, keep, #[trigger] cl.edges[k] as int);
        let x = cl.edges[k] as int;
        assert(has_node(g, g.edges[x].id.from));
        let u = choose|u: int| 0 <= u < g.nodes.len() && (#[trigger] g.nodes[u]).id == g.edges[x].id.from;
        assert(node_kept(g, keep, u));
    } else {
        let k = choose|k: int|
            0 <= k < cl.children.len() && c < #[trigger] cl.children[k] < g.clusters.len() && live(
                g,
                keep,
                cl.children[k] as int,
            );
        lemma_live_keeps_some(g, keep, cl.children[k] as int);
    }
}

/// Construction rejects a graph whose edges hold a directed cycle: such
/// edges admit no topological order, so `Graph::new` returns the cycle
/// error (or, on an otherwise ill-formed input, the invalid-input error)
/// and no graph.
pub proof fn lemma_cycle_rejected(
    id: Seq<char>,
    root: IGraph,
    nodes: Seq<NodeView>,
    edges: Seq<EdgeView>,
    path: Seq<Seq<char>>,
)
    requires
        is_cycle(edges, path),
    ensures
        valid_input(id, root, nodes, edges) ==> !acyclic(nodes, edges),
{
    if valid_input(id, root, nodes, edges) {
        assert forall|e: int| 0 <= e < edges.len() implies lists_node(nodes, (#[trigger] edges[e]).id.from)
            && lists_node(nodes, edges[e].id.to) by {}
        lemma_cycle_not_acyclic(nodes, edges, path);
    }
}

} // verus!
