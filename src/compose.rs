use vstd::prelude::*;
use crate::model::{
    count_true, edge_flags, edge_kept, extracted, has_node, lemma_count_bounds, lemma_select, live, live_flags,
    node_flags, node_kept, pruned, renumber, select, selected_from, wf, ClusterView, GraphView,
};

verus! {

/// Flags `f` followed by flags `h` over the entries `f` keeps.
pub open spec fn then_flags(f: Seq<bool>, h: Seq<bool>) -> Seq<bool> {
    Seq::new(f.len(), |i: int| f[i] && h[count_true(f, i) as int])
}

proof fn lemma_count_compose(f: Seq<bool>, h: Seq<bool>, x: int)
    requires
        0 <= x <= f.len(),
    ensures
        count_true(then_flags(f, h), x) == count_true(h, count_true(f, x) as int),
    decreases x,
{
    if x > 0 {
        lemma_count_compose(f, h, x - 1);
    }
}

proof fn lemma_select_compose<A>(s: Seq<A>, f: Seq<bool>, h: Seq<bool>)
    requires
        s.len() <= f.len(),
    ensures
        select(select(s, f), h) == select(s, then_flags(f, h)),
    decreases s.len(),
{
    if s.len() > 0 {
        let t = s.drop_last();
        let n = t.len() as int;
        lemma_select_compose(t, f, h);
        lemma_select(t, f);
        let u = select(s, f);
        if f[n] {
            assert(u == select(t, f).push(s.last()));
            assert(u.drop_last() == select(t, f));
            assert(u.len() - 1 == count_true(f, n));
        } else {
            assert(u == select(t, f));
        }
    }
}

proof fn lemma_renumber_compose(xs: Seq<usize>, f: Seq<bool>, h: Seq<bool>)
    requires
        forall|k: int| 0 <= k < xs.len() ==> #[trigger] xs[k] < f.len(),
    ensures
        renumber(renumber(xs, f), h) == renumber(xs, then_flags(f, h)),
    decreases xs.len(),
{
    if xs.len() > 0 {
        let ys = xs.drop_last();
        let x = xs.last() as int;
        lemma_renumber_compose(ys, f, h);
        lemma_count_bounds(f, 0, x);
        lemma_count_compose(f, h, x);
        let r = renumber(xs, f);
        if f[x] {
            assert(r.drop_last() == renumber(ys, f));
            assert(r.last() as int == count_true(f, x));
        } else {
            assert(r == renumber(ys, f));
        }
    }
}

proof fn lemma_select_map<A, B>(s: Seq<A>, f: Seq<bool>, m: spec_fn(A) -> B)
    requires
        s.len() <= f.len(),
    ensures
        select(s.map_values(m), f) == select(s, f).map_values(m),
    decreases s.len(),
{
    if s.len() > 0 {
        let t = s.drop_last();
        lemma_select_map(t, f, m);
        assert(s.map_values(m).drop_last() == t.map_values(m));
        let n = t.len() as int;
        if f[n] {
            assert(select(s, f).map_values(m) =~= select(t, f).map_values(m).push(m(s.last())));
        }
    }
}

/// Keeping fewer ids leaves fewer subgraphs holding something.
proof fn lemma_live_mono(g: GraphView, a: Set<Seq<char>>, b: Set<Seq<char>>, c: int)
    requires
        a.subset_of(b),
        live(g, a, c),
    ensures
        live(g, b, c),
    decreases g.clusters.len() - c,
{
    let cl = g.clusters[c];
    if exists|k: int| 0 <= k < cl.nodes.len() && node_kept(g, a, #[trigger] cl.nodes[k] as int) {
        let k = choose|k: int| 0 <= k < cl.nodes.len() && node_kept(g, a, #[trigger] cl.nodes[k] as int);
        assert(node_kept(g, b, cl.nodes[k] as int));
    } else if exists|k: int| 0 <= k < cl.edges.len() && edge_kept(g, a, #[trigger] cl.edges[k] as int) {
        let k = choose|k: int| 0 <= k < cl.edges.len() && edge_kept(g, a, #[trigger] cl.edges[k] as int);
        assert(edge_kept(g, b, cl.edges[k] as int));
    } else {
        let k = choose|k: int|
            0 <= k < cl.children.len() && c < #[trigger] cl.children[k] < g.clusters.len() && live(g, a, cl.children[k] as int);
        lemma_live_mono(g, a, b, cl.children[k] as int);
    }
}

/// Below the first extraction, a subgraph holds something under `t`
/// exactly when it holds something under `s ∩ t` in `g`.
proof fn lemma_live_compose(g: GraphView, s: Set<Seq<char>>, t: Set<Seq<char>>, c: int)
    requires
        wf(g),
        0 <= c < g.clusters.len(),
        live(g, s, c),
    ensures
        live(extracted(g, s), t, count_true(live_flags(g, s), c) as int) == live(g, s.intersect(t), c),
    decreases g.clusters.len() - c,
{
    let st = s.intersect(t);
    let e = extracted(g, s);
    let nf = node_flags(g, s);
    let ef = edge_flags(g, s);
    let lf = live_flags(g, s);
    let j = count_true(lf, c) as int;
    crate::model::lemma_extracted_cluster(g, s, c);
    lemma_select(g.nodes, nf);
    lemma_select(g.edges, ef);
    lemma_select(g.clusters, lf);
    let gc = g.clusters[c];
    let ec = e.clusters[j];
    assert(ec == pruned(gc, nf, ef, lf));
    crate::model::lemma_renumber(gc.nodes, nf);
    crate::model::lemma_renumber(gc.edges, ef);
    crate::model::lemma_renumber(gc.children, lf);
    let nodes_e = exists|k: int| 0 <= k < ec.nodes.len() && node_kept(e, t, #[trigger] ec.nodes[k] as int);
    let nodes_g = exists|k: int| 0 <= k < gc.nodes.len() && node_kept(g, st, #[trigger] gc.nodes[k] as int);
    let edges_e = exists|k: int| 0 <= k < ec.edges.len() && edge_kept(e, t, #[trigger] ec.edges[k] as int);
    let edges_g = exists|k: int| 0 <= k < gc.edges.len() && edge_kept(g, st, #[trigger] gc.edges[k] as int);
    let kids_e = exists|k: int|
        0 <= k < ec.children.len() && j < #[trigger] ec.children[k] < e.clusters.len() && live(e, t, ec.children[k] as int);
    let kids_g = exists|k: int|
        0 <= k < gc.children.len() && c < #[trigger] gc.children[k] < g.clusters.len() && live(g, st, gc.children[k] as int);
    assert(nodes_e == nodes_g) by {
        if nodes_g {
            let k = choose|k: int| 0 <= k < gc.nodes.len() && node_kept(g, st, #[trigger] gc.nodes[k] as int);
            let x = gc.nodes[k] as int;
            assert(nf[x]);
            let y = count_true(nf, x) as usize;
            assert(renumber(gc.nodes, nf).contains(y));
            let w = choose|w: int| 0 <= w < ec.nodes.len() && ec.nodes[w] == y;
            lemma_count_bounds(nf, 0, x);
            assert(e.nodes[y as int] == g.nodes[x]);
            assert(node_kept(e, t, ec.nodes[w] as int));
        }
        if nodes_e {
            let w = choose|w: int| 0 <= w < ec.nodes.len() && node_kept(e, t, #[trigger] ec.nodes[w] as int);
            assert(crate::model::renumbered_from(gc.nodes, nf, w));
            let k = choose|k: int|
                0 <= k < gc.nodes.len() && nf[gc.nodes[k] as int] && #[trigger] renumber(gc.nodes, nf)[w]
                    == count_true(nf, gc.nodes[k] as int) as usize;
            let x = gc.nodes[k] as int;
            lemma_count_bounds(nf, 0, x);
            assert(e.nodes[count_true(nf, x) as int] == g.nodes[x]);
            assert(node_kept(g, st, gc.nodes[k] as int));
        }
    }
    assert(edges_e == edges_g) by {
        if edges_g {
            let k = choose|k: int| 0 <= k < gc.edges.len() && edge_kept(g, st, #[trigger] gc.edges[k] as int);
            let x = gc.edges[k] as int;
            assert(ef[x]);
            let y = count_true(ef, x) as usize;
            assert(renumber(gc.edges, ef).contains(y));
            let w = choose|w: int| 0 <= w < ec.edges.len() && ec.edges[w] == y;
            lemma_count_bounds(ef, 0, x);
            assert(e.edges[y as int] == g.edges[x]);
            assert(edge_kept(e, t, ec.edges[w] as int));
        }
        if edges_e {
            let w = choose|w: int| 0 <= w < ec.edges.len() && edge_kept(e, t, #[trigger] ec.edges[w] as int);
            assert(crate::model::renumbered_from(gc.edges, ef, w));
            let k = choose|k: int|
                0 <= k < gc.edges.len() && ef[gc.edges[k] as int] && #[trigger] renumber(gc.edges, ef)[w]
                    == count_true(ef, gc.edges[k] as int) as usize;
            let x = gc.edges[k] as int;
            lemma_count_bounds(ef, 0, x);
            assert(e.edges[count_true(ef, x) as int] == g.edges[x]);
            assert(edge_kept(g, st, gc.edges[k] as int));
        }
    }
    assert(kids_e == kids_g) by {
        if kids_g {
            let k = choose|k: int|
                0 <= k < gc.children.len() && c < #[trigger] gc.children[k] < g.clusters.len() && live(g, st, gc.children[k] as int);
            let x = gc.children[k] as int;
            lemma_live_mono(g, st, s, x);
            assert(lf[x]);
            let y = count_true(lf, x) as usize;
            assert(renumber(gc.children, lf).contains(y));
            let w = choose|w: int| 0 <= w < ec.children.len() && ec.children[w] == y;
            lemma_count_bounds(lf, 0, x);
            lemma_count_bounds(lf, c, x);
            crate::model::lemma_rank_below(lf, x);
            lemma_live_compose(g, s, t, x);
            assert(j < ec.children[w] < e.clusters.len());
            assert(live(e, t, ec.children[w] as int));
        }
        if kids_e {
            let w = choose|w: int|
                0 <= w < ec.children.len() && j < #[trigger] ec.children[w] < e.clusters.len() && live(e, t, ec.children[w] as int);
            assert(crate::model::renumbered_from(gc.children, lf, w));
            let k = choose|k: int|
                0 <= k < gc.children.len() && lf[gc.children[k] as int] && #[trigger] renumber(gc.children, lf)[w]
                    == count_true(lf, gc.children[k] as int) as usize;
            let x = gc.children[k] as int;
            assert(c < x < g.clusters.len());
            lemma_count_bounds(lf, 0, x);
            lemma_live_compose(g, s, t, x);
            assert(live(g, st, gc.children[k] as int));
        }
    }
}

/// Extracting with `s` and then with `t` is extracting once with the ids
/// kept by both.
pub proof fn lemma_extract_compose(g: GraphView, s: Set<Seq<char>>, t: Set<Seq<char>>)
    requires
        wf(g),
    ensures
        extracted(extracted(g, s), t) == extracted(g, s.intersect(t)),
{
    let st = s.intersect(t);
    let e = extracted(g, s);
    let nf = node_flags(g, s);
    let ef = edge_flags(g, s);
    let lf = live_flags(g, s);
    let nf2 = node_flags(e, t);
    let ef2 = edge_flags(e, t);
    let lf2 = live_flags(e, t);
    let nf12 = node_flags(g, st);
    let ef12 = edge_flags(g, st);
    let lf12 = live_flags(g, st);
    lemma_select(g.nodes, nf);
    lemma_select(g.edges, ef);
    lemma_select(g.clusters, lf);
    assert(then_flags(nf, nf2) =~= nf12) by {
        assert forall|i: int| 0 <= i < g.nodes.len() implies then_flags(nf, nf2)[i] == nf12[i] by {
            if nf[i] {
                assert(e.nodes[count_true(nf, i) as int] == g.nodes[i]);
            }
        }
    }
    assert(then_flags(ef, ef2) =~= ef12) by {
        assert forall|i: int| 0 <= i < g.edges.len() implies then_flags(ef, ef2)[i] == ef12[i] by {
            if ef[i] {
                assert(e.edges[count_true(ef, i) as int] == g.edges[i]);
            }
        }
    }
    assert(then_flags(lf, lf2) =~= lf12) by {
        assert forall|c: int| 0 <= c < g.clusters.len() implies then_flags(lf, lf2)[c] == lf12[c] by {
            if lf[c] {
                lemma_live_compose(g, s, t, c);
                crate::model::lemma_extracted_cluster(g, s, c);
            } else {
                if live(g, st, c) {
                    lemma_live_mono(g, st, s, c);
                }
            }
        }
    }
    lemma_select_compose(g.nodes, nf, nf2);
    lemma_select_compose(g.edges, ef, ef2);
    lemma_select_compose(g.clusters, lf, lf2);
    let pr1 = |c: ClusterView| pruned(c, nf, ef, lf);
    let pr2 = |c: ClusterView| pruned(c, nf2, ef2, lf2);
    let pr12 = |c: ClusterView| pruned(c, nf12, ef12, lf12);
    assert(e.clusters == select(g.clusters, lf).map_values(pr1));
    lemma_select_map(select(g.clusters, lf), lf2, pr1);
    let sel = select(g.clusters, lf12);
    lemma_select(g.clusters, lf12);
    assert(extracted(e, t).clusters =~= extracted(g, st).clusters) by {
        assert(extracted(e, t).clusters == select(e.clusters, lf2).map_values(pr2));
        assert(select(e.clusters, lf2) == sel.map_values(pr1));
        assert forall|q: int| 0 <= q < sel.len() implies pr2(pr1(#[trigger] sel[q])) == pr12(sel[q]) by {
            assert(selected_from(g.clusters, lf12, q));
            let c = choose|c: int|
                #![trigger count_true(lf12, c)]
                0 <= c < g.clusters.len() && lf12[c] && count_true(lf12, c) == q && select(g.clusters, lf12)[q] == g.clusters[c];
            let gc = g.clusters[c];
            lemma_renumber_compose(gc.children, lf, lf2);
            lemma_renumber_compose(gc.nodes, nf, nf2);
            lemma_renumber_compose(gc.edges, ef, ef2);
        }
    }
    assert(extracted(e, t).nodes == extracted(g, st).nodes);
    assert(extracted(e, t).edges == extracted(g, st).edges);
}

} // verus!
