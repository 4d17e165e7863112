use vstd::prelude::*;
use super::{id_set, Graph};
use super::query::{no_such_subgraph};
use crate::edge::{EdgeId, EdgeIdView};
use crate::error::DotGraphError;
use crate::model::{
    below_ids, cluster_index, descends, extracted, has_cluster, holds_edge, holds_node, is_child, keeps_some,
    lemma_extracted_agree, node_kept, subtree_edge_ids, subtree_node_ids, wf, GraphView,
};

verus! {

/// Subgraph `j` is `r`, or a child of a subgraph before `c` that descends from `r`.
pub open spec fn reached(g: GraphView, r: int, c: int, j: int) -> bool {
    j == r || exists|p: int| r <= p < c && #[trigger] is_child(g, p, j) && descends(g, r, p)
}

/// The ids of a list of edge ids.
pub open spec fn edge_id_set(v: Seq<EdgeId>) -> Set<EdgeIdView> {
    Set::new(|x: EdgeIdView| exists|i: int| 0 <= i < v.len() && (#[trigger] v[i])@ == x)
}

impl Graph {
    /// The position of the subgraph with id `id`.
    pub fn find_subgraph(&self, id: &String) -> (r: Option<usize>)
        ensures
            r matches Some(c) ==> c < self@.clusters.len() && self@.clusters[c as int].id == id@,
            r is None ==> !has_cluster(self@, id@),
    {
        let ghost g = self@;
        let mut c: usize = 0;
        while c < self.subgraphs.len()
            invariant
                g == self@,
                c <= self.subgraphs.len(),
                forall|k: int| 0 <= k < c ==> (#[trigger] g.clusters[k]).id != id@,
            decreases self.subgraphs.len() - c,
        {
            assert(g.clusters[c as int] == self.subgraphs@[c as int]@);
            if self.subgraphs[c].id == *id {
                return Some(c);
            }
            c = c + 1;
        }
        None
    }

    /// Marks subgraph `r` and every subgraph below it.
    fn subtree_marks(&self, r: usize) -> (m: Vec<bool>)
        requires
            r < self@.clusters.len(),
        ensures
            m.len() == self@.clusters.len(),
            forall|j: int| 0 <= j < m.len() ==> #[trigger] m[j] == descends(self@, r as int, j),
    {
        proof {
            use_type_invariant(self);
        }
        let ghost g = self@;
        let len = self.subgraphs.len();
        let mut m: Vec<bool> = Vec::new();
        let mut i: usize = 0;
        while i < len
            invariant
                i <= len,
                m.len() == i,
                forall|j: int| 0 <= j < i ==> #[trigger] m[j] == (j == r),
            decreases len - i,
        {
            m.push(i == r);
            i = i + 1;
        }
        let mut c: usize = r;
        while c < len
            invariant
                g == self@,
                wf(g),
                len == g.clusters.len(),
                r <= c <= len,
                m.len() == len,
                forall|j: int| 0 <= j < len ==> #[trigger] m[j] == reached(g, r as int, c as int, j),
            decreases len - c,
        {
            proof {
                if descends(g, r as int, c as int) && c != r {
                    let p = choose|p: int| r <= p < c && #[trigger] is_child(g, p, c as int) && descends(g, r as int, p);
                }
                if reached(g, r as int, c as int, c as int) && c != r {
                    let p = choose|p: int| r <= p < c && #[trigger] is_child(g, p, c as int) && descends(g, r as int, p);
                    assert(descends(g, r as int, c as int));
                }
            }
            assert(m[c as int] == descends(g, r as int, c as int));
            if m[c] {
                let sg = &self.subgraphs[c];
                let ghost cl = g.clusters[c as int];
                assert(sg@ == cl);
                let mut k: usize = 0;
                while k < sg.subgraph_ids.len()
                    invariant
                        g == self@,
                        wf(g),
                        len == g.clusters.len(),
                        r <= c < len,
                        cl == g.clusters[c as int],
                        sg@ == cl,
                        descends(g, r as int, c as int),
                        k <= sg.subgraph_ids.len(),
                        m.len() == len,
                        forall|j: int|
                            0 <= j < len ==> #[trigger] m[j] == (reached(g, r as int, c as int, j) || exists|q: int|
                                0 <= q < k && cl.children[q] == j),
                    decreases sg.subgraph_ids.len() - k,
                {
                    let x = sg.subgraph_ids[k];
                    assert(cl.children[k as int] == x);
                    assert(c < x < len);
                    m.set(x, true);
                    k = k + 1;
                }
                proof {
                    assert forall|j: int| 0 <= j < len implies #[trigger] m[j] == reached(g, r as int, c + 1, j) by {
                        if exists|q: int| 0 <= q < cl.children.len() && cl.children[q] == j {
                            let q = choose|q: int| 0 <= q < cl.children.len() && cl.children[q] == j;
                            assert(is_child(g, c as int, j));
                        }
                        if reached(g, r as int, c + 1, j) && j != r {
                            let p = choose|p: int| r <= p < c + 1 && #[trigger] is_child(g, p, j) && descends(g, r as int, p);
                            if p == c {
                                let q = choose|q: int| 0 <= q < g.clusters[p].children.len() && (#[trigger] g.clusters[p].children[q]) == j;
                            }
                        }
                    }
                }
            } else {
                proof {
                    assert forall|j: int| 0 <= j < len implies #[trigger] m[j] == reached(g, r as int, c + 1, j) by {
                        if reached(g, r as int, c + 1, j) && j != r {
                            let p = choose|p: int| r <= p < c + 1 && #[trigger] is_child(g, p, j) && descends(g, r as int, p);
                        }
                    }
                }
            }
            c = c + 1;
        }
        proof {
            assert forall|j: int| 0 <= j < len implies #[trigger] m[j] == descends(g, r as int, j) by {
                if reached(g, r as int, len as int, j) && j != r {
                    let p = choose|p: int| r <= p < len && #[trigger] is_child(g, p, j) && descends(g, r as int, p);
                    let q = choose|q: int| 0 <= q < g.clusters[p].children.len() && (#[trigger] g.clusters[p].children[q]) == j;
                    let cl = g.clusters[p];
                    assert(p < cl.children[q]);
                    assert(descends(g, r as int, j));
                }
                if descends(g, r as int, j) && j != r {
                    let p = choose|p: int| r <= p < j && #[trigger] is_child(g, p, j) && descends(g, r as int, p);
                    assert(reached(g, r as int, len as int, j));
                }
            }
        }
        m
    }

    /// Marks the nodes held directly by a marked subgraph.
    fn held_node_marks(&self, cm: &Vec<bool>) -> (m: Vec<bool>)
        requires
            cm.len() == self@.clusters.len(),
        ensures
            m.len() == self@.nodes.len(),
            forall|i: int|
                0 <= i < m.len() ==> #[trigger] m[i] == exists|c: int|
                    0 <= c < cm.len() && cm[c] && holds_node(self@, c, i),
    {
        proof {
            use_type_invariant(self);
        }
        let ghost g = self@;
        let n = self.nodes.len();
        let mut m: Vec<bool> = Vec::new();
        let mut i: usize = 0;
        while i < n
            invariant
                i <= n,
                m.len() == i,
                forall|j: int| 0 <= j < i ==> !#[trigger] m[j],
            decreases n - i,
        {
            m.push(false);
            i = i + 1;
        }
        let mut c: usize = 0;
        while c < self.subgraphs.len()
            invariant
                g == self@,
                wf(g),
                n == g.nodes.len(),
                cm.len() == g.clusters.len(),
                c <= g.clusters.len(),
                m.len() == n,
                forall|j: int|
                    0 <= j < n ==> #[trigger] m[j] == exists|d: int| 0 <= d < c && cm[d] && holds_node(g, d, j),
            decreases self.subgraphs.len() - c,
        {
            let sg = &self.subgraphs[c];
            let ghost cl = g.clusters[c as int];
            assert(sg@ == cl);
            if cm[c] {
                let mut k: usize = 0;
                while k < sg.node_ids.len()
                    invariant
                        g == self@,
                        wf(g),
                        n == g.nodes.len(),
                        c < g.clusters.len(),
                        cm.len() == g.clusters.len(),
                        cm[c as int],
                        cl == g.clusters[c as int],
                        sg@ == cl,
                        k <= sg.node_ids.len(),
                        m.len() == n,
                        forall|j: int|
                            0 <= j < n ==> #[trigger] m[j] == ((exists|d: int| 0 <= d < c && cm[d] && holds_node(g, d, j))
                                || exists|q: int| 0 <= q < k && cl.nodes[q] == j),
                    decreases sg.node_ids.len() - k,
                {
                    let x = sg.node_ids[k];
                    assert(cl.nodes[k as int] == x);
                    assert(x < n);
                    m.set(x, true);
                    k = k + 1;
                }
            }
            proof {
                assert forall|j: int| 0 <= j < n implies #[trigger] m[j] == exists|d: int|
                    0 <= d < c + 1 && cm[d] && holds_node(g, d, j) by {
                    if cm[c as int] && holds_node(g, c as int, j) {
                        let q = choose|q: int| 0 <= q < g.clusters[c as int].nodes.len() && (#[trigger] g.clusters[c as int].nodes[q]) == j;
                        assert(cl.nodes[q] == j);
                    }
                    if exists|q: int| 0 <= q < cl.nodes.len() && cl.nodes[q] == j {
                        let q = choose|q: int| 0 <= q < cl.nodes.len() && cl.nodes[q] == j;
                        assert(holds_node(g, c as int, j));
                    }
                }
            }
            c = c + 1;
        }
        m
    }

    /// Marks the edges held directly by a marked subgraph.
    fn held_edge_marks(&self, cm: &Vec<bool>) -> (m: Vec<bool>)
        requires
            cm.len() == self@.clusters.len(),
        ensures
            m.len() == self@.edges.len(),
            forall|i: int|
                0 <= i < m.len() ==> #[trigger] m[i] == exists|c: int|
                    0 <= c < cm.len() && cm[c] && holds_edge(self@, c, i),
    {
        proof {
            use_type_invariant(self);
        }
        let ghost g = self@;
        let n = self.edges.len();
        let mut m: Vec<bool> = Vec::new();
        let mut i: usize = 0;
        while i < n
            invariant
                i <= n,
                m.len() == i,
                forall|j: int| 0 <= j < i ==> !#[trigger] m[j],
            decreases n - i,
        {
            m.push(false);
            i = i + 1;
        }
        let mut c: usize = 0;
        while c < self.subgraphs.len()
            invariant
                g == self@,
                wf(g),
                n == g.edges.len(),
                cm.len() == g.clusters.len(),
                c <= g.clusters.len(),
                m.len() == n,
                forall|j: int|
                    0 <= j < n ==> #[trigger] m[j] == exists|d: int| 0 <= d < c && cm[d] && holds_edge(g, d, j),
            decreases self.subgraphs.len() - c,
        {
            let sg = &self.subgraphs[c];
            let ghost cl = g.clusters[c as int];
            assert(sg@ == cl);
            if cm[c] {
                let mut k: usize = 0;
                while k < sg.edge_ids.len()
                    invariant
                        g == self@,
                        wf(g),
                        n == g.edges.len(),
                        c < g.clusters.len(),
                        cm.len() == g.clusters.len(),
                        cm[c as int],
                        cl == g.clusters[c as int],
                        sg@ == cl,
                        k <= sg.edge_ids.len(),
                        m.len() == n,
                        forall|j: int|
                            0 <= j < n ==> #[trigger] m[j] == ((exists|d: int| 0 <= d < c && cm[d] && holds_edge(g, d, j))
                                || exists|q: int| 0 <= q < k && cl.edges[q] == j),
                    decreases sg.edge_ids.len() - k,
                {
                    let x = sg.edge_ids[k];
                    assert(cl.edges[k as int] == x);
                    assert(x < n);
                    m.set(x, true);
                    k = k + 1;
                }
            }
            proof {
                assert forall|j: int| 0 <= j < n implies #[trigger] m[j] == exists|d: int|
                    0 <= d < c + 1 && cm[d] && holds_edge(g, d, j) by {
                    if cm[c as int] && holds_edge(g, c as int, j) {
                        let q = choose|q: int| 0 <= q < g.clusters[c as int].edges.len() && (#[trigger] g.clusters[c as int].edges[q]) == j;
                        assert(cl.edges[q] == j);
                    }
                    if exists|q: int| 0 <= q < cl.edges.len() && cl.edges[q] == j {
                        let q = choose|q: int| 0 <= q < cl.edges.len() && cl.edges[q] == j;
                        assert(holds_edge(g, c as int, j));
                    }
                }
            }
            c = c + 1;
        }
        m
    }

    /// The ids of the nodes held by the subgraph `id` or by any subgraph
    /// below it, each once.
    pub fn collect_nodes(&self, id: &String) -> (r: Result<Vec<String>, DotGraphError>)
        ensures
            r is Err <==> !has_cluster(self@, id@),
            r matches Err(e) ==> no_such_subgraph(e, id@, self@.id),
            r matches Ok(v) ==> id_set(v@) == subtree_node_ids(self@, cluster_index(self@, id@)),
            r matches Ok(v) ==> forall|j: int, k: int|
                0 <= j < v.len() && 0 <= k < v.len() && j != k ==> (#[trigger] v@[j])@ != (#[trigger] v@[k])@,
    {
        proof {
            use_type_invariant(self);
        }
        let ghost g = self@;
        match self.find_subgraph(id) {
            None => Err(DotGraphError::NoSuchSubGraph(id.clone(), self.id.clone())),
            Some(r) => {
                let cm = self.subtree_marks(r);
                let nm = self.held_node_marks(&cm);
                let v = self.ids_where(&nm);
                proof {
                    assert(has_cluster(g, id@));
                    let ri = cluster_index(g, id@);
                    assert(ri == r as int);
                    assert(id_set(v@) =~= subtree_node_ids(g, ri)) by {
                        assert forall|x: Seq<char>| id_set(v@).contains(x) implies subtree_node_ids(g, ri).contains(x) by {
                            let k = choose|k: int| 0 <= k < g.nodes.len() && (#[trigger] g.nodes[k]).id == x;
                            assert(nm[k]);
                            let c = choose|c: int| 0 <= c < cm.len() && cm[c] && holds_node(g, c, k);
                            assert(descends(g, ri, c) && holds_node(g, c, k) && g.nodes[k].id == x);
                        }
                        assert forall|x: Seq<char>| subtree_node_ids(g, ri).contains(x) implies id_set(v@).contains(x) by {
                            let (c, k) = choose|c: int, k: int| descends(g, ri, c) && #[trigger] holds_node(g, c, k) && g.nodes[k].id == x;
                            let q = choose|q: int| 0 <= q < g.clusters[c].nodes.len() && (#[trigger] g.clusters[c].nodes[q]) == k;
                            let cl = g.clusters[c];
                            assert(cl.nodes[q] < g.nodes.len());
                            assert(cm[c]);
                            assert(nm[k]);
                        }
                    }
                }
                Ok(v)
            },
        }
    }

    /// The ids of the edges held by the subgraph `id` or by any subgraph
    /// below it.
    pub fn collect_edges(&self, id: &String) -> (r: Result<Vec<EdgeId>, DotGraphError>)
        ensures
            r is Err <==> !has_cluster(self@, id@),
            r matches Err(e) ==> no_such_subgraph(e, id@, self@.id),
            r matches Ok(v) ==> edge_id_set(v@) == subtree_edge_ids(self@, cluster_index(self@, id@)),
    {
        proof {
            use_type_invariant(self);
        }
        let ghost g = self@;
        match self.find_subgraph(id) {
            None => Err(DotGraphError::NoSuchSubGraph(id.clone(), self.id.clone())),
            Some(r) => {
                let cm = self.subtree_marks(r);
                let em = self.held_edge_marks(&cm);
                let mut v: Vec<EdgeId> = Vec::new();
                let mut e: usize = 0;
                while e < self.edges.len()
                    invariant
                        g == self@,
                        e <= self.edges.len(),
                        em.len() == g.edges.len(),
                        forall|x: EdgeIdView| #[trigger] edge_id_set(v@).contains(x) <==> exists|f: int|
                            0 <= f < e && em[f] && g.edges[f].id == x,
                    decreases self.edges.len() - e,
                {
                    if em[e] {
                        let ghost before = v@;
                        let item = self.edges[e].id().clone();
                        v.push(item);
                        proof {
                            assert(g.edges[e as int] == self.edges@[e as int]@);
                            assert forall|x: EdgeIdView| #[trigger] edge_id_set(v@).contains(x) <==> (edge_id_set(before).contains(x) || x == item@) by {
                                if edge_id_set(v@).contains(x) {
                                    let i = choose|i: int| 0 <= i < v@.len() && (#[trigger] v@[i])@ == x;
                                    if i < before.len() {
                                        assert(before[i] == v@[i]);
                                    }
                                }
                                if edge_id_set(before).contains(x) {
                                    let i = choose|i: int| 0 <= i < before.len() && (#[trigger] before[i])@ == x;
                                    assert(before[i] == v@[i]);
                                }
                                if x == item@ {
                                    assert(v@[before.len() as int] == item);
                                }
                            }
                        }
                    }
                    e = e + 1;
                }
                proof {
                    assert(has_cluster(g, id@));
                    let ri = cluster_index(g, id@);
                    assert(ri == r as int);
                    assert(edge_id_set(v@) =~= subtree_edge_ids(g, ri)) by {
                        assert forall|x: EdgeIdView| edge_id_set(v@).contains(x) implies subtree_edge_ids(g, ri).contains(x) by {
                            let f = choose|f: int| 0 <= f < g.edges.len() && em[f] && g.edges[f].id == x;
                            let c = choose|c: int| 0 <= c < cm.len() && cm[c] && holds_edge(g, c, f);
                            assert(descends(g, ri, c) && holds_edge(g, c, f) && g.edges[f].id == x);
                        }
                        assert forall|x: EdgeIdView| subtree_edge_ids(g, ri).contains(x) implies edge_id_set(v@).contains(x) by {
                            let (c, f) = choose|c: int, f: int| descends(g, ri, c) && #[trigger] holds_edge(g, c, f) && g.edges[f].id == x;
                            let q = choose|q: int| 0 <= q < g.clusters[c].edges.len() && (#[trigger] g.clusters[c].edges[q]) == f;
                            let cl = g.clusters[c];
                            assert(cl.edges[q] < g.edges.len());
                            assert(cm[c]);
                            assert(em[f]);
                        }
                    }
                }
                Ok(v)
            },
        }
    }

    /// The ids of the subgraphs below the subgraph `id`.
    pub fn collect_subgraphs(&self, id: &String) -> (r: Result<Vec<String>, DotGraphError>)
        ensures
            r is Err <==> !has_cluster(self@, id@),
            r matches Err(e) ==> no_such_subgraph(e, id@, self@.id),
            r matches Ok(v) ==> id_set(v@) == below_ids(self@, cluster_index(self@, id@)),
    {
        proof {
            use_type_invariant(self);
        }
        let ghost g = self@;
        match self.find_subgraph(id) {
            None => Err(DotGraphError::NoSuchSubGraph(id.clone(), self.id.clone())),
            Some(r) => {
                let cm = self.subtree_marks(r);
                let mut v: Vec<String> = Vec::new();
                let mut c: usize = 0;
                while c < self.subgraphs.len()
                    invariant
                        g == self@,
                        c <= self.subgraphs.len(),
                        cm.len() == g.clusters.len(),
                        forall|x: Seq<char>| #[trigger] id_set(v@).contains(x) <==> exists|d: int|
                            0 <= d < c && cm[d] && d != r && g.clusters[d].id == x,
                    decreases self.subgraphs.len() - c,
                {
                    if cm[c] && c != r {
                        let ghost before = v@;
                        let item = self.subgraphs[c].id.clone();
                        v.push(item);
                        proof {
                            assert(g.clusters[c as int] == self.subgraphs@[c as int]@);
                            assert forall|x: Seq<char>| #[trigger] id_set(v@).contains(x) <==> (id_set(before).contains(x) || x == item@) by {
                                if id_set(v@).contains(x) {
                                    let i = choose|i: int| 0 <= i < v@.len() && (#[trigger] v@[i])@ == x;
                                    if i < before.len() {
                                        assert(before[i] == v@[i]);
                                    }
                                }
                                if id_set(before).contains(x) {
                                    let i = choose|i: int| 0 <= i < before.len() && (#[trigger] before[i])@ == x;
                                    assert(before[i] == v@[i]);
                                }
                                if x == item@ {
                                    assert(v@[before.len() as int] == item);
                                }
                            }
                        }
                    }
                    c = c + 1;
                }
                proof {
                    assert(has_cluster(g, id@));
                    let ri = cluster_index(g, id@);
                    assert(ri == r as int);
                    assert(id_set(v@) =~= below_ids(g, ri)) by {
                        assert forall|x: Seq<char>| id_set(v@).contains(x) implies below_ids(g, ri).contains(x) by {
                            let d = choose|d: int| 0 <= d < g.clusters.len() && cm[d] && d != r && g.clusters[d].id == x;
                            assert(descends(g, ri, d));
                        }
                        assert forall|x: Seq<char>| below_ids(g, ri).contains(x) implies id_set(v@).contains(x) by {
                            let d = choose|d: int| #[trigger] descends(g, ri, d) && d != ri && g.clusters[d].id == x;
                            assert(cm[d]);
                        }
                    }
                }
                Ok(v)
            },
        }
    }

    /// The graph induced by the nodes held by the subgraph `root` or by any
    /// subgraph below it; `Ok(None)` where those hold no node.
    pub fn subgraph(&self, root: &String) -> (r: Result<Option<Graph>, DotGraphError>)
        ensures
            r is Err <==> !has_cluster(self@, root@),
            r matches Err(e) ==> no_such_subgraph(e, root@, self@.id),
            r matches Ok(o) ==> (o is None <==> !keeps_some(self@, subtree_node_ids(self@, cluster_index(self@, root@)))),
            r matches Ok(o) ==> (o matches Some(x) ==> x@ == extracted(self@, subtree_node_ids(self@, cluster_index(self@, root@)))
                && wf(x@)),
    {
        proof {
            use_type_invariant(self);
        }
        let ghost g = self@;
        match self.collect_nodes(root) {
            Err(e) => Err(e),
            Ok(keep) => {
                proof {
                    let s1 = id_set(keep@);
                    let s2 = subtree_node_ids(g, cluster_index(g, root@));
                    lemma_extracted_agree(g, s1, s2);
                    assert(keeps_some(g, s1) == keeps_some(g, s2)) by {
                        if keeps_some(g, s1) {
                            let k = choose|k: int| node_kept(g, s1, k);
                            assert(node_kept(g, s2, k));
                        }
                        if keeps_some(g, s2) {
                            let k = choose|k: int| node_kept(g, s2, k);
                            assert(node_kept(g, s1, k));
                        }
                    }
                }
                Ok(self.extract(keep.as_slice()))
            },
        }
    }
}

} // verus!
