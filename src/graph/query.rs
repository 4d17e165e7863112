use vstd::prelude::*;
use super::{id_set, ends_match, links, Graph, SubGraph};
use crate::edge::{Edge, EdgeId, EdgeIdView};
use crate::node::Node;
use crate::error::DotGraphError;
use crate::model::{
    adjacent, cluster_index, extracted, has_cluster, has_node, pred_ids, succ_ids, has_prefix, keeps_some, lemma_extracted_agree, lemma_within_grows,
    lemma_within_stable, near_ids, node_kept, prefixed, within, wf, GraphView,
};

verus! {

/// Whether `s` starts with `p`.
pub fn starts_with(s: &str, p: &str) -> (r: bool)
    ensures
        r == has_prefix(s@, p@),
{
    let n = s.unicode_len();
    let m = p.unicode_len();
    if m > n {
        return false;
    }
    let mut i: usize = 0;
    while i < m
        invariant
            i <= m <= n,
            n == s@.len(),
            m == p@.len(),
            forall|k: int| 0 <= k < i ==> s@[k] == p@[k],
        decreases m - i,
    {
        if s.get_char(i) != p.get_char(i) {
            assert(s@.subrange(0, m as int)[i as int] != p@[i as int]);
            return false;
        }
        i = i + 1;
    }
    assert(s@.subrange(0, m as int) =~= p@);
    true
}

/// The position of the node with id `x`, where there is one.
pub open spec fn node_index(g: GraphView, x: Seq<char>) -> int {
    choose|i: int| 0 <= i < g.nodes.len() && (#[trigger] g.nodes[i]).id == x
}

/// `e` is the error for a node id `x` missing from graph `gid`.
pub open spec fn no_such_node(e: DotGraphError, x: Seq<char>, gid: Seq<char>) -> bool {
    match e {
        DotGraphError::NoSuchNode(a, b) => a@ == x && b@ == gid,
        _ => false,
    }
}

/// `e` is the error for a subgraph id `x` missing from graph `gid`.
pub open spec fn no_such_subgraph(e: DotGraphError, x: Seq<char>, gid: Seq<char>) -> bool {
    match e {
        DotGraphError::NoSuchSubGraph(a, b) => a@ == x && b@ == gid,
        _ => false,
    }
}

impl Graph {
    /// The id of the graph, which is also the id of its root subgraph.
    pub fn id(&self) -> (r: &String)
        ensures
            r@ == self@.id,
    {
        &self.id
    }

    /// The position of the node with id `id`.
    pub fn find_node(&self, id: &String) -> (r: Option<usize>)
        ensures
            r matches Some(i) ==> i < self@.nodes.len() && self@.nodes[i as int].id == id@,
            r is None ==> !has_node(self@, id@),
    {
        let ghost g = self@;
        let mut i: usize = 0;
        while i < self.nodes.len()
            invariant
                g == self@,
                i <= self.nodes.len(),
                forall|k: int| 0 <= k < i ==> (#[trigger] g.nodes[k]).id != id@,
            decreases self.nodes.len() - i,
        {
            assert(g.nodes[i as int] == self.nodes@[i as int]@);
            if *self.nodes[i].id() == *id {
                return Some(i);
            }
            i = i + 1;
        }
        None
    }

    /// The ids of the nodes whose mark is set, each once, in order.
    pub(crate) fn ids_where(&self, marks: &Vec<bool>) -> (r: Vec<String>)
        requires
            marks.len() == self@.nodes.len(),
        ensures
            forall|i: int| 0 <= i < marks.len() ==> id_set(r@).contains(#[trigger] self@.nodes[i].id) == marks[i],
            forall|x: Seq<char>| #[trigger] id_set(r@).contains(x) ==> has_node(self@, x),
            forall|j: int, k: int| 0 <= j < r.len() && 0 <= k < r.len() && j != k ==> (#[trigger] r@[j])@ != (#[trigger] r@[k])@,
    {
        proof {
            use_type_invariant(self);
        }
        let ghost g = self@;
        let mut out: Vec<String> = Vec::new();
        let ghost mut src: Seq<int> = Seq::empty();
        let mut i: usize = 0;
        while i < self.nodes.len()
            invariant
                g == self@,
                wf(g),
                marks.len() == g.nodes.len(),
                i <= self.nodes.len(),
                src.len() == out.len(),
                forall|j: int| 0 <= j < src.len() ==> 0 <= #[trigger] src[j] < i && marks[src[j]] && out@[j]@ == g.nodes[src[j]].id,
                forall|j: int, k: int| 0 <= j < k < src.len() ==> #[trigger] src[j] < #[trigger] src[k],
                forall|k: int| 0 <= k < i && marks[k] ==> exists|j: int| 0 <= j < src.len() && #[trigger] src[j] == k,
            decreases self.nodes.len() - i,
        {
            let ghost old_src = src;
            if marks[i] {
                assert(g.nodes[i as int] == self.nodes@[i as int]@);
                out.push(self.nodes[i].id().clone());
                proof {
                    src = src.push(i as int);
                    assert(src[src.len() - 1] == i);
                }
            }
            proof {
                assert forall|k: int| 0 <= k < i + 1 && marks[k] implies exists|j: int| 0 <= j < src.len() && #[trigger] src[j] == k by {
                    if k == i {
                        assert(src[src.len() - 1] == k);
                    } else {
                        let j = choose|j: int| 0 <= j < old_src.len() && #[trigger] old_src[j] == k;
                        assert(src[j] == old_src[j]);
                    }
                }
            }
            i = i + 1;
        }
        proof {
            assert forall|k: int| 0 <= k < marks.len() implies id_set(out@).contains(#[trigger] g.nodes[k].id) == marks[k] by {
                if marks[k] {
                    let j = choose|j: int| 0 <= j < src.len() && #[trigger] src[j] == k;
                    assert(out@[j]@ == g.nodes[k].id);
                }
                if id_set(out@).contains(g.nodes[k].id) {
                    let j = choose|j: int| 0 <= j < out@.len() && (#[trigger] out@[j])@ == g.nodes[k].id;
                    assert(g.nodes[src[j]].id == g.nodes[k].id);
                }
            }
            assert forall|x: Seq<char>| #[trigger] id_set(out@).contains(x) implies has_node(g, x) by {
                let j = choose|j: int| 0 <= j < out@.len() && (#[trigger] out@[j])@ == x;
                assert(g.nodes[src[j]].id == x);
            }
            assert forall|j: int, k: int| 0 <= j < out.len() && 0 <= k < out.len() && j != k implies (#[trigger] out@[j])@ != (#[trigger] out@[k])@ by {
                if j < k {
                    assert(src[j] < src[k]);
                } else {
                    assert(src[k] < src[j]);
                }
            }
        }
        out
    }

    /// The graph induced by the nodes whose id starts with `prefix`; `None`
    /// where no node id does.
    pub fn filter(&self, prefix: &str) -> (r: Option<Graph>)
        ensures
            r is None <==> !keeps_some(self@, prefixed(prefix@)),
            r matches Some(x) ==> x@ == extracted(self@, prefixed(prefix@)) && wf(x@),
    {
        proof {
            use_type_invariant(self);
        }
        let ghost g = self@;
        let mut marks: Vec<bool> = Vec::new();
        let mut i: usize = 0;
        while i < self.nodes.len()
            invariant
                g == self@,
                i <= self.nodes.len(),
                marks.len() == i,
                forall|k: int| 0 <= k < i ==> #[trigger] marks[k] == has_prefix(g.nodes[k].id, prefix@),
            decreases self.nodes.len() - i,
        {
            assert(g.nodes[i as int] == self.nodes@[i as int]@);
            marks.push(starts_with(self.nodes[i].id().as_str(), prefix));
            i = i + 1;
        }
        let keep = self.ids_where(&marks);
        proof {
            let s1 = id_set(keep@);
            let s2 = prefixed(prefix@);
            assert forall|k: int| 0 <= k < g.nodes.len() implies s1.contains(#[trigger] g.nodes[k].id) == s2.contains(g.nodes[k].id) by {
                assert(marks[k] == has_prefix(g.nodes[k].id, prefix@));
            }
            lemma_extracted_agree(g, s1, s2);
            assert(keeps_some(g, s1) == keeps_some(g, s2)) by {
                if keeps_some(g, s1) {
                    let k = choose|k: int| node_kept(g, s1, k);
                    assert(node_kept(g, s2, k));
                }
                if keeps_some(g, s2) {
                    let k = choose|k: int| node_kept(g, s2, k);
                    assert(node_kept(g, s1, k));
                }
            }
        }
        self.extract(keep.as_slice())
    }

    /// One more step of the walk from node `c`: the nodes marked, and every
    /// node joined by an edge to a marked one.
    fn step(&self, marks: &Vec<bool>, Ghost(c): Ghost<int>, Ghost(k): Ghost<nat>) -> (next: Vec<bool>)
        requires
            marks.len() == self@.nodes.len(),
            forall|v: int| 0 <= v < marks.len() ==> #[trigger] marks[v] == within(self@, c, v, k),
        ensures
            next.len() == marks.len(),
            forall|v: int| 0 <= v < next.len() ==> #[trigger] next[v] == within(self@, c, v, k + 1),
    {
        proof {
            use_type_invariant(self);
        }
        let ghost g = self@;
        let n = marks.len();
        let mut next: Vec<bool> = Vec::new();
        let mut i: usize = 0;
        while i < n
            invariant
                i <= n,
                n == marks.len(),
                next@ == marks@.take(i as int),
            decreases n - i,
        {
            next.push(marks[i]);
            proof {
                assert(next@ =~= marks@.take(i + 1));
            }
            i = i + 1;
        }
        proof {
            assert(next@ =~= marks@);
        }
        let mut e: usize = 0;
        while e < self.ends.len()
            invariant
                g == self@,
                wf(g),
                ends_match(g, self.ends@),
                n == marks.len(),
                n == g.nodes.len(),
                next.len() == n,
                e <= self.ends.len(),
                forall|v: int|
                    0 <= v < n ==> #[trigger] next[v] == (marks[v] || exists|f: int|
                        0 <= f < e && ((self.ends@[f].0 == v && marks[self.ends@[f].1 as int]) || (
                        self.ends@[f].1 == v && marks[self.ends@[f].0 as int]))),
            decreases self.ends.len() - e,
        {
            let (a, b) = self.ends[e];
            proof {
                let p = self.ends@[e as int];
            }
            if marks[a] {
                next.set(b, true);
            }
            if marks[b] {
                next.set(a, true);
            }
            proof {
                assert forall|v: int| 0 <= v < n implies #[trigger] next[v] == (marks[v] || exists|f: int|
                    0 <= f < e + 1 && ((self.ends@[f].0 == v && marks[self.ends@[f].1 as int]) || (
                    self.ends@[f].1 == v && marks[self.ends@[f].0 as int]))) by {
                    if (v == b && marks[a as int]) || (v == a && marks[b as int]) {
                        assert(self.ends@[e as int] == (a, b));
                    }
                }
            }
            e = e + 1;
        }
        proof {
            assert forall|v: int| 0 <= v < n implies #[trigger] next[v] == within(g, c, v, k + 1) by {
                if next[v] {
                    if marks[v] {
                        lemma_within_grows(g, c, v, k);
                    } else {
                        let f = choose|f: int|
                            0 <= f < self.ends.len() && ((self.ends@[f].0 == v && marks[self.ends@[f].1 as int]) || (
                            self.ends@[f].1 == v && marks[self.ends@[f].0 as int]));
                        let p = self.ends@[f];
                        if p.0 == v && marks[p.1 as int] {
                            assert(adjacent(g, p.1 as int, v));
                        } else {
                            assert(adjacent(g, p.0 as int, v));
                        }
                    }
                }
                if within(g, c, v, k + 1) {
                    if v == c {
                        assert(within(g, c, v, k));
                    } else {
                        let u = choose|u: int|
                            0 <= u < g.nodes.len() && #[trigger] adjacent(g, u, v) && within(g, c, u, k);
                        let f = choose|f: int|
                            0 <= f < g.edges.len() && ({
                                let id = (#[trigger] g.edges[f]).id;
                                (id.from == g.nodes[u].id && id.to == g.nodes[v].id) || (id.from == g.nodes[v].id
                                    && id.to == g.nodes[u].id)
                            });
                        let p = self.ends@[f];
                        if g.edges[f].id.from == g.nodes[u].id && g.edges[f].id.to == g.nodes[v].id {
                            assert(p.0 == u);
                            assert(p.1 == v);
                        } else {
                            assert(p.0 == v);
                            assert(p.1 == u);
                        }
                    }
                }
            }
        }
        next
    }

    /// Marks the nodes at most `depth` edges, either way, from node `c`.
    fn near_marks(&self, c: usize, depth: usize) -> (m: Vec<bool>)
        requires
            c < self@.nodes.len(),
        ensures
            m.len() == self@.nodes.len(),
            forall|v: int| 0 <= v < m.len() ==> #[trigger] m[v] == within(self@, c as int, v, depth as nat),
    {
        let ghost g = self@;
        let n = self.nodes.len();
        let mut marks: Vec<bool> = Vec::new();
        let mut i: usize = 0;
        while i < n
            invariant
                i <= n,
                n == g.nodes.len(),
                marks.len() == i,
                forall|v: int| 0 <= v < i ==> #[trigger] marks[v] == within(g, c as int, v, 0),
            decreases n - i,
        {
            marks.push(i == c);
            i = i + 1;
        }
        let mut k: usize = 0;
        let mut stable = false;
        while k < depth && !stable
            invariant
                g == self@,
                n == g.nodes.len(),
                c < n,
                k <= depth,
                marks.len() == n,
                forall|v: int| 0 <= v < n ==> #[trigger] marks[v] == within(g, c as int, v, k as nat),
                stable ==> forall|v: int| within(g, c as int, v, (k + 1) as nat) == #[trigger] within(g, c as int, v, k as nat),
            decreases depth - k, if stable { 0int } else { 1int },
        {
            let next = self.step(&marks, Ghost(c as int), Ghost(k as nat));
            let mut same = true;
            let mut v: usize = 0;
            while v < n
                invariant
                    v <= n,
                    n == marks.len(),
                    n == next.len(),
                    same == forall|w: int| 0 <= w < v ==> #[trigger] next[w] == marks[w],
                decreases n - v,
            {
                if next[v] != marks[v] {
                    same = false;
                }
                v = v + 1;
            }
            if same {
                stable = true;
                proof {
                    assert forall|v: int| within(g, c as int, v, (k + 1) as nat) == #[trigger] within(g, c as int, v, k as nat) by {
                        if 0 <= v < n {
                            assert(next[v] == marks[v]);
                        }
                    }
                }
            } else {
                marks = next;
                k = k + 1;
            }
        }
        proof {
            if stable {
                lemma_within_stable(g, c as int, k as nat, depth as nat);
            }
        }
        marks
    }

    /// The graph induced by the nodes at most `depth` edges, in either
    /// direction, from the node `center`.
    pub fn neighbors(&self, center: &String, depth: usize) -> (r: Result<Graph, DotGraphError>)
        ensures
            r is Err <==> !has_node(self@, center@),
            r matches Err(e) ==> no_such_node(e, center@, self@.id),
            r matches Ok(x) ==> x@ == extracted(self@, near_ids(self@, node_index(self@, center@), depth as nat))
                && wf(x@),
    {
        proof {
            use_type_invariant(self);
        }
        let ghost g = self@;
        match self.find_node(center) {
            None => Err(DotGraphError::NoSuchNode(center.clone(), self.id.clone())),
            Some(c) => {
                let marks = self.near_marks(c, depth);
                let keep = self.ids_where(&marks);
                proof {
                    let ci = node_index(g, center@);
                    assert(has_node(g, center@));
                    assert(ci == c as int);
                    let s1 = id_set(keep@);
                    let s2 = near_ids(g, ci, depth as nat);
                    assert forall|k: int| 0 <= k < g.nodes.len() implies s1.contains(#[trigger] g.nodes[k].id) == s2.contains(g.nodes[k].id) by {
                        assert(marks[k] == within(g, ci, k, depth as nat));
                        if s2.contains(g.nodes[k].id) {
                            let v = choose|v: int| #[trigger] within(g, ci, v, depth as nat) && g.nodes[v].id == g.nodes[k].id;
                            assert(v == k);
                        }
                    }
                    lemma_extracted_agree(g, s1, s2);
                    assert(within(g, ci, ci, depth as nat));
                    assert(node_kept(g, s1, ci));
                }
                let x = self.extract(keep.as_slice()).unwrap();
                Ok(x)
            },
        }
    }

    /// The node with id `id`.
    pub fn search_node(&self, id: &String) -> (r: Option<&Node>)
        ensures
            r is None <==> !has_node(self@, id@),
            r matches Some(n) ==> n@ == self@.nodes[node_index(self@, id@)],
    {
        proof {
            use_type_invariant(self);
        }
        match self.find_node(id) {
            None => None,
            Some(i) => {
                assert(self@.nodes[i as int] == self.nodes@[i as int]@);
                assert(node_index(self@, id@) == i);
                Some(&self.nodes[i])
            },
        }
    }

    /// The edge with id `id`.
    pub fn search_edge(&self, id: &EdgeId) -> (r: Option<&Edge>)
        ensures
            r is None <==> !has_edge_id(self@, id@),
            r matches Some(e) ==> e@.id == id@ && has_edge_id(self@, id@) && e@ == self@.edges[edge_index(self@, id@)],
    {
        proof {
            use_type_invariant(self);
        }
        let ghost g = self@;
        let mut i: usize = 0;
        while i < self.edges.len()
            invariant
                g == self@,
                wf(g),
                i <= self.edges.len(),
                forall|k: int| 0 <= k < i ==> (#[trigger] g.edges[k]).id != id@,
            decreases self.edges.len() - i,
        {
            assert(g.edges[i as int] == self.edges@[i as int]@);
            if self.edges[i].id().same(id) {
                assert(has_edge_id(g, id@));
                assert(edge_index(g, id@) == i);
                return Some(&self.edges[i]);
            }
            i = i + 1;
        }
        None
    }

    /// The subgraph record with id `id`.
    pub fn search_subgraph(&self, id: &String) -> (r: Option<&SubGraph>)
        ensures
            r is None <==> !has_cluster(self@, id@),
            r matches Some(s) ==> s@ == self@.clusters[cluster_index(self@, id@)],
    {
        proof {
            use_type_invariant(self);
        }
        match self.find_subgraph(id) {
            None => None,
            Some(c) => {
                assert(self@.clusters[c as int] == self.subgraphs@[c as int]@);
                assert(cluster_index(self@, id@) == c);
                Some(&self.subgraphs[c])
            },
        }
    }

    /// The ids of the nodes at `row` positions.
    fn ids_at(&self, row: &Vec<usize>) -> (r: Vec<String>)
        requires
            forall|k: int| 0 <= k < row.len() ==> #[trigger] row[k] < self@.nodes.len(),
        ensures
            r.len() == row.len(),
            forall|k: int| 0 <= k < r.len() ==> (#[trigger] r@[k])@ == self@.nodes[row[k] as int].id,
    {
        let ghost g = self@;
        let mut out: Vec<String> = Vec::new();
        let mut k: usize = 0;
        while k < row.len()
            invariant
                g == self@,
                k <= row.len(),
                out.len() == k,
                forall|j: int| 0 <= j < row.len() ==> #[trigger] row[j] < g.nodes.len(),
                forall|j: int| 0 <= j < k ==> (#[trigger] out@[j])@ == g.nodes[row[j] as int].id,
            decreases row.len() - k,
        {
            let x = row[k];
            assert(g.nodes[x as int] == self.nodes@[x as int]@);
            out.push(self.nodes[x].id().clone());
            k = k + 1;
        }
        out
    }

    /// The ids of the nodes with an edge to the node `id`, each once.
    pub fn froms(&self, id: &String) -> (r: Result<Vec<String>, DotGraphError>)
        ensures
            r is Err <==> !has_node(self@, id@),
            r matches Err(e) ==> no_such_node(e, id@, self@.id),
            r matches Ok(v) ==> id_set(v@) == pred_ids(self@, id@),
            r matches Ok(v) ==> forall|j: int, k: int|
                0 <= j < v.len() && 0 <= k < v.len() && j != k ==> (#[trigger] v@[j])@ != (#[trigger] v@[k])@,
    {
        proof {
            use_type_invariant(self);
        }
        let ghost g = self@;
        match self.find_node(id) {
            None => Err(DotGraphError::NoSuchNode(id.clone(), self.id.clone())),
            Some(i) => {
                let row = &self.bwdmap[i];
                proof {
                    assert forall|k: int| 0 <= k < row.len() implies #[trigger] row[k] < g.nodes.len() by {
                        assert(self.bwdmap@[i as int]@.contains(row[k]));
                    }
                }
                let v = self.ids_at(row);
                proof {
                    assert(id_set(v@) =~= pred_ids(g, id@)) by {
                        assert forall|y: Seq<char>| id_set(v@).contains(y) implies pred_ids(g, id@).contains(y) by {
                            let j = choose|j: int| 0 <= j < v@.len() && (#[trigger] v@[j])@ == y;
                            let u = row[j];
                            assert(self.bwdmap@[i as int]@.contains(u));
                            assert(links(self.ends@, u as int, i as int));
                            let e = choose|e: int| 0 <= e < self.ends@.len() && (#[trigger] self.ends@[e]).0 == u as int && self.ends@[e].1 == i as int;
                            assert(g.edges[e].id.from == y && g.edges[e].id.to == id@);
                        }
                        assert forall|y: Seq<char>| pred_ids(g, id@).contains(y) implies id_set(v@).contains(y) by {
                            let e = choose|e: int| 0 <= e < g.edges.len() && (#[trigger] g.edges[e]).id.from == y && g.edges[e].id.to == id@;
                            let p = self.ends@[e];
                            assert(p.1 == i);
                            assert(links(self.ends@, p.0 as int, i as int));
                            assert(self.bwdmap@[i as int]@.contains(p.0));
                            let j = choose|j: int| 0 <= j < row@.len() && row@[j] == p.0;
                            assert(v@[j]@ == y);
                        }
                    }
                    assert forall|j: int, k: int| 0 <= j < v.len() && 0 <= k < v.len() && j != k implies (#[trigger] v@[j])@ != (#[trigger] v@[k])@ by {
                        assert(self.bwdmap@[i as int]@.no_duplicates());
                        assert(row[j] != row[k]);
                    }
                }
                Ok(v)
            },
        }
    }

    /// The ids of the nodes with an edge from the node `id`, each once.
    pub fn tos(&self, id: &String) -> (r: Result<Vec<String>, DotGraphError>)
        ensures
            r is Err <==> !has_node(self@, id@),
            r matches Err(e) ==> no_such_node(e, id@, self@.id),
            r matches Ok(v) ==> id_set(v@) == succ_ids(self@, id@),
            r matches Ok(v) ==> forall|j: int, k: int|
                0 <= j < v.len() && 0 <= k < v.len() && j != k ==> (#[trigger] v@[j])@ != (#[trigger] v@[k])@,
    {
        proof {
            use_type_invariant(self);
        }
        let ghost g = self@;
        match self.find_node(id) {
            None => Err(DotGraphError::NoSuchNode(id.clone(), self.id.clone())),
            Some(i) => {
                let row = &self.fwdmap[i];
                proof {
                    assert forall|k: int| 0 <= k < row.len() implies #[trigger] row[k] < g.nodes.len() by {
                        assert(self.fwdmap@[i as int]@.contains(row[k]));
                    }
                }
                let v = self.ids_at(row);
                proof {
                    assert(id_set(v@) =~= succ_ids(g, id@)) by {
                        assert forall|y: Seq<char>| id_set(v@).contains(y) implies succ_ids(g, id@).contains(y) by {
                            let j = choose|j: int| 0 <= j < v@.len() && (#[trigger] v@[j])@ == y;
                            let u = row[j];
                            assert(self.fwdmap@[i as int]@.contains(u));
                            assert(links(self.ends@, i as int, u as int));
                            let e = choose|e: int| 0 <= e < self.ends@.len() && (#[trigger] self.ends@[e]).0 == i as int && self.ends@[e].1 == u as int;
                            assert(g.edges[e].id.from == id@ && g.edges[e].id.to == y);
                        }
                        assert forall|y: Seq<char>| succ_ids(g, id@).contains(y) implies id_set(v@).contains(y) by {
                            let e = choose|e: int| 0 <= e < g.edges.len() && (#[trigger] g.edges[e]).id.from == id@ && g.edges[e].id.to == y;
                            let p = self.ends@[e];
                            assert(p.0 == i);
                            assert(links(self.ends@, i as int, p.1 as int));
                            assert(self.fwdmap@[i as int]@.contains(p.1));
                            let j = choose|j: int| 0 <= j < row@.len() && row@[j] == p.1;
                            assert(v@[j]@ == y);
                        }
                    }
                    assert forall|j: int, k: int| 0 <= j < v.len() && 0 <= k < v.len() && j != k implies (#[trigger] v@[j])@ != (#[trigger] v@[k])@ by {
                        assert(self.fwdmap@[i as int]@.no_duplicates());
                        assert(row[j] != row[k]);
                    }
                }
                Ok(v)
            },
        }
    }

    /// The ids of the nodes, in storage order; a subgraph record's node
    /// positions index this list.
    pub fn nodes(&self) -> (r: Vec<String>)
        ensures
            r.len() == self@.nodes.len(),
            forall|i: int| 0 <= i < r.len() ==> (#[trigger] r@[i])@ == self@.nodes[i].id,
    {
        let ghost g = self@;
        let mut out: Vec<String> = Vec::new();
        let mut i: usize = 0;
        while i < self.nodes.len()
            invariant
                g == self@,
                i <= self.nodes.len(),
                out.len() == i,
                forall|k: int| 0 <= k < i ==> (#[trigger] out@[k])@ == g.nodes[k].id,
            decreases self.nodes.len() - i,
        {
            assert(g.nodes[i as int] == self.nodes@[i as int]@);
            out.push(self.nodes[i].id().clone());
            i = i + 1;
        }
        out
    }

    /// The ids of the edges, in storage order; a subgraph record's edge
    /// positions index this list.
    pub fn edges(&self) -> (r: Vec<EdgeId>)
        ensures
            r.len() == self@.edges.len(),
            forall|i: int| 0 <= i < r.len() ==> (#[trigger] r@[i])@ == self@.edges[i].id,
    {
        let ghost g = self@;
        let mut out: Vec<EdgeId> = Vec::new();
        let mut i: usize = 0;
        while i < self.edges.len()
            invariant
                g == self@,
                i <= self.edges.len(),
                out.len() == i,
                forall|k: int| 0 <= k < i ==> (#[trigger] out@[k])@ == g.edges[k].id,
            decreases self.edges.len() - i,
        {
            assert(g.edges[i as int] == self.edges@[i as int]@);
            out.push(self.edges[i].id().clone());
            i = i + 1;
        }
        out
    }

    /// The ids of the subgraphs, in storage order (the root first); a
    /// subgraph record's child positions index this list.
    pub fn subgraphs(&self) -> (r: Vec<String>)
        ensures
            r.len() == self@.clusters.len(),
            forall|i: int| 0 <= i < r.len() ==> (#[trigger] r@[i])@ == self@.clusters[i].id,
    {
        let ghost g = self@;
        let mut out: Vec<String> = Vec::new();
        let mut i: usize = 0;
        while i < self.subgraphs.len()
            invariant
                g == self@,
                i <= self.subgraphs.len(),
                out.len() == i,
                forall|k: int| 0 <= k < i ==> (#[trigger] out@[k])@ == g.clusters[k].id,
            decreases self.subgraphs.len() - i,
        {
            assert(g.clusters[i as int] == self.subgraphs@[i as int]@);
            out.push(self.subgraphs[i].id.clone());
            i = i + 1;
        }
        out
    }

    /// Whether the graph holds no subgraph, node or edge.
    pub fn is_empty(&self) -> (r: bool)
        ensures
            r == (self@.clusters.len() == 0 && self@.nodes.len() == 0 && self@.edges.len() == 0),
    {
        self.subgraphs.len() == 0 && self.nodes.len() == 0 && self.edges.len() == 0
    }
}

/// Some edge of `g` has id `x`.
pub open spec fn has_edge_id(g: GraphView, x: EdgeIdView) -> bool {
    exists|e: int| 0 <= e < g.edges.len() && (#[trigger] g.edges[e]).id == x
}

/// The position of the edge with id `x`, where there is one.
pub open spec fn edge_index(g: GraphView, x: EdgeIdView) -> int {
    choose|e: int| 0 <= e < g.edges.len() && (#[trigger] g.edges[e]).id == x
}

} // verus!
