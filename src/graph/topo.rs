use vstd::prelude::*;
use vstd::set_lib::{lemma_int_range, lemma_len_subset, set_int_range};
use super::{adjacency, ends_match, links, Graph};
use crate::error::DotGraphError;
use crate::model::{acyclic, is_topological, lists_node, wf, GraphView};

verus! {

/// How many entries of `s` are not among `done`.
pub open spec fn count_out(s: Seq<usize>, done: Seq<usize>) -> nat
    decreases s.len(),
{
    if s.len() == 0 {
        0
    } else {
        count_out(s.drop_last(), done) + if done.contains(s.last()) {
            0nat
        } else {
            1nat
        }
    }
}

proof fn lemma_count_out_add(s: Seq<usize>, done: Seq<usize>, u: usize)
    requires
        s.no_duplicates(),
        !done.contains(u),
    ensures
        count_out(s, done.push(u)) + (if s.contains(u) { 1nat } else { 0nat }) == count_out(s, done),
    decreases s.len(),
{
    if s.len() > 0 {
        let t = s.drop_last();
        assert(t.no_duplicates());
        lemma_count_out_add(t, done, u);
        assert(s.contains(u) == (t.contains(u) || s.last() == u)) by {
            if s.contains(u) {
                let k = choose|k: int| 0 <= k < s.len() && s[k] == u;
                if k < t.len() {
                    assert(t[k] == u);
                }
            }
            if t.contains(u) {
                let k = choose|k: int| 0 <= k < t.len() && t[k] == u;
                assert(s[k] == u);
            }
        }
        if s.last() == u {
            assert(!t.contains(u)) by {
                if t.contains(u) {
                    let k = choose|k: int| 0 <= k < t.len() && t[k] == u;
                    assert(s[k] == s[s.len() - 1]);
                }
            }
        }
        assert(done.push(u).contains(s.last()) == (done.contains(s.last()) || s.last() == u)) by {
            let x = s.last();
            if done.push(u).contains(x) {
                let k = choose|k: int| 0 <= k < done.push(u).len() && done.push(u)[k] == x;
                if k < done.len() {
                    assert(done[k] == x);
                }
            }
            if done.contains(x) {
                let k = choose|k: int| 0 <= k < done.len() && done[k] == x;
                assert(done.push(u)[k] == x);
            }
            if x == u {
                assert(done.push(u)[done.len() as int] == x);
            }
        }
    }
}

proof fn lemma_count_out_zero(s: Seq<usize>, done: Seq<usize>)
    ensures
        count_out(s, done) == 0 <==> forall|k: int| 0 <= k < s.len() ==> done.contains(#[trigger] s[k]),
    decreases s.len(),
{
    if s.len() > 0 {
        let t = s.drop_last();
        lemma_count_out_zero(t, done);
        if count_out(s, done) == 0 {
            assert forall|k: int| 0 <= k < s.len() implies done.contains(#[trigger] s[k]) by {
                if k < t.len() {
                    assert(t[k] == s[k]);
                }
            }
        }
        if forall|k: int| 0 <= k < s.len() ==> done.contains(#[trigger] s[k]) {
            assert forall|k: int| 0 <= k < t.len() implies done.contains(#[trigger] t[k]) by {
                assert(t[k] == s[k]);
            }
            assert(done.contains(s[s.len() - 1]));
        }
    }
}

proof fn lemma_count_out_none(s: Seq<usize>)
    ensures
        count_out(s, Seq::empty()) == s.len(),
    decreases s.len(),
{
    if s.len() > 0 {
        lemma_count_out_none(s.drop_last());
    }
}

/// A list of distinct positions below `n` has at most `n` entries.
proof fn lemma_distinct_bound(s: Seq<usize>, n: nat)
    requires
        s.no_duplicates(),
        forall|k: int| 0 <= k < s.len() ==> #[trigger] s[k] < n,
    ensures
        s.len() <= n,
{
    let t = s.map_values(|x: usize| x as int);
    assert(t.no_duplicates()) by {
        assert forall|i: int, j: int| 0 <= i < t.len() && 0 <= j < t.len() && i != j implies t[i] != t[j] by {
            assert(s[i] != s[j]);
        }
    }
    t.unique_seq_to_set();
    lemma_int_range(0, n as int);
    assert(t.to_set().subset_of(set_int_range(0, n as int))) by {
        assert forall|x: int| t.to_set().contains(x) implies set_int_range(0, n as int).contains(x) by {
            let k = choose|k: int| 0 <= k < t.len() && t[k] == x;
            assert(s[k] < n);
        }
    }
    lemma_len_subset(t.to_set(), set_int_range(0, n as int));
}

/// Node `w` has a predecessor that is not among `o`.
pub open spec fn blocked(g: GraphView, ends: Seq<(usize, usize)>, o: Seq<usize>, w: int) -> bool {
    exists|u: int| 0 <= u < g.nodes.len() && !o.contains(u as usize) && #[trigger] links(ends, u, w)
}

/// Where every node left out has a predecessor left out, no topological
/// order reaches any of them: positions `< m` of `sigma` hold none.
proof fn lemma_blocked_below(g: GraphView, ends: Seq<(usize, usize)>, o: Seq<usize>, sigma: Seq<Seq<char>>, m: int)
    requires
        wf(g),
        ends_match(g, ends),
        is_topological(g.nodes, g.edges, sigma),
        forall|w: int| 0 <= w < g.nodes.len() && !o.contains(w as usize) ==> #[trigger] blocked(g, ends, o, w),
        0 <= m <= sigma.len(),
    ensures
        forall|p: int, w: int|
            0 <= p < m && 0 <= w < g.nodes.len() && !o.contains(w as usize) ==> #[trigger] sigma[p]
                != #[trigger] g.nodes[w].id,
    decreases m,
{
    if m > 0 {
        lemma_blocked_below(g, ends, o, sigma, m - 1);
        assert forall|p: int, w: int|
            0 <= p < m && 0 <= w < g.nodes.len() && !o.contains(w as usize) implies #[trigger] sigma[p]
            != #[trigger] g.nodes[w].id by {
            if p == m - 1 && sigma[p] == g.nodes[w].id {
                assert(blocked(g, ends, o, w));
                let u = choose|u: int| 0 <= u < g.nodes.len() && !o.contains(u as usize) && #[trigger] links(ends, u, w);
                let e = choose|e: int| 0 <= e < ends.len() && (#[trigger] ends[e]).0 == u && ends[e].1 == w;
                assert(sigma.contains(g.nodes[u].id));
                let i = choose|i: int| 0 <= i < sigma.len() && sigma[i] == g.nodes[u].id;
                assert(sigma[i] == g.edges[e].id.from);
                assert(sigma[p] == g.edges[e].id.to);
                assert(i < p);
                assert(sigma[i] != g.nodes[u].id);
            }
        }
    }
}

/// Where some node is left out and every node left out has a predecessor
/// left out, the graph has no topological order.
proof fn lemma_blocked(g: GraphView, ends: Seq<(usize, usize)>, o: Seq<usize>, v: int)
    requires
        wf(g),
        ends_match(g, ends),
        0 <= v < g.nodes.len(),
        !o.contains(v as usize),
        forall|w: int| 0 <= w < g.nodes.len() && !o.contains(w as usize) ==> #[trigger] blocked(g, ends, o, w),
    ensures
        !acyclic(g.nodes, g.edges),
{
    if acyclic(g.nodes, g.edges) {
        let sigma = choose|sigma: Seq<Seq<char>>| is_topological(g.nodes, g.edges, sigma);
        lemma_blocked_below(g, ends, o, sigma, sigma.len() as int);
        assert(sigma.contains(g.nodes[v].id));
        let p = choose|p: int| 0 <= p < sigma.len() && sigma[p] == g.nodes[v].id;
        assert(sigma[p] != g.nodes[v].id);
    }
}

/// `e` is the cycle error for graph `gid`.
pub open spec fn cycle_error(e: DotGraphError, gid: Seq<char>) -> bool {
    match e {
        DotGraphError::Cycle(a) => a@ == gid,
        _ => false,
    }
}

/// The ids of a list of strings, in order.
pub open spec fn ids_view(v: Seq<String>) -> Seq<Seq<char>> {
    v.map_values(|s: String| s@)
}

impl Graph {
    /// Kahn's algorithm over positions: nodes without pending predecessors
    /// enter the queue in position order; the queue is the result.
    fn kahn(&self) -> (r: (Vec<usize>, bool))
        ensures
            r.0@.no_duplicates(),
            forall|k: int| 0 <= k < r.0.len() ==> #[trigger] r.0[k] < self@.nodes.len(),
            forall|j: int, u: usize|
                0 <= j < r.0.len() && #[trigger] self.bwdmap@[r.0[j] as int]@.contains(u) ==> r.0@.take(j).contains(u),
            r.1 ==> forall|v: usize| v < self@.nodes.len() ==> #[trigger] r.0@.contains(v),
            !r.1 ==> !acyclic(self@.nodes, self@.edges),
    {
        proof {
            use_type_invariant(self);
        }
        let ghost g = self@;
        let n = self.nodes.len();
        let mut indeg: Vec<usize> = Vec::new();
        let mut v: usize = 0;
        while v < n
            invariant
                n == g.nodes.len(),
                adjacency(self.ends@, n as nat, self.fwdmap@, self.bwdmap@),
                v <= n,
                indeg.len() == v,
                forall|w: int| 0 <= w < v ==> #[trigger] indeg[w] == count_out(self.bwdmap@[w]@, Seq::empty()),
            decreases n - v,
        {
            proof {
                lemma_count_out_none(self.bwdmap@[v as int]@);
            }
            indeg.push(self.bwdmap[v].len());
            v = v + 1;
        }
        let mut order: Vec<usize> = Vec::new();
        let mut v: usize = 0;
        while v < n
            invariant
                n == g.nodes.len(),
                v <= n,
                indeg.len() == n,
                adjacency(self.ends@, n as nat, self.fwdmap@, self.bwdmap@),
                forall|w: int| 0 <= w < n ==> #[trigger] indeg[w] == count_out(self.bwdmap@[w]@, Seq::empty()),
                forall|j: int, k: int| 0 <= j < k < order.len() ==> #[trigger] order[j] < #[trigger] order[k],
                forall|k: int| 0 <= k < order.len() ==> #[trigger] order[k] < v,
                forall|w: int| 0 <= w < v ==> (order@.contains(w as usize) <==> #[trigger] indeg[w] == 0),
            decreases n - v,
        {
            let ghost before = order@;
            if indeg[v] == 0 {
                order.push(v);
            }
            proof {
                assert forall|w: int| 0 <= w < v + 1 implies (order@.contains(w as usize) <==> #[trigger] indeg[w] == 0) by {
                    if order@.contains(w as usize) {
                        let k = choose|k: int| 0 <= k < order.len() && order@[k] == w as usize;
                        if k < before.len() {
                            assert(before[k] == w);
                        }
                    }
                    if w < v && before.contains(w as usize) {
                        let k = choose|k: int| 0 <= k < before.len() && before[k] == w as usize;
                        assert(order@[k] == w);
                    }
                    if w == v && indeg[w] == 0 {
                        assert(order@[order.len() - 1] == w);
                    }
                }
            }
            v = v + 1;
        }
        proof {
            assert forall|j: int, u: usize|
                0 <= j < order.len() && #[trigger] self.bwdmap@[order[j] as int]@.contains(u) implies order@.take(j).contains(u) by {
                lemma_count_out_zero(self.bwdmap@[order[j] as int]@, Seq::empty());
                let k = choose|k: int| 0 <= k < self.bwdmap@[order[j] as int]@.len() && self.bwdmap@[order[j] as int]@[k] == u;
                assert(order@.contains(order[j]));
                assert(indeg[order[j] as int] == 0);
            }
            assert(order@.take(0) == Seq::<usize>::empty());
        }
        let mut head: usize = 0;
        while head < order.len()
            invariant
                g == self@,
                wf(g),
                ends_match(g, self.ends@),
                adjacency(self.ends@, n as nat, self.fwdmap@, self.bwdmap@),
                n == g.nodes.len(),
                indeg.len() == n,
                head <= order.len(),
                order@.no_duplicates(),
                forall|k: int| 0 <= k < order.len() ==> #[trigger] order[k] < n,
                forall|w: int| 0 <= w < n ==> #[trigger] indeg[w] == count_out(self.bwdmap@[w]@, order@.take(head as int)),
                forall|w: int| 0 <= w < n ==> (order@.contains(w as usize) <==> #[trigger] indeg[w] == 0),
                forall|j: int, u: usize|
                    0 <= j < order.len() && #[trigger] self.bwdmap@[order[j] as int]@.contains(u) ==> order@.take(j).contains(u),
            decreases n - head,
        {
            proof {
                lemma_distinct_bound(order@, n as nat);
            }
            let u = order[head];
            let ghost done = order@.take(head as int);
            let ghost done2 = order@.take(head + 1);
            proof {
                assert(done2 == done.push(u));
                assert(!done.contains(u)) by {
                    if done.contains(u) {
                        let k = choose|k: int| 0 <= k < done.len() && done[k] == u;
                        assert(order@[k] == order@[head as int]);
                    }
                }
                assert forall|w: int| 0 <= w < n implies #[trigger] indeg[w] == count_out(self.bwdmap@[w]@, done2)
                    + (if self.fwdmap@[u as int]@.subrange(0, self.fwdmap@[u as int]@.len() as int).contains(w as usize) { 1nat } else { 0nat }) by {
                    lemma_count_out_add(self.bwdmap@[w]@, done, u);
                    assert(self.fwdmap@[u as int]@.subrange(0, self.fwdmap@[u as int]@.len() as int) == self.fwdmap@[u as int]@);
                    assert(self.bwdmap@[w]@.contains(u) == links(self.ends@, u as int, w));
                    assert(self.fwdmap@[u as int]@.contains(w as usize) == links(self.ends@, u as int, w));
                }
            }
            head = head + 1;
            let row = &self.fwdmap[u];
            let mut k: usize = 0;
            while k < row.len()
                invariant
                    g == self@,
                    wf(g),
                    row@ == self.fwdmap@[u as int]@,
                    row@.no_duplicates(),
                    n == g.nodes.len(),
                    adjacency(self.ends@, n as nat, self.fwdmap@, self.bwdmap@),
                    indeg.len() == n,
                    u < n,
                    k <= row.len(),
                    0 < head <= order.len(),
                    done2 == order@.take(head as int),
                    order@.no_duplicates(),
                    forall|m: int| 0 <= m < order.len() ==> #[trigger] order[m] < n,
                    forall|w: int| 0 <= w < n ==> #[trigger] indeg[w] == count_out(self.bwdmap@[w]@, done2)
                        + (if row@.subrange(k as int, row.len() as int).contains(w as usize) { 1nat } else { 0nat }),
                    forall|w: int| 0 <= w < n ==> (order@.contains(w as usize) <==> #[trigger] indeg[w] == 0),
                    forall|j: int, x: usize|
                        0 <= j < order.len() && #[trigger] self.bwdmap@[order[j] as int]@.contains(x) ==> order@.take(j).contains(x),
                decreases row.len() - k,
            {
                let w = row[k];
                proof {
                    assert(row@[k as int] == w);
                    assert(self.fwdmap@[u as int]@.contains(w));
                    assert(w < n);
                    assert(row@.subrange(k as int, row.len() as int)[0] == w);
                    assert forall|x: usize| x < n implies #[trigger] row@.subrange(k as int, row.len() as int).contains(x)
                        == (row@.subrange(k + 1, row.len() as int).contains(x) || x == w) by {
                        let a = row@.subrange(k as int, row.len() as int);
                        let b = row@.subrange(k + 1, row.len() as int);
                        if a.contains(x) {
                            let q = choose|q: int| 0 <= q < a.len() && a[q] == x;
                            if q > 0 {
                                assert(b[q - 1] == a[q]);
                            }
                        }
                        if b.contains(x) {
                            let q = choose|q: int| 0 <= q < b.len() && b[q] == x;
                            assert(a[q + 1] == b[q]);
                        }
                    }
                    assert(!row@.subrange(k + 1, row.len() as int).contains(w)) by {
                        let b = row@.subrange(k + 1, row.len() as int);
                        if b.contains(w) {
                            let q = choose|q: int| 0 <= q < b.len() && b[q] == w;
                            assert(row@[k + 1 + q] == row@[k as int]);
                        }
                    }
                }
                let ghost before = order@;
                let d = indeg[w] - 1;
                indeg.set(w, d);
                if d == 0 {
                    order.push(w);
                    proof {
                        assert(!before.contains(w));
                        assert forall|i: int, j: int| 0 <= i < j < order.len() implies order@[i] != order@[j] by {
                            if j == order.len() - 1 {
                                assert(before[i] == order@[i]);
                            }
                        }
                        lemma_count_out_zero(self.bwdmap@[w as int]@, done2);
                        assert forall|j: int, x: usize|
                            0 <= j < order.len() && #[trigger] self.bwdmap@[order[j] as int]@.contains(x) implies order@.take(j).contains(x) by {
                            if j < before.len() {
                                assert(order@.take(j) == before.take(j));
                            } else {
                                let q = choose|q: int| 0 <= q < self.bwdmap@[w as int]@.len() && self.bwdmap@[w as int]@[q] == x;
                                assert(done2.contains(x));
                                let z = choose|z: int| 0 <= z < done2.len() && done2[z] == x;
                                assert(order@.take(j)[z] == x);
                            }
                        }
                        assert(order@.take(head as int) == before.take(head as int));
                    }
                }
                proof {
                    assert forall|x: int| 0 <= x < n implies (order@.contains(x as usize) <==> #[trigger] indeg[x] == 0) by {
                        if x != w {
                            if order@.contains(x as usize) {
                                let q = choose|q: int| 0 <= q < order.len() && order@[q] == x as usize;
                                if q < before.len() {
                                    assert(before[q] == x);
                                }
                            }
                            if before.contains(x as usize) {
                                let q = choose|q: int| 0 <= q < before.len() && before[q] == x as usize;
                                assert(order@[q] == x);
                            }
                        } else if d == 0 {
                            assert(order@[order.len() - 1] == w);
                        } else {
                            if order@.contains(x as usize) {
                                let q = choose|q: int| 0 <= q < order.len() && order@[q] == x as usize;
                                assert(before[q] == x);
                            }
                        }
                    }
                }
                k = k + 1;
            }
        }
        proof {
            assert(order@.take(head as int) == order@);
        }
        let mut all = true;
        let mut v: usize = 0;
        while v < n
            invariant
                n == g.nodes.len(),
                indeg.len() == n,
                v <= n,
                all == forall|w: int| 0 <= w < v ==> #[trigger] indeg[w] == 0,
            decreases n - v,
        {
            if indeg[v] != 0 {
                all = false;
            }
            v = v + 1;
        }
        proof {
            if all {
                assert forall|v: usize| v < n implies #[trigger] order@.contains(v) by {
                    assert(indeg[v as int] == 0);
                }
            }
            if !all {
                let v = choose|v: int| 0 <= v < n && indeg[v] != 0;
                assert forall|w: int| 0 <= w < n && !order@.contains(w as usize) implies #[trigger] blocked(g, self.ends@, order@, w) by {
                    lemma_count_out_zero(self.bwdmap@[w]@, order@);
                    assert(indeg[w] != 0);
                    assert(count_out(self.bwdmap@[w]@, order@) != 0);
                    let q = choose|q: int| 0 <= q < self.bwdmap@[w]@.len() && !order@.contains(#[trigger] self.bwdmap@[w]@[q]);
                    let x = self.bwdmap@[w]@[q];
                    assert(self.bwdmap@[w]@.contains(x));
                    assert(x < n && links(self.ends@, x as int, w));
                }
                lemma_blocked(g, self.ends@, order@, v);
            }
        }
        (order, all)
    }

    /// The node ids in an order that every edge follows, source before
    /// destination. Kahn's algorithm: ready nodes enter the queue in storage
    /// order, so the result is the same on every run. The cycle error where
    /// no such order exists.
    pub fn topsort(&self) -> (r: Result<Vec<String>, DotGraphError>)
        ensures
            r is Ok <==> acyclic(self@.nodes, self@.edges),
            r matches Ok(v) ==> is_topological(self@.nodes, self@.edges, ids_view(v@)),
            r matches Err(e) ==> cycle_error(e, self@.id),
    {
        proof {
            use_type_invariant(self);
        }
        let ghost g = self@;
        let (order, ok) = self.kahn();
        if !ok {
            return Err(DotGraphError::Cycle(self.id.clone()));
        }
        let mut out: Vec<String> = Vec::new();
        let mut j: usize = 0;
        while j < order.len()
            invariant
                g == self@,
                j <= order.len(),
                out.len() == j,
                forall|k: int| 0 <= k < order.len() ==> #[trigger] order[k] < g.nodes.len(),
                forall|k: int| 0 <= k < j ==> (#[trigger] out@[k])@ == g.nodes[order[k] as int].id,
            decreases order.len() - j,
        {
            let v = order[j];
            assert(g.nodes[v as int] == self.nodes@[v as int]@);
            out.push(self.nodes[v].id().clone());
            j = j + 1;
        }
        proof {
            let ids = ids_view(out@);
            assert forall|i: int, k: int| 0 <= i < k < ids.len() implies #[trigger] ids[i] != #[trigger] ids[k] by {
                assert(out@[i]@ == g.nodes[order[i] as int].id);
                assert(out@[k]@ == g.nodes[order[k] as int].id);
                assert(order@[i] != order@[k]);
            }
            assert forall|i: int| 0 <= i < ids.len() implies lists_node(g.nodes, #[trigger] ids[i]) by {
                assert(out@[i]@ == g.nodes[order[i] as int].id);
            }
            assert forall|v: int| 0 <= v < g.nodes.len() implies ids.contains(#[trigger] g.nodes[v].id) by {
                assert(v < self.nodes.len());
                assert((v as usize) as int == v);
                assert(order@.contains(v as usize));
                let k = choose|k: int| 0 <= k < order.len() && order@[k] == v as usize;
                assert(out@[k]@ == g.nodes[order[k] as int].id);
                assert(order[k] as int == v);
                assert(ids[k] == g.nodes[v].id);
            }
            assert forall|e: int, i: int, k: int|
                0 <= e < g.edges.len() && 0 <= i < ids.len() && 0 <= k < ids.len() && #[trigger] ids[i]
                    == (#[trigger] g.edges[e]).id.from && #[trigger] ids[k] == g.edges[e].id.to implies i < k by {
                let p = self.ends@[e];
                assert(out@[i]@ == g.nodes[order[i] as int].id);
                assert(out@[k]@ == g.nodes[order[k] as int].id);
                assert(p.0 == order[i]);
                assert(p.1 == order[k]);
                assert(links(self.ends@, p.0 as int, p.1 as int));
                assert(self.bwdmap@[order[k] as int]@.contains(p.0));
                assert(order@.take(k).contains(p.0));
                let z = choose|z: int| 0 <= z < order@.take(k).len() && order@.take(k)[z] == p.0;
                assert(order@[z] == order@[i]);
            }
            assert(is_topological(g.nodes, g.edges, ids));
        }
        Ok(out)
    }

    /// Whether the nodes can be put in an order that every edge follows.
    pub fn is_acyclic(&self) -> (r: bool)
        ensures
            r == acyclic(self@.nodes, self@.edges),
    {
        self.topsort().is_ok()
    }
}

} // verus!
