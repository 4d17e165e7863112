use vstd::prelude::*;
use super::Graph;
use crate::edge::edge_text;
use crate::model::{wf, GraphView};
use crate::node::node_text;
use crate::text::{pretty_id, pretty_id_text, push_tabs, tabs};

verus! {

/// The nodes at positions `xs`, as DOT statements in order.
pub open spec fn nodes_text(g: GraphView, xs: Seq<usize>, indent: nat) -> Seq<char>
    decreases xs.len(),
{
    if xs.len() == 0 {
        Seq::empty()
    } else {
        nodes_text(g, xs.drop_last(), indent) + node_text(g.nodes[xs.last() as int], indent)
    }
}

/// The edges at positions `xs`, as DOT statements in order.
pub open spec fn edges_text(g: GraphView, xs: Seq<usize>, indent: nat) -> Seq<char>
    decreases xs.len(),
{
    if xs.len() == 0 {
        Seq::empty()
    } else {
        edges_text(g, xs.drop_last(), indent) + edge_text(g.edges[xs.last() as int], indent)
    }
}

/// The line that opens the block of subgraph `c`: `digraph` at the top,
/// `subgraph` below it.
pub open spec fn block_open(g: GraphView, c: int, indent: nat) -> Seq<char> {
    if indent == 0 {
        "digraph "@ + pretty_id_text(g.clusters[c].id) + " {\n"@
    } else {
        tabs(indent) + "subgraph "@ + pretty_id_text(g.clusters[c].id) + " {\n"@
    }
}

/// The block of subgraph `c`: its child blocks, then its own nodes, then
/// its own edges, one tab deeper than the braces.
pub open spec fn cluster_text(g: GraphView, c: int, indent: nat) -> Seq<char>
    decreases g.clusters.len() - c, g.clusters[c].children.len() + 1,
{
    if 0 <= c < g.clusters.len() {
        let cl = g.clusters[c];
        block_open(g, c, indent) + children_text(g, c, cl.children.len() as int, indent + 1) + nodes_text(
            g,
            cl.nodes,
            indent + 1,
        ) + edges_text(g, cl.edges, indent + 1) + tabs(indent) + "}\n"@
    } else {
        Seq::empty()
    }
}

/// The blocks of the first `k` children of subgraph `c`.
pub open spec fn children_text(g: GraphView, c: int, k: int, indent: nat) -> Seq<char>
    decreases g.clusters.len() - c, k,
{
    if 0 <= c < g.clusters.len() && 0 < k <= g.clusters[c].children.len() {
        let ch = g.clusters[c].children[k - 1] as int;
        children_text(g, c, k - 1, indent) + if c < ch < g.clusters.len() {
            cluster_text(g, ch, indent)
        } else {
            Seq::empty()
        }
    } else {
        Seq::empty()
    }
}

impl Graph {
    fn write_cluster(&self, c: usize, indent: usize, out: &mut String)
        requires
            c < self@.clusters.len(),
            indent <= c,
        ensures
            final(out)@ == old(out)@ + cluster_text(self@, c as int, indent as nat),
        decreases self@.clusters.len() - c,
    {
        proof {
            use_type_invariant(self);
        }
        let ghost g = self@;
        let sg = &self.subgraphs[c];
        let ghost cl = g.clusters[c as int];
        assert(sg@ == cl);
        let id = pretty_id(sg.id.as_str());
        proof {
            reveal_strlit("digraph ");
            reveal_strlit("subgraph ");
            reveal_strlit(" {\n");
            reveal_strlit("}\n");
        }
        if indent == 0 {
            out.append("digraph ");
        } else {
            push_tabs(out, indent);
            out.append("subgraph ");
        }
        out.append(id.as_str());
        out.append(" {\n");
        let ghost start = old(out)@ + block_open(g, c as int, indent as nat);
        assert(out@ =~= start);
        let mut k: usize = 0;
        while k < sg.subgraph_ids.len()
            invariant
                g == self@,
                wf(g),
                c < g.clusters.len(),
                c < self.subgraphs.len(),
                cl == g.clusters[c as int],
                sg@ == cl,
                indent <= c,
                k <= sg.subgraph_ids.len(),
                out@ == start + children_text(g, c as int, k as int, indent as nat + 1),
            decreases sg.subgraph_ids.len() - k,
        {
            let x = sg.subgraph_ids[k];
            assert(cl.children[k as int] == x);
            assert(c < x < g.clusters.len());
            self.write_cluster(x, indent + 1, out);
            proof {
                assert(children_text(g, c as int, k + 1, indent as nat + 1) == children_text(g, c as int, k as int, indent as nat + 1)
                    + cluster_text(g, x as int, indent as nat + 1));
                assert(out@ =~= start + children_text(g, c as int, k + 1, indent as nat + 1));
            }
            k = k + 1;
        }
        let ghost mid = out@;
        let mut k: usize = 0;
        while k < sg.node_ids.len()
            invariant
                g == self@,
                wf(g),
                c < g.clusters.len(),
                c < self.subgraphs.len(),
                cl == g.clusters[c as int],
                sg@ == cl,
                indent <= c,
                k <= sg.node_ids.len(),
                out@ == mid + nodes_text(g, cl.nodes.take(k as int), indent as nat + 1),
            decreases sg.node_ids.len() - k,
        {
            let x = sg.node_ids[k];
            assert(cl.nodes[k as int] == x);
            assert(x < g.nodes.len());
            assert(g.nodes[x as int] == self.nodes@[x as int]@);
            self.nodes[x].write_dot(indent + 1, out);
            proof {
                let t = cl.nodes.take(k + 1);
                assert(t.drop_last() == cl.nodes.take(k as int));
                assert(t.last() == x);
                assert(out@ =~= mid + nodes_text(g, t, indent as nat + 1));
            }
            k = k + 1;
        }
        assert(cl.nodes.take(cl.nodes.len() as int) == cl.nodes);
        let ghost mid2 = out@;
        let mut k: usize = 0;
        while k < sg.edge_ids.len()
            invariant
                g == self@,
                wf(g),
                c < g.clusters.len(),
                c < self.subgraphs.len(),
                cl == g.clusters[c as int],
                sg@ == cl,
                indent <= c,
                k <= sg.edge_ids.len(),
                out@ == mid2 + edges_text(g, cl.edges.take(k as int), indent as nat + 1),
            decreases sg.edge_ids.len() - k,
        {
            let x = sg.edge_ids[k];
            assert(cl.edges[k as int] == x);
            assert(x < g.edges.len());
            assert(g.edges[x as int] == self.edges@[x as int]@);
            self.edges[x].write_dot(indent + 1, out);
            proof {
                let t = cl.edges.take(k + 1);
                assert(t.drop_last() == cl.edges.take(k as int));
                assert(t.last() == x);
                assert(out@ =~= mid2 + edges_text(g, t, indent as nat + 1));
            }
            k = k + 1;
        }
        assert(cl.edges.take(cl.edges.len() as int) == cl.edges);
        push_tabs(out, indent);
        out.append("}\n");
        proof {
            assert(out@ =~= old(out)@ + cluster_text(g, c as int, indent as nat));
        }
    }

    /// The graph as DOT text: the root block `digraph <id> { ... }`, each
    /// block holding its child blocks, then its nodes, then its edges, one
    /// tab per level.
    pub fn to_dot(&self) -> (r: String)
        ensures
            r@ == cluster_text(self@, 0, 0),
    {
        proof {
            use_type_invariant(self);
        }
        let mut out = String::new();
        self.write_cluster(0, 0, &mut out);
        proof {
            assert(out@ =~= cluster_text(self@, 0, 0));
        }
        out
    }
}

} // verus!
