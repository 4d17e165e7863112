use dot_graph::{pretty_id, Attr, DotGraphError, Edge, EdgeId, Graph, IGraph, Node};

fn s(x: &str) -> String {
    x.to_string()
}

fn node(id: &str) -> Node {
    Node::new(s(id), vec![])
}

fn edge(from: &str, to: &str) -> Edge {
    Edge::new(EdgeId::new(s(from), None, s(to), None), vec![])
}

/// Nodes a, b, c; edges a->b, b->c; subgraph cluster0 holding a and b.
fn abc() -> Graph {
    let cluster = IGraph::new(s("cluster0"), vec![], vec![node("a"), node("b")], vec![]);
    let root = IGraph::new(s("G"), vec![cluster], vec![node("c")], vec![edge("a", "b"), edge("b", "c")]);
    Graph::new(s("G"), root, vec![node("a"), node("b"), node("c")], vec![edge("a", "b"), edge("b", "c")]).unwrap()
}

fn sorted(mut v: Vec<String>) -> Vec<String> {
    v.sort();
    v
}

fn edge_pairs(g: &Graph) -> Vec<(String, String)> {
    let mut v: Vec<(String, String)> = g.edges().iter().map(|e| (e.from().clone(), e.to().clone())).collect();
    v.sort();
    v
}

#[test]
fn scenario_filter_keeps_cluster_with_a() {
    let g = abc();
    let f = g.filter("a").unwrap();
    assert_eq!(f.nodes(), vec![s("a")]);
    assert!(f.edges().is_empty());
    assert_eq!(f.subgraphs(), vec![s("G"), s("cluster0")]);
    let cluster = f.search_subgraph(&s("cluster0")).unwrap();
    assert_eq!(cluster.nodes().len(), 1);
    assert_eq!(f.nodes()[cluster.nodes()[0]], s("a"));
    assert_eq!(f.collect_nodes(&s("cluster0")).unwrap(), vec![s("a")]);
}

#[test]
fn scenario_neighbors_of_b_is_whole_graph() {
    let g = abc();
    let n = g.neighbors(&s("b"), 1).unwrap();
    assert_eq!(sorted(n.nodes()), vec![s("a"), s("b"), s("c")]);
    assert_eq!(edge_pairs(&n), vec![(s("a"), s("b")), (s("b"), s("c"))]);
    assert_eq!(n.subgraphs(), vec![s("G"), s("cluster0")]);
    assert_eq!(n.to_dot(), g.to_dot());
}

#[test]
fn scenario_subgraph_cluster0_drops_c() {
    let g = abc();
    let sub = g.subgraph(&s("cluster0")).unwrap().unwrap();
    assert_eq!(sorted(sub.nodes()), vec![s("a"), s("b")]);
    assert_eq!(edge_pairs(&sub), vec![(s("a"), s("b"))]);
    assert!(sub.search_node(&s("c")).is_none());
}

#[test]
fn neighbors_depth_zero_and_unbounded() {
    let g = abc();
    assert_eq!(g.neighbors(&s("a"), 0).unwrap().nodes(), vec![s("a")]);
    assert_eq!(sorted(g.neighbors(&s("a"), 1).unwrap().nodes()), vec![s("a"), s("b")]);
    assert_eq!(sorted(g.neighbors(&s("a"), usize::MAX).unwrap().nodes()), vec![s("a"), s("b"), s("c")]);
}

#[test]
fn neighbors_of_missing_node() {
    let g = abc();
    assert_eq!(g.neighbors(&s("z"), 1).unwrap_err(), DotGraphError::NoSuchNode(s("z"), s("G")));
}

#[test]
fn subgraph_of_missing_id() {
    let g = abc();
    assert_eq!(g.subgraph(&s("nope")).unwrap_err(), DotGraphError::NoSuchSubGraph(s("nope"), s("G")));
    assert_eq!(g.collect_nodes(&s("nope")).unwrap_err(), DotGraphError::NoSuchSubGraph(s("nope"), s("G")));
}

#[test]
fn topsort_orders_sources_first() {
    let g = abc();
    assert_eq!(g.topsort().unwrap(), vec![s("a"), s("b"), s("c")]);
    assert!(g.is_acyclic());
}

#[test]
fn topsort_respects_every_edge() {
    // d -> b, c -> a, a -> b, stored out of order
    let nodes = vec![node("b"), node("a"), node("d"), node("c")];
    let edges = vec![edge("d", "b"), edge("c", "a"), edge("a", "b")];
    let root = IGraph::new(s("G"), vec![], nodes.clone(), edges.clone());
    let g = Graph::new(s("G"), root, nodes, edges).unwrap();
    let order = g.topsort().unwrap();
    assert_eq!(order.len(), 4);
    let pos = |x: &str| order.iter().position(|y| y == x).unwrap();
    assert!(pos("d") < pos("b"));
    assert!(pos("c") < pos("a"));
    assert!(pos("a") < pos("b"));
    assert_eq!(order, vec![s("d"), s("c"), s("a"), s("b")]);
}

#[test]
fn cycle_is_rejected() {
    let nodes = vec![node("a"), node("b")];
    let edges = vec![edge("a", "b"), edge("b", "a")];
    let root = IGraph::new(s("G"), vec![], nodes.clone(), edges.clone());
    assert_eq!(Graph::new(s("G"), root, nodes, edges).unwrap_err(), DotGraphError::Cycle(s("G")));
}

#[test]
fn self_loop_is_rejected() {
    let nodes = vec![node("a")];
    let edges = vec![edge("a", "a")];
    let root = IGraph::new(s("G"), vec![], nodes.clone(), edges.clone());
    assert_eq!(Graph::new(s("G"), root, nodes, edges).unwrap_err(), DotGraphError::Cycle(s("G")));
}

#[test]
fn duplicate_node_ids_are_rejected() {
    let nodes = vec![node("a"), node("a")];
    let root = IGraph::new(s("G"), vec![], nodes.clone(), vec![]);
    assert_eq!(Graph::new(s("G"), root, nodes, vec![]).unwrap_err(), DotGraphError::InvalidGraph(s("G")));
}

#[test]
fn duplicate_edge_ids_are_rejected() {
    let nodes = vec![node("a"), node("b")];
    let edges = vec![edge("a", "b"), edge("a", "b")];
    let root = IGraph::new(s("G"), vec![], nodes.clone(), edges.clone());
    assert_eq!(Graph::new(s("G"), root, nodes, edges).unwrap_err(), DotGraphError::InvalidGraph(s("G")));
}

#[test]
fn ports_make_edges_distinct() {
    let nodes = vec![node("a"), node("b")];
    let e1 = Edge::new(EdgeId::new(s("a"), Some(s("n")), s("b"), None), vec![]);
    let e2 = edge("a", "b");
    let root = IGraph::new(s("G"), vec![], nodes.clone(), vec![e1.clone(), e2.clone()]);
    let g = Graph::new(s("G"), root, nodes, vec![e1, e2]).unwrap();
    assert_eq!(g.edges().len(), 2);
    assert_eq!(g.tos(&s("a")).unwrap(), vec![s("b")]);
}

#[test]
fn dangling_edge_is_rejected() {
    let nodes = vec![node("a")];
    let edges = vec![edge("a", "x")];
    let root = IGraph::new(s("G"), vec![], nodes.clone(), edges.clone());
    assert_eq!(Graph::new(s("G"), root, nodes, edges).unwrap_err(), DotGraphError::InvalidGraph(s("G")));
}

#[test]
fn root_id_must_match() {
    let nodes = vec![node("a")];
    let root = IGraph::new(s("H"), vec![], nodes.clone(), vec![]);
    assert_eq!(Graph::new(s("G"), root, nodes, vec![]).unwrap_err(), DotGraphError::InvalidGraph(s("G")));
}

#[test]
fn undeclared_node_is_rejected() {
    let nodes = vec![node("a"), node("b")];
    let root = IGraph::new(s("G"), vec![], vec![node("a")], vec![]);
    assert_eq!(Graph::new(s("G"), root, nodes, vec![]).unwrap_err(), DotGraphError::InvalidGraph(s("G")));
}

#[test]
fn unknown_member_is_rejected() {
    let nodes = vec![node("a")];
    let root = IGraph::new(s("G"), vec![], vec![node("a"), node("q")], vec![]);
    assert_eq!(Graph::new(s("G"), root, nodes, vec![]).unwrap_err(), DotGraphError::InvalidGraph(s("G")));
}

#[test]
fn duplicate_subgraph_ids_are_rejected() {
    let c1 = IGraph::new(s("c"), vec![], vec![node("a")], vec![]);
    let c2 = IGraph::new(s("c"), vec![], vec![node("b")], vec![]);
    let root = IGraph::new(s("G"), vec![c1, c2], vec![], vec![]);
    assert_eq!(
        Graph::new(s("G"), root, vec![node("a"), node("b")], vec![]).unwrap_err(),
        DotGraphError::InvalidGraph(s("G"))
    );
}

#[test]
fn filter_with_no_match_is_none() {
    let g = abc();
    assert!(g.filter("zz").is_none());
    assert!(g.extract(&[]).is_none());
    assert!(g.extract(&[s("missing")]).is_none());
}

#[test]
fn empty_subgraph_is_pruned() {
    // cluster1 holds only c; keeping a drops it, directly and through nesting
    let inner = IGraph::new(s("inner"), vec![], vec![node("c")], vec![]);
    let cluster1 = IGraph::new(s("cluster1"), vec![inner], vec![], vec![]);
    let cluster0 = IGraph::new(s("cluster0"), vec![], vec![node("a"), node("b")], vec![]);
    let root = IGraph::new(s("G"), vec![cluster0, cluster1], vec![], vec![edge("a", "b")]);
    let g = Graph::new(s("G"), root, vec![node("a"), node("b"), node("c")], vec![edge("a", "b")]).unwrap();
    assert_eq!(g.subgraphs(), vec![s("G"), s("cluster0"), s("cluster1"), s("inner")]);
    let f = g.extract(&[s("a")]).unwrap();
    assert_eq!(f.subgraphs(), vec![s("G"), s("cluster0")]);
    assert!(f.search_subgraph(&s("cluster1")).is_none());
    let h = g.extract(&[s("c")]).unwrap();
    assert_eq!(h.subgraphs(), vec![s("G"), s("cluster1"), s("inner")]);
    assert_eq!(h.search_subgraph(&s("cluster1")).unwrap().subgraphs(), &vec![2usize]);
}

#[test]
fn extraction_twice_is_extraction_once() {
    let g = abc();
    let keep = vec![s("a"), s("b")];
    let once = g.extract(&keep).unwrap();
    let twice = once.extract(&keep).unwrap();
    assert_eq!(once.to_dot(), twice.to_dot());
    assert_eq!(once.nodes(), twice.nodes());
    assert_eq!(once.subgraphs(), twice.subgraphs());
}

#[test]
fn derived_graph_has_no_dangling_references() {
    let g = abc();
    let f = g.extract(&[s("b"), s("c")]).unwrap();
    let ids = f.nodes();
    for e in f.edges() {
        assert!(ids.contains(e.from()) && ids.contains(e.to()));
    }
    for sid in f.subgraphs() {
        let sg = f.search_subgraph(&sid).unwrap();
        assert!(sg.nodes().iter().all(|&i| i < ids.len()));
        assert!(sg.edges().iter().all(|&i| i < f.edges().len()));
        assert!(sg.subgraphs().iter().all(|&i| i < f.subgraphs().len()));
    }
    assert_eq!(edge_pairs(&f), vec![(s("b"), s("c"))]);
}

#[test]
fn froms_and_tos() {
    let g = abc();
    assert_eq!(g.froms(&s("b")).unwrap(), vec![s("a")]);
    assert_eq!(g.tos(&s("b")).unwrap(), vec![s("c")]);
    assert!(g.froms(&s("a")).unwrap().is_empty());
    assert_eq!(g.tos(&s("x")).unwrap_err(), DotGraphError::NoSuchNode(s("x"), s("G")));
}

#[test]
fn collections_of_a_subgraph() {
    let g = abc();
    assert_eq!(sorted(g.collect_nodes(&s("G")).unwrap()), vec![s("a"), s("b"), s("c")]);
    assert_eq!(g.collect_subgraphs(&s("G")).unwrap(), vec![s("cluster0")]);
    assert!(g.collect_subgraphs(&s("cluster0")).unwrap().is_empty());
    assert_eq!(g.collect_edges(&s("G")).unwrap().len(), 2);
    assert!(g.collect_edges(&s("cluster0")).unwrap().is_empty());
}

#[test]
fn lookups() {
    let g = abc();
    assert_eq!(g.id(), "G");
    assert_eq!(g.search_node(&s("b")).unwrap().id(), "b");
    assert!(g.search_node(&s("q")).is_none());
    let id = EdgeId::new(s("a"), None, s("b"), None);
    assert_eq!(g.search_edge(&id).unwrap().id(), &id);
    assert!(g.search_edge(&EdgeId::new(s("a"), None, s("c"), None)).is_none());
    assert!(!g.is_empty());
}

#[test]
fn graph_to_dot_text() {
    let a = Node::new(s("a"), vec![Attr::new(s("shape"), s("box"), false)]);
    let cluster = IGraph::new(s("cluster0"), vec![], vec![a.clone()], vec![]);
    let root = IGraph::new(s("G"), vec![cluster], vec![node("b c")], vec![edge("a", "b c")]);
    let g = Graph::new(s("G"), root, vec![a, node("b c")], vec![edge("a", "b c")]).unwrap();
    let expected = "digraph G {\n\tsubgraph cluster0 {\n\t\ta [\n\t\t\t\tshape=\"box\"\n\t\t];\n\t}\n\t\"b c\" [\n\t];\n\ta -> \"b c\" [\n\t]\n}\n";
    assert_eq!(g.to_dot(), expected);
}

#[test]
fn attr_to_dot_text() {
    let plain = Attr::new(s("color"), s("red"), false);
    assert_eq!(plain.to_dot(0), "\tcolor=\"red\"\n");
    let html = Attr::new(s("label"), s("<b>x</b>"), true);
    assert_eq!(html.to_dot(1), "\t\tlabel=<<b>x</b>>\n");
    assert_eq!(plain.key(), "color");
    assert_eq!(plain.value(), "red");
    assert!(html.is_html());
}

#[test]
fn node_to_dot_text() {
    let n = Node::new(s("n1"), vec![Attr::new(s("k"), s("v"), false)]);
    assert_eq!(n.to_dot(1), "\tn1 [\n\t\t\tk=\"v\"\n\t];\n");
}

#[test]
fn edge_id_to_dot_text() {
    let id = EdgeId::new(s("a"), Some(s("nw")), s("b-1"), Some(s("se")));
    assert_eq!(id.to_dot(1), "\ta:nw -> \"b-1\":se");
    assert_eq!(id.tailport(), &Some(s("nw")));
    assert_eq!(id.headport(), &Some(s("se")));
    let e = Edge::new(id, vec![Attr::new(s("w"), s("1"), false)]);
    assert_eq!(e.to_dot(0), "a:nw -> \"b-1\":se [\n\t\tw=\"1\"\n]\n");
}

#[test]
fn edge_drops_port_attributes_and_duplicate_keys() {
    let attrs = vec![
        Attr::new(s("tailport"), s("n"), false),
        Attr::new(s("color"), s("red"), false),
        Attr::new(s("headport"), s("s"), false),
        Attr::new(s("color"), s("blue"), false),
    ];
    let e = Edge::new(EdgeId::new(s("a"), Some(s("n")), s("b"), Some(s("s"))), attrs);
    assert_eq!(e.attrs().len(), 1);
    assert_eq!(e.attrs()[0].key(), "color");
    assert_eq!(e.attrs()[0].value(), "red");
}

#[test]
fn node_keeps_first_attribute_of_a_key() {
    let n = Node::new(s("n"), vec![Attr::new(s("k"), s("1"), false), Attr::new(s("k"), s("2"), true)]);
    assert_eq!(n.attrs().len(), 1);
    assert_eq!(n.attrs()[0].value(), "1");
}

#[test]
fn pretty_id_quotes_when_needed() {
    assert_eq!(pretty_id("abc1"), "abc1");
    assert_eq!(pretty_id("a b"), "\"a b\"");
    assert_eq!(pretty_id("x-y"), "\"x-y\"");
    assert_eq!(pretty_id("é"), "é");
    assert_eq!(pretty_id(""), "");
}

#[test]
fn prefix_test() {
    assert!(dot_graph::graph::starts_with("node_1", "node"));
    assert!(dot_graph::graph::starts_with("abc", ""));
    assert!(!dot_graph::graph::starts_with("ab", "abc"));
    assert!(!dot_graph::graph::starts_with("xbc", "a"));
}

#[test]
fn extraction_then_extraction_is_extraction_of_both() {
    let g = abc();
    let first = g.extract(&[s("a"), s("b")]).unwrap();
    let second = first.extract(&[s("b"), s("c")]).unwrap();
    let both = g.extract(&[s("b")]).unwrap();
    assert_eq!(second.to_dot(), both.to_dot());
    assert_eq!(second.nodes(), vec![s("b")]);
    assert_eq!(second.subgraphs(), vec![s("G"), s("cluster0")]);
}
