use button::graph::Graph;
use button::index::{EdgeIndex, NodeIndex};

fn wikipedia_graph() -> Graph<&'static str, ()> {
    // This is Wikipedia's example graph:
    //
    //  O ← 1 ← 2 ⇄ 3
    //  ↓ ↗ ↑   ↑   ↑
    //  4 ← 5 ⇄ 6 ← 7
    //              ↺
    let mut graph = Graph::new();

    // Top row
    let a = graph.add_node("a");
    let b = graph.add_node("b");
    let c = graph.add_node("c");
    let d = graph.add_node("d");

    // Bottom row
    let e = graph.add_node("e");
    let f = graph.add_node("f");
    let g = graph.add_node("g");
    let h = graph.add_node("h");

    graph.add_edge(a, e, ());
    graph.add_edge(b, a, ());
    graph.add_edge(c, b, ());
    graph.add_edge(c, d, ());
    graph.add_edge(d, c, ());
    graph.add_edge(e, b, ());
    graph.add_edge(f, b, ());
    graph.add_edge(f, e, ());
    graph.add_edge(f, g, ());
    graph.add_edge(g, c, ());
    graph.add_edge(g, f, ());
    graph.add_edge(h, d, ());
    graph.add_edge(h, g, ());
    graph.add_edge(h, h, ());
    graph
}

#[test]
fn base_test_smoke() {
    let mut g = Graph::new();
    let a = g.add_node("a");
    let b = g.add_node("b");
    assert_eq!(a, 0.into());
    assert_eq!(b, 1.into());
    assert_eq!(g.node_count(), 2);

    g.add_edge(a, b, 42);
    g.add_edge(a, b, 1);

    assert_eq!(g.edge_count(), 1);
}

#[test]
fn base_test_tarjan() {
    let graph = wikipedia_graph();

    let sccs = graph.tarjan_scc();
    assert_eq!(sccs.len(), 4);

    assert_eq!(sccs[0], vec![1.into(), 4.into(), 0.into()]);
    assert_eq!(sccs[1], vec![3.into(), 2.into()]);
    assert_eq!(sccs[2], vec![6.into(), 5.into()]);
    assert_eq!(sccs[3], vec![7.into()]);
}

#[test]
fn graph_test_tarjan() {
    let graph = wikipedia_graph();

    let sccs = graph.tarjan_scc();
    assert_eq!(sccs.len(), 4);

    assert_eq!(sccs[0], vec![NodeIndex(1), NodeIndex(4), NodeIndex(0)]);
    assert_eq!(sccs[1], vec![NodeIndex(3), NodeIndex(2)]);
    assert_eq!(sccs[2], vec![NodeIndex(6), NodeIndex(5)]);
    assert_eq!(sccs[3], vec![NodeIndex(7)]);
}

#[test]
fn components_are_listed_before_the_components_that_reach_them() {
    let graph = wikipedia_graph();
    let sccs = graph.tarjan_scc();
    let comp_of = |n: NodeIndex| sccs.iter().position(|c| c.contains(&n)).unwrap();
    for e in graph.edges() {
        let ((a, b), _) = graph.edge_from_index(e);
        assert!(comp_of(b) <= comp_of(a));
    }
}

#[test]
fn adding_a_node_twice_keeps_its_index() {
    let mut g: Graph<&str, u32> = Graph::new();
    let a = g.add_node("a");
    let again = g.add_node("a");
    assert_eq!(a, again);
    assert_eq!(g.node_count(), 1);
    assert!(g.contains_node(&"a"));
    assert!(!g.contains_node(&"b"));
    assert_eq!(g.node_to_index(&"a"), Some(NodeIndex(0)));
    assert_eq!(g.node_to_index(&"b"), None);
}

#[test]
fn graph_test_smoke() {
    let mut g = Graph::new();
    let a = g.add_node("a");
    let b = g.add_node("b");
    assert_eq!(a, NodeIndex(0));
    assert_eq!(b, NodeIndex(1));
    assert_eq!(g.node_count(), 2);

    assert_eq!(g.add_edge(a, b, 42), None);
    assert_eq!(g.add_edge(a, b, 1), Some(42));
    assert_eq!(g.edge_count(), 1);
}

#[test]
fn adding_an_edge_twice_keeps_its_index_and_takes_the_new_weight() {
    let mut g = Graph::new();
    let a = g.add_node("a");
    let b = g.add_node("b");
    assert_eq!(g.add_edge(a, b, 42), None);
    assert_eq!(g.add_edge(a, b, 1), Some(42));
    let e1 = g.edge_to_index(&(a, b)).unwrap();
    assert_eq!(e1, EdgeIndex(0));
    assert_eq!(g.edge_from_index(e1), ((a, b), &1));
    assert_eq!(g.edge_to_index(&(b, a)), None);
    assert!(g.contains_edge(&(a, b)));
}

#[test]
fn neighbor_counts_capacity_and_clear() {
    let mut graph = wikipedia_graph();
    assert_eq!(graph.outgoing_count(NodeIndex(5)), Some(3));
    assert_eq!(graph.incoming_count(NodeIndex(1)), Some(3));
    // The self-loop on node 7 is outgoing but not incoming.
    assert_eq!(graph.outgoing_count(NodeIndex(7)), Some(3));
    assert_eq!(graph.incoming_count(NodeIndex(7)), Some(0));
    assert_eq!(graph.outgoing_count(NodeIndex(8)), None);
    assert_eq!(graph.incoming_count(NodeIndex(8)), None);
    let (nodes, edges) = graph.capacity();
    assert!(nodes >= 8 && edges >= 14);
    graph.clear();
    assert_eq!(graph.node_count(), 0);
    assert_eq!(graph.edge_count(), 0);
    assert_eq!(graph.outgoing_count(NodeIndex(0)), None);
}

#[test]
fn neighbors_and_roots() {
    let graph = wikipedia_graph();
    assert_eq!(graph.outgoing(NodeIndex(5)), &vec![(NodeIndex(1), EdgeIndex(6)), (NodeIndex(4), EdgeIndex(7)), (NodeIndex(6), EdgeIndex(8))]);
    assert_eq!(graph.incoming(NodeIndex(1)), &vec![(NodeIndex(2), EdgeIndex(2)), (NodeIndex(4), EdgeIndex(5)), (NodeIndex(5), EdgeIndex(6))]);
    // The incoming list leaves the self-loop on node 7 out, but it still
    // counts as an incoming edge: there is no root.
    assert_eq!(graph.incoming(NodeIndex(7)), &vec![]);
    assert_eq!(graph.root_nodes(), Vec::<NodeIndex>::new());
    assert!(!graph.is_root_node(NodeIndex(7)));
    assert_eq!(graph.terminal_nodes(), Vec::<NodeIndex>::new());
    assert_eq!(graph.non_root_nodes().len(), 8);
    assert_eq!(graph.non_terminal_nodes().len(), 8);
}

#[test]
fn tarjan_on_a_chain_lists_the_end_first() {
    let mut g = Graph::new();
    let a = g.add_node(1u32);
    let b = g.add_node(2u32);
    let c = g.add_node(3u32);
    g.add_edge(a, b, ());
    g.add_edge(b, c, ());
    assert_eq!(g.tarjan_scc(), vec![vec![c], vec![b], vec![a]]);
}

#[test]
fn diff_of_two_graphs() {
    let mut left = Graph::new();
    let x = left.add_node("x");
    let y = left.add_node("y");
    left.add_edge(x, y, ());
    let mut right = Graph::new();
    let z = right.add_node("z");
    let x2 = right.add_node("x");
    right.add_edge(x2, z, ());

    let d = left.diff(&right);
    assert_eq!(d.left_only_nodes.iter(), vec![NodeIndex(1)]);
    assert_eq!(d.right_only_nodes.iter(), vec![NodeIndex(0)]);
    assert_eq!(d.left_only_edges.iter(), vec![EdgeIndex(0)]);
    assert_eq!(d.right_only_edges.iter(), vec![EdgeIndex(0)]);

    let same = left.diff(&left);
    assert!(same.left_only_nodes.is_empty());
    assert!(same.right_only_nodes.is_empty());
    assert!(same.left_only_edges.is_empty());
    assert!(same.right_only_edges.is_empty());
}

#[test]
fn traversal_decisions() {
    let mut g = Graph::new();
    let a = g.add_node("a");
    let b = g.add_node("b");
    let c = g.add_node("c");
    g.add_edge(a, c, ());
    g.add_edge(b, c, ());
    let mut visited: Vec<Option<bool>> = vec![None, None, None];
    assert!(g.should_visit(a, &visited, false));
    visited[0] = Some(false);
    // `c` still waits for `b`.
    assert_eq!(g.ready_neighbors(a, &visited, false), Vec::<NodeIndex>::new());
    visited[1] = Some(false);
    assert_eq!(g.ready_neighbors(b, &visited, false), vec![c]);
    // Neither parent asked to go on.
    assert!(!g.should_visit(c, &visited, false));
    visited[1] = Some(true);
    assert!(g.should_visit(c, &visited, false));
    // In reverse, `c` has no dependencies.
    assert!(g.should_visit(c, &vec![None, None, None], true));

    // Finishing visits: a failure queues nothing, a success queues what is ready.
    let mut visited: Vec<Option<bool>> = vec![None, None, None];
    assert_eq!(g.finish_visit(a, &mut visited, None, false), Vec::<NodeIndex>::new());
    assert_eq!(visited, vec![Some(false), None, None]);
    assert_eq!(g.finish_visit(b, &mut visited, Some(true), false), vec![c]);
    assert_eq!(visited, vec![Some(false), Some(true), None]);
}

#[test]
fn each_node_is_queued_once_by_its_last_dependency() {
    let mut g = Graph::new();
    let a = g.add_node("a");
    let b = g.add_node("b");
    let c = g.add_node("c");
    let d = g.add_node("d");
    g.add_edge(a, b, ());
    g.add_edge(a, c, ());
    g.add_edge(b, d, ());
    g.add_edge(c, d, ());
    let mut visited: Vec<Option<bool>> = vec![None; 4];
    assert_eq!(g.finish_visit(a, &mut visited, Some(true), false), vec![b, c]);
    assert_eq!(g.finish_visit(b, &mut visited, Some(true), false), Vec::<NodeIndex>::new());
    assert_eq!(g.finish_visit(c, &mut visited, Some(true), false), vec![d]);
    assert_eq!(g.finish_visit(d, &mut visited, Some(true), false), Vec::<NodeIndex>::new());
    // In reverse, `d` comes first and `a` last.
    let mut visited: Vec<Option<bool>> = vec![None; 4];
    assert_eq!(g.finish_visit(d, &mut visited, Some(true), true), vec![b, c]);
    assert_eq!(g.finish_visit(c, &mut visited, Some(true), true), Vec::<NodeIndex>::new());
    assert_eq!(g.finish_visit(b, &mut visited, Some(true), true), vec![a]);
}

#[test]
fn depth_first_search_from_roots() {
    let mut g = Graph::new();
    let a = g.add_node("a");
    let b = g.add_node("b");
    let c = g.add_node("c");
    let d = g.add_node("d");
    let e = g.add_node("e");
    g.add_edge(a, b, ());
    g.add_edge(a, c, ());
    g.add_edge(c, d, ());
    g.add_edge(d, a, ());
    // A root is not marked as seen, so reaching it again visits it again.
    assert_eq!(g.dfs(vec![a]), vec![a, c, d, a, b]);
    assert_eq!(g.dfs(vec![e, d]), vec![d, a, c, d, b, e]);
    assert_eq!(g.dfs(vec![]), Vec::<NodeIndex>::new());
}

#[test]
fn indices_translate_between_graphs() {
    let mut left = Graph::new();
    let x = left.add_node("x");
    let y = left.add_node("y");
    left.add_edge(x, y, 0u8);
    let mut right = Graph::new();
    right.add_node("z");
    right.add_node("x");
    assert_eq!(left.translate_index(x, &right), Some(NodeIndex(1)));
    assert_eq!(left.translate_index(y, &right), None);
}

#[test]
fn a_self_loop_is_an_incoming_edge() {
    let mut g = Graph::new();
    let a = g.add_node("a");
    let b = g.add_node("b");
    g.add_edge(a, a, ());
    assert_eq!(g.root_nodes(), vec![b]);
    assert_eq!(g.non_root_nodes(), vec![a]);
    assert!(!g.is_root_node(a));
    assert!(g.is_root_node(b));
}
