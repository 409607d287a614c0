use button::build_graph::{Edge, Node};
use button::graph::Graph;
use button::graphviz::graphviz_lines;
use button::res::FilePath;

#[test]
fn graphviz_of_a_small_graph() {
    let mut g: Graph<Node<FilePath, String>, Edge> = Graph::new();
    let src = g.add_node(Node::Resource(FilePath::new("foo.c")));
    let task = g.add_node(Node::Task("cc \"foo.c\"".to_string()));
    let out = g.add_node(Node::Resource(FilePath::new("foo.o")));
    g.add_edge(src, task, Edge::Explicit);
    g.add_edge(task, out, Edge::Implicit);
    let lines = graphviz_lines(&g);
    let expected = vec![
        "digraph G {",
        "    subgraph {",
        "        node [ shape=ellipse, fillcolor=lightskyblue2, style=filled];",
        "        N0 [label=\"foo.c\"];",
        "        N2 [label=\"foo.o\"];",
        "    }",
        "    subgraph {",
        "        node [shape=box, fillcolor=gray91, style=filled];",
        "        N1 [label=\"cc \\\"foo.c\\\"\"];",
        "    }",
        "    N0 -> N1 [style=solid];",
        "    N1 -> N2 [style=dashed];",
        "}",
    ];
    assert_eq!(lines, expected);
}

#[test]
fn graphviz_numbers_nodes_in_decimal() {
    let mut g: Graph<Node<FilePath, String>, Edge> = Graph::new();
    for k in 0..12 {
        g.add_node(Node::Task(format!("t{}", k)));
    }
    let lines = graphviz_lines(&g);
    assert_eq!(lines.len(), 6 + 12 + 2);
    assert_eq!(lines[6 + 10], "        N10 [label=\"t10\"];");
    assert_eq!(lines[6 + 11], "        N11 [label=\"t11\"];");
}

#[test]
fn graphviz_of_an_empty_graph() {
    let g: Graph<Node<FilePath, String>, Edge> = Graph::new();
    let lines = graphviz_lines(&g);
    assert_eq!(lines.len(), 8);
    assert_eq!(lines[0], "digraph G {");
    assert_eq!(lines[7], "}");
}
