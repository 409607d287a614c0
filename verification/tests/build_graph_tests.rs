use button::build_graph::{build, check_cycles, from_rules, Edge, Error, Node, Race, RaceError};
use button::graph::Graph;
use button::index::NodeIndex;
use button::res::FilePath;
use button::rules::{KnownResources, Rule, Rules};

fn rule(inputs: &[&str], outputs: &[&str], tasks: &str) -> Rule<FilePath, String> {
    Rule {
        inputs: inputs.iter().map(|s| FilePath::new(s)).collect(),
        outputs: outputs.iter().map(|s| FilePath::new(s)).collect(),
        tasks: tasks.to_string(),
    }
}

#[test]
fn good_graph_is_built() {
    let rules = Rules(vec![
        rule(&["foo.c", "foo.h"], &["foo.o"], "gcc -c foo.c -o foo.o"),
        rule(&["bar.c", "foo.h"], &["bar.o"], "gcc -c bar.c -o bar.o"),
        rule(&["foo.o", "bar.o"], &["foobar"], "gcc foo.o bar.o -o foobar"),
    ]);
    let g = match from_rules(rules) {
        Ok(g) => g,
        Err(_) => panic!("expected a graph"),
    };
    // Three task nodes and six resources, each once.
    assert_eq!(g.node_count(), 9);
    assert_eq!(g.edge_count(), 9);
    let foo_h = g.node_to_index(&Node::Resource(FilePath::new("foo.h"))).unwrap();
    assert_eq!(g.outgoing(foo_h).len(), 2);
    for e in g.edges() {
        let ((a, b), w) = g.edge_from_index(e);
        assert_eq!(*w, Edge::Explicit);
        // Every edge joins a resource and a task.
        assert_ne!(g.node_from_index(a).is_resource(), g.node_from_index(b).is_resource());
    }
    assert_eq!(g.root_nodes().len(), 3);
}

#[test]
fn races_are_reported() {
    let rules = Rules(vec![
        rule(&["foo.c"], &["foo.o"], "compile foo"),
        rule(&["bar.c"], &["bar.o"], "compile bar"),
        rule(&["baz.c"], &["foo.o", "bar.o"], "compile baz"),
    ]);
    match from_rules(rules) {
        Err(Error::Races(err)) => {
            assert_eq!(
                err.races,
                vec![Race::new(FilePath::new("bar.o"), 2), Race::new(FilePath::new("foo.o"), 2)]
            );
        },
        _ => panic!("expected races"),
    }
}

#[test]
fn cycles_are_reported() {
    let rules = Rules(vec![
        rule(&["foo"], &["bar"], "foo to bar"),
        rule(&["bar"], &["baz"], "bar to baz"),
        rule(&["baz"], &["foo"], "baz to foo"),
        rule(&["other"], &["out"], "unrelated"),
    ]);
    match from_rules(rules) {
        Err(Error::Cycles(err)) => {
            assert_eq!(err.cycles.len(), 1);
            assert_eq!(err.cycles[0].len(), 6);
            assert_eq!(err.graph.node_count(), 9);
        },
        _ => panic!("expected a cycle"),
    }
}

#[test]
fn cycles_are_checked_before_races() {
    let rules = Rules(vec![
        rule(&["a"], &["b"], "one"),
        rule(&["b"], &["a"], "two"),
        rule(&["c"], &["b"], "three"),
    ]);
    match from_rules(rules) {
        Err(Error::Cycles(_)) => {},
        _ => panic!("expected a cycle"),
    }
}

#[test]
fn equal_paths_are_one_node() {
    let rules = Rules(vec![rule(&["src/Foo.c", "./SRC/foo.c"], &["out"], "t")]);
    let g = build(rules.0);
    assert_eq!(g.node_count(), 3);
    assert_eq!(g.edge_count(), 2);
}

#[test]
fn a_dag_passes_the_cycle_check() {
    let mut g = Graph::new();
    let a = g.add_node(1u8);
    let b = g.add_node(2u8);
    g.add_edge(a, b, ());
    assert!(check_cycles(g).is_ok());

    let mut h = Graph::new();
    let a = h.add_node(1u8);
    let b = h.add_node(2u8);
    h.add_edge(a, b, ());
    h.add_edge(b, a, ());
    match check_cycles(h) {
        Err(e) => assert_eq!(e.cycles, vec![vec![NodeIndex(1), NodeIndex(0)]]),
        Ok(_) => panic!("expected a cycle"),
    }
}

#[test]
fn race_errors_are_sorted() {
    let err = RaceError::new(vec![
        Race::new(FilePath::new("b"), 3),
        Race::new(FilePath::new("A"), 2),
        Race::new(FilePath::new("a"), 1),
    ]);
    assert_eq!(err.races, vec![Race::new(FilePath::new("a"), 1), Race::new(FilePath::new("a"), 2), Race::new(FilePath::new("b"), 3)]);
}

#[test]
fn node_accessors() {
    let r: Node<FilePath, String> = Node::Resource(FilePath::new("x"));
    let t: Node<FilePath, String> = Node::Task("make".to_string());
    assert_eq!(r.as_res(), &FilePath::new("x"));
    assert_eq!(t.as_task(), "make");
    assert!(r.is_resource());
    assert!(!t.is_resource());
}

#[test]
fn explicit_subgraph_drops_implicit_edges() {
    let rules = Rules(vec![rule(&["foo.c"], &["foo.o"], "cc")]);
    let mut g = build(rules.0);
    let task = g.node_to_index(&Node::Task("cc".to_string())).unwrap();
    let header = g.add_node(Node::Resource(FilePath::new("foo.h")));
    g.add_edge(header, task, Edge::Implicit);
    let sub = g.explicit_subgraph();
    assert_eq!(sub.node_count(), 3);
    assert_eq!(sub.edge_count(), 2);
    assert!(!sub.contains_node_index(header));
    assert!(sub.contains_node_index(task));
    assert_eq!(sub.incoming(task).len(), 1);
    assert_eq!(sub.outgoing(task).len(), 1);
    assert_eq!(sub.node_to_index(&Node::Resource(FilePath::new("foo.h"))), None);
    assert_eq!(sub.nodes().len(), 3);
    assert_eq!(sub.edges().len(), 2);
}

#[test]
fn rules_of_command_tasks_keep_their_resources() {
    let rules = Rules::new(vec![rule(&["foo.c"], &["foo.o"], "cc -c foo.c")]);
    assert_eq!(rules.len(), 1);
    assert_eq!(rules.iter()[0].inputs, vec![FilePath::new("foo.c")]);
    assert_eq!(rules.iter()[0].outputs, vec![FilePath::new("foo.o")]);
    let mut inputs = vec![FilePath::new("x")];
    KnownResources::<FilePath>::known_inputs(&"cc".to_string(), &mut inputs);
    assert_eq!(inputs, vec![FilePath::new("x")]);
}

#[test]
fn test_good_graph() {
    let rules = Rules(vec![
        rule(&["foo.c", "foo.h"], &["foo.o"], "gcc -c foo.c -o foo.o"),
        rule(&["bar.c", "foo.h"], &["bar.o"], "gcc -c bar.c -o bar.o"),
        rule(&["foo.o", "bar.o"], &["foobar"], "gcc foo.o bar.o -o foobar"),
    ]);
    assert!(from_rules(rules).is_ok());
}

#[test]
fn test_races() {
    let rules = Rules(vec![
        rule(&["foo.c", "foo.h"], &["foo.o", "bar.o"], "gcc -c foo.c -o foo.o"),
        rule(&["bar.c", "foo.h"], &["bar.o", "foo.o"], "gcc -c bar.c -o bar.o"),
        rule(&["foo.o", "bar.o"], &["foobar"], "gcc foo.o bar.o -o foobar"),
    ]);
    let foo = FilePath::new("foo.o");
    let bar = FilePath::new("bar.o");
    let races = vec![Race::new(bar, 2), Race::new(foo, 2)];
    match from_rules(rules) {
        Err(Error::Races(err)) => assert_eq!(err, RaceError::new(races)),
        _ => panic!("expected races"),
    }
}

#[test]
fn test_cycles() {
    let rules = Rules(vec![
        rule(&["foo.c", "foo.h"], &["foo.o", "foo.c"], "gcc foo.c"),
        rule(&["bar.c", "foo.h"], &["bar.o"], "gcc bar.c"),
        rule(&["foo.o", "bar.o"], &["foobar"], "gcc foo.o bar.o -o foobar"),
    ]);
    match from_rules(rules) {
        Err(Error::Cycles(err)) => assert_eq!(err.cycles.len(), 1),
        _ => panic!("expected a cycle"),
    }
}

#[test]
fn a_self_loop_is_a_cycle() {
    let mut g = Graph::new();
    let a = g.add_node(1u8);
    let b = g.add_node(2u8);
    g.add_edge(a, b, ());
    g.add_edge(b, b, ());
    match check_cycles(g) {
        Err(e) => assert_eq!(e.cycles, vec![vec![NodeIndex(1)]]),
        Ok(_) => panic!("expected the self-loop to be reported"),
    }
}
