# button

The core of the Button build system, written in Verus: the build graph,
the algorithms the build runs over it, and the rules that keep it free of
cycles and races, each with a contract that Verus proves.

## Layout

- `src/` — the verified library.
  - `graph.rs`: a directed graph with stable node and edge indices; nodes
    and edges are unique. `index.rs` holds the index types and `IndexSet`,
    a set of indices backed by the `bit-set` crate. `visit.rs` holds the
    records of visited nodes.
  - `tarjan.rs`: strongly connected components (Tarjan's algorithm), with
    the proofs that the components partition the nodes, are strongly
    connected and maximal, and come in reverse topological order.
  - `algo.rs`: root and terminal nodes, depth-first search, and the
    decisions of a topological traversal. `diff.rs`: what two graphs do not
    share. `subgraph.rs`: views of a graph restricted to some nodes.
  - `build_graph.rs`: the build graph made from rules, the cycle check and
    the race check. `rules.rs`: the rules themselves.
  - `graphviz.rs`: the GraphViz (DOT) text of a build graph, line by line.
  - `res.rs`: file paths in normal form, compared case-insensitively.
  - `detect.rs`, `events.rs`, `log.rs`, `protocol.rs`, `retry.rs`,
    `opts.rs`: the smaller pieces of the build: detection of a task's
    inputs and outputs, task output events, log entries, the daemon's
    shutdown decisions, retry delays, and command-line values.
- `tests/` — tests of the library, run against the compiled crate.
- `app/` — the `button` command: reads the rules file, builds and checks
  the graph, and writes out its GraphViz lines. It also holds the parts that
  need threads or the file system around the library's decisions.
