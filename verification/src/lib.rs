//! A verified core for the Button build system: a directed graph with
//! stable indices, the algorithms the build runs over it, and the build
//! graph rules that keep it free of cycles and races.

pub mod algo;
pub mod build_graph;
pub mod detect;
pub mod diff;
pub mod events;
pub mod graph;
pub mod graphviz;
pub mod index;
pub mod log;
pub mod opts;
pub mod protocol;
pub mod res;
pub mod retry;
pub mod rules;
pub mod subgraph;
pub mod tarjan;
pub mod visit;
