//! A dataflow graph of typed nodes joined by typed links, evaluated lazily with a cache per
//! node.
//!
//! `node` holds the port kinds, the schema types and the `Node` capability; `node_graph` holds
//! the graph, its connection protocol, its cache invalidation and its memoized evaluator;
//! `laws` states what holds across several graph operations; `nodes` holds what the concrete
//! node kinds decide.

pub mod laws;
pub mod node;
pub mod node_graph;
pub mod nodes;
