//! A directed graph whose nodes live in an arena and are named by stable
//! handles.
//!
//! Nodes are created one at a time and never move or disappear; edges are
//! appended to a node after it exists, so a graph can be built from the top
//! down and may contain cycles. Two walks read a graph: a lazy depth-first
//! iterator driven by an explicit stack, and a recursive traversal that visits
//! each distinct datum once.
pub mod model;
pub mod graph;
pub mod walk;
pub mod order;
pub mod paths;
pub mod dfs;
pub mod visit;
pub mod traverse;
pub mod mapping;
