//! Dependency-graph analysis of SMT solver instantiation logs.
//!
//! The crate keeps the typed records of a solver trace, builds the causal
//! dependency graph of its events, shows any part of that graph with the
//! hidden nodes contracted, and searches it for matching loops: repeating
//! chains of instantiations of one quantifier, which it folds into graphs of
//! abstract instantiations by generalising the terms that they matched.
//!
//! The records live in [`items`], [`terms`] and [`model`]; the graphs in
//! [`dag`], [`raw`], [`subgraph`] and [`visible`]; the passes over the raw
//! graph in [`dataflow`], [`next_insts`] and [`next_enabled`]; the search for
//! matching loops in [`inst_graph`], [`contribution`], [`matching_loop`] and
//! [`ml_graph`], with the rows that a fold leaves in [`folded`], what it
//! leaves in a slot in [`slots`], and the proof that a second search finds
//! what the first one found in [`again`]; the filters in [`filters`] and
//! their hash in [`hashing`]; the reading of trace lines in [`z3`]. The
//! modules [`bitmap`], [`digraph`] and [`table`] hold what the crate takes on
//! trust from the crates that it builds on.

pub mod again;
pub mod bitmap;
pub mod contribution;
pub mod dag;
pub mod dataflow;
pub mod digraph;
pub mod error;
pub mod filters;
pub mod folded;
pub mod hashing;
pub mod idx;
pub mod inst_graph;
pub mod items;
pub mod matching_loop;
pub mod ml_graph;
pub mod model;
pub mod next_enabled;
pub mod next_insts;
pub mod raw;
pub mod slots;
pub mod subgraph;
pub mod table;
pub mod terms;
pub mod visible;
pub mod z3;
