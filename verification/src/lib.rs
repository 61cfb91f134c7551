//! An in-process call-tree profiler.
//!
//! Spans are opened and closed around calls; each distinct call path gets one
//! node in an append-only tree, which accumulates the time spent and the number
//! of completed invocations. When the outermost span closes, the tree is
//! rendered as flame-graph input text and cleared.
//!
//! The recorder is an explicit value, a [`FlameGraph`], that is handed to
//! every operation: one per thread of execution, owned by whoever drives it.

pub mod decimal;
pub mod flamegraph;
pub mod handler;
pub mod history;
pub mod render;
pub mod serialize;
pub mod vec_trie;

pub use crate::flamegraph::{CompletedTrace, FlameGraph, Span};
pub use crate::vec_trie::{Index, Measurement, VecTrie, Visitor, VisitorIter};
