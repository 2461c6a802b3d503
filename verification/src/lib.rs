//! Contraction-hierarchy routing on road networks.
//!
//! The crate holds the mutable adjacency-list graph used while preprocessing,
//! the witness searcher and the node contractor, the frozen compressed
//! sparse-row snapshot, the bidirectional upward query that runs on it and
//! the unpacker that turns a packed result back into a walk over the nodes
//! of the graph. Costs are unsigned integers; the largest value stands for
//! "unreachable".
pub mod builder;
pub mod ch_correct;
pub mod ch_preprocess;
pub mod ch_query;
pub mod contraction_lemmas;
pub mod csr_check;
pub mod csr_graph;
pub mod export_provider;
pub mod graph;
pub mod graph_check;
pub mod hierarchy_lemmas;
pub mod mem_usage;
pub mod order_lemmas;
pub mod provider;
pub mod query_lemmas;
pub mod query_optimal;
pub mod queue;
pub mod route;
pub mod seq_lemmas;
pub mod shortcut_visitor;
pub mod snapshot_lemmas;
pub mod tags;
pub mod unpack_lemmas;
pub mod visitable;
pub mod walks;
pub mod witness_lemmas;
pub mod witness_search;
