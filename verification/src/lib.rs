//! A directed acyclic graph of nodes kept in a pluggable storage backend.
//!
//! The graph is generic over the node type, the node identifier type and the backend that stores
//! the nodes. `AsyncDag` keeps the identifier of the current HEAD node and walks, extends, merges
//! and rebases the graph through the backend's `get` and `put` operations.

mod async_dag;
pub use async_dag::{
    first_failure, has_id_in_items, item_ids, items_have_id, lemma_first_failure_none,
    lemma_trace_failure_backend, lemma_trace_reach_part, lemma_trace_walk, stop_prefix,
    walk_trace, AsyncDag, Merger, Stream,
};

mod dag_backend;
pub use dag_backend::DagBackend;

mod error;
pub use error::Error;

pub mod graph;

mod id;
pub use id::Id;

mod node;
pub use node::Node;

mod node_id;
pub use node_id::{clone_id, clone_value, contains_id, id_laws, NodeId};

mod rebase;
pub use rebase::{
    insert_each, lemma_replay_keeps_nodes, lemma_trace_selected_head, put_failed,
    rebase_outcome, replay, replay_outcome, replay_step, replays, replays_items, rewrite_failed,
    stopped_at, unselected_prefix,
    IdEqualSelector, IdSelector, NodeRewriter, Rebase, RebaseNodeRewriter,
    RebaseNodeRewriterCreator, RebaseOnto,
};

mod repository;
pub use repository::Repository;
