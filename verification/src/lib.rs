//! A belief propagation engine over bipartite factor graphs.
//!
//! Variable nodes carry distributions over a discrete `i64` domain; factor
//! nodes carry local weight tables over the variables they connect. The graph
//! exchanges messages along edges in synchronous steps until approximate
//! marginals can be read from any variable node.
//!
//! Probabilities are exact fixed-point numbers: a `u64` scaled so that
//! [`PROB_ONE`](prob::PROB_ONE) stands for 1. Messages are normalized by
//! max-scaling (every entry is divided by the largest entry), the one
//! rescaling rule used throughout the crate.

pub mod bperror;
pub mod bpgraph;
pub mod msg;
pub mod node;
pub mod node_function;
pub mod prob;
pub mod variable_node;

pub use bperror::{BPError, BPResult, ErrorKind};
pub use bpgraph::{BPGraph, NodeIndex};
pub use msg::Message;
pub use node::hashmap_to_distribution;
pub use node::Node;
pub use node_function::{Behavior, CtrlAck, CtrlMsg, FactorNode};
pub use prob::Probability;
pub use variable_node::{InputNeed, VariableNode};
