//! A binary decision/policy tree: each leaf recommends a discrete action,
//! each branch partitions the input space on one numeric axis.
//!
//! The tree is built bottom-up through the construction API, simplified in
//! place by [`node::Node::prune`], and serialized into a flat, 1-indexed
//! table of records by [`node::Node::to_table`].

pub mod node;
pub mod table;
