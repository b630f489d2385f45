//! Comparison of persisted graph nodes, validation of their version lists,
//! and the replies of the vector query endpoints.

pub mod api;
pub mod cache;
pub mod equality;
pub mod equality_laws;
pub mod float;
pub mod graph_laws;
pub mod index_file;
pub mod node;
pub mod pairs;
pub mod rpc;
pub mod steps;
pub mod types;
pub mod versions;
