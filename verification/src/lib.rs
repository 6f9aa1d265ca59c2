//! Path-prefix routing and dispatch core for a small reverse proxy.
//!
//! A request path is classified by a character trie over registered
//! prefixes; the matched route may demand bearer-token authentication; a
//! live upstream peer is then chosen round-robin from the route's
//! health-checked pool, and the outbound header rewrites are produced. The
//! surrounding transport (socket handling, HTTP parsing, probing) lives
//! outside this crate and calls in at these points.

pub mod conversions;
pub mod errors;
pub mod health;
pub mod pipeline;
pub mod pool;
pub mod route_table;
pub mod tri_node;
