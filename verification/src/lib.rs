//! A peer-to-peer computation system: nodes hand out work (a function and its
//! arguments, each named by a content identifier) to their peers and collect
//! the results. This crate holds the protocol state and the decisions of a
//! node; the networking, storage and WebAssembly runtime drive it from outside.

pub mod message;
pub mod encoding;
pub mod seqs;
pub mod peer_stats;
pub mod workswap;
pub mod protocol_laws;
pub mod block;
pub mod executor;
pub mod api;
pub mod node;
