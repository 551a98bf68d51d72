//! A multi-tenant shard manager for a submission portal backed by an
//! incrementally maintained view graph.
//!
//! Each registered principal owns a shard: a pair of base relations
//! (identity and answers) that is spliced into a live, already-serving
//! graph of derived views.  Class-wide views (roster, aggregate answer
//! feeds) fan the per-principal relations in through stable union
//! operators; a per-relation permission mask decides which gated feeds
//! a relation's rows may flow into.  Shards can be exported to a
//! fingerprinted blob, retired from the live graph, and later
//! reinstated from the blob after an integrity check.

pub mod args;
pub mod codec;
pub mod config;
pub mod errors;
pub mod fanin;
pub mod graph;
pub mod hash;
pub mod laws;
pub mod lifecycle;
pub mod model;
pub mod perm;
pub mod registry;
pub mod rows;
pub mod text;
