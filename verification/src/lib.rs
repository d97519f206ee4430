//! A memory lifecycle and garbage-collection engine: a store of short-lived
//! "memory" facts tracked by usage signals, with an append-only event ledger
//! and an engagement-based policy that promotes valuable memories to
//! longer-lived generations and expires unused ones.

pub mod activity;
pub mod analyzer;
pub mod buffer;
pub mod digits;
pub mod enrich;
pub mod flows;
pub mod gc;
pub mod ident;
pub mod laws;
pub mod payload;
pub mod query;
pub mod sort;
pub mod stats;
pub mod store;
pub mod text;
