//! Coordination core: a priority message router with aging and token buckets,
//! a lease registry for named resources, a weighted quorum broker and a
//! hash-chained event ledger with deterministic replay.

pub mod agent;
pub mod config;
pub mod consensus;
pub mod digest;
pub mod director;
pub mod heat;
pub mod ledger;
pub mod metrics;
pub mod priority;
pub mod router;
pub mod territory;
pub mod text;
