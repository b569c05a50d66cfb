//! The resolver engine: wire handling, caching, answers and accounting.

pub mod accounts;
pub mod block;
pub mod cache;
pub mod clients;
pub mod counts;
pub mod decisions;
pub mod histogram;
pub mod ingress;
pub mod laws;
pub mod lifetimes;
pub mod lru_store;
pub mod packets;
pub mod pipeline;
pub mod querylog;
pub mod ranking;
pub mod series;
pub mod serving;
pub mod snapshot;
pub mod stats;
pub mod table;
pub mod wire;
