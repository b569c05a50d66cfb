//! Talking to upstream resolvers: what is sent to which of them and when, and
//! what is made of their answers.

pub mod alt_svc;
pub mod bootstrap;
pub mod conduct;
pub mod connect;
pub mod endpoints;
pub mod error;
pub mod exchange;
pub mod failover;
pub mod health;
pub mod pool;
pub mod probe;
pub mod probe_log;
pub mod spec;
pub mod transport;
