//! Bulwark: a DNS resolver that filters by rule lists.

pub mod config;
pub mod engine;
pub mod filter;
pub mod forms;
pub mod message;
pub mod net;
pub mod text;
pub mod upstream;
