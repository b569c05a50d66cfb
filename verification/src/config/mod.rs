//! Bulwark configuration model: typed configuration with sensible defaults.

pub mod checks;
pub mod laws;
pub mod settings;
