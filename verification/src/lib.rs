//! Concurrency gate, artifact plumbing and configuration of a proving gateway.
pub mod admission;
pub mod ages;
pub mod artifact_api;
pub mod artifact_http;
pub mod chunks;
pub mod classifier;
pub mod codec;
pub mod config;
pub mod demand;
pub mod exposition;
pub mod gate;
pub mod hexadecimal;
pub mod laws;
pub mod memory;
pub mod messages;
pub mod metrics;
pub mod nodes;
pub mod pending;
pub mod policy;
pub mod pool;
pub mod runs;
pub mod settings;
pub mod setup;
pub mod slots;
pub mod tables;
pub mod text;
pub mod time;
pub mod upkeep;
