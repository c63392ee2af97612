//! Aether: the verified core of a sharded flight-search engine.

pub mod agg;
pub mod auth;
pub mod briefing;
pub mod client;
pub mod control;
pub mod dashboard;
pub mod double;
pub mod embed;
pub mod fanout;
pub mod federation;
pub mod filter;
pub mod hybrid;
pub mod json;
pub mod mcp;
pub mod memory;
pub mod metrics;
pub mod net;
pub mod onnx;
pub mod raft_log;
pub mod ranking;
pub mod registry;
pub mod service;
pub mod settings;
pub mod shard;
pub mod smtp;
pub mod snapshot;
pub mod state_machine;
pub mod supervisor;
pub mod text;
pub mod tokens;
pub mod tokenizer_file;
pub mod tools;
pub mod wire;
