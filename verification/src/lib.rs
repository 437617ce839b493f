//! A key-rotating proxy for the Ollama Cloud API: several API keys behind one
//! local endpoint, with per-key concurrency slots, failover before the first
//! response byte, prompt-cache affinity, and usage introspection.

use vstd::prelude::*;

pub mod affinity;
pub mod cli;
pub mod config;
pub mod exchange;
pub mod framing;
pub mod headers;
pub mod json;
pub mod laws;
pub mod model;
pub mod pool;
pub mod proxy;
pub mod text;
pub mod usage;

pub use config::{Keys, ParseError};
pub use pool::Pool;
pub use usage::{KeyUsage, UsageSnapshot, UsageTracker, USAGE_TTL};

verus! {

/// The version that the proxy reports.
pub const VERSION: &'static str = "0.4.0";

} // verus!
