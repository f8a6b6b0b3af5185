//! Verified core of a finger server.
pub mod clock;
pub mod config;
pub mod framing;
pub mod identity;
pub mod query;
pub mod rate_limit;
pub mod server;
pub mod storage;
pub mod telemetry;
pub mod text;
pub mod user;
