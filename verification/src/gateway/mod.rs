//! The gateway's own rules: rate limits, token claims, configuration URLs,
//! request shapes, the real-time event protocol and edge validation.
pub mod rate_limit;
pub mod auth;
pub mod config;
pub mod requests;
pub mod pulse;
pub mod services;
pub mod generate;
pub mod rpc;
