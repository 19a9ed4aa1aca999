//! Edge content-serving node: per-path access policies with longest-prefix
//! lookup, hot-swappable versioned configuration, HMAC-signed URL tokens with
//! byte-range cross-validation, and declarative content provisioning.

pub mod bytestr;
pub mod cache;
pub mod central;
pub mod clock;
pub mod config;
pub mod crypto;
pub mod handler;
pub mod hexnum;
pub mod provision;
pub mod query;
pub mod ranges;
pub mod signature;
pub mod store;
