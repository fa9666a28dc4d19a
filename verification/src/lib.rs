//! Core of a news-digest engine: a per-source ledger of already-processed
//! item identifiers, delta resolution of freshly observed candidates,
//! title filtering with a reversal mode, URL de-duplication, and an
//! age-based eviction (vacuum) policy.

pub mod args;
pub mod config;
pub mod digest;
pub mod feeds;
pub mod filter;
pub mod pipeline;
pub mod sender;
pub mod storage;
pub mod text;
pub mod vacuum;
