//! Core of an HTTP range-chunking proxy: the decision engine that rewrites
//! `Range` request headers to bound each upstream fetch to a configured chunk
//! size, a tiered pool of reusable byte buffers with hit/miss accounting, and
//! a per-resource prefetch tracker that picks adjacent ranges to pre-issue.
//!
//! The surrounding transport (TLS interception, HTTP plumbing, configuration
//! files, CLI) lives outside this crate and hands the core plain values.

pub mod buffer_pool;
pub mod config;
pub mod decimal;
pub mod prefetch;
pub mod rewriter;
pub mod size_parse;
