//! An incremental test runner core for Python test suites.
//!
//! Source files are decomposed into semantic blocks with normalized,
//! content-addressed checksums; a dependency database maps each test to the
//! blocks its last run touched and decides, per test, whether it can be
//! skipped; an execution engine model covers the worker wire protocol and
//! the pool's retry and result-ordering rules.

pub mod blocks;
pub mod cache;
pub mod checksum;
pub mod cli;
pub mod codec;
pub mod config;
pub mod depdb;
pub mod discovery;
pub mod filter;
pub mod kvtable;
pub mod markers;
pub mod pool;
pub mod protocol;
pub mod pysrc;
pub mod runner;
pub mod selection;
pub mod text;
pub mod wire;
