//! `hutils` provides small utilities for writing better Rust code.
//!
//! The crate currently offers one utility: [`FnCacher`], a memoizing
//! wrapper that binds a pure function to an internal cache, so that
//! repeated calls with equal arguments reuse the first result instead
//! of recomputing it.

pub mod cache;

pub use self::cache::FnCacher;
