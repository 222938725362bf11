//! Hierarchical comment-tree storage and transactional mutation engine,
//! together with a generic key-expiry registry, for a small blog backend.
//!
//! The engine keeps every table of the backing store as owned state, so each
//! operation is all-or-nothing by construction; the surrounding binary is
//! responsible for persisting that state.

pub mod clock;
pub mod email;
pub mod expiry;
pub mod ids;
pub mod limiter;
pub mod query;
pub mod render;
pub mod store;
pub mod table;
pub mod tree;
pub mod utils;
pub mod voters;
