//! A price-time priority limit order matching engine, with the small feature
//! switch tables that surround it.
//!
//! `order`, `level` and `matcher` hold the engine; `model` describes what a
//! submission does as plain sequences, and the matcher's operations are proved
//! to follow it. `feature_flags`, `env_flags` and `rollout` are feature
//! switches kept in a `table`.

pub mod env_flags;
pub mod feature_flags;
pub mod level;
pub mod matcher;
pub mod model;
pub mod order;
pub mod rollout;
pub mod table;
