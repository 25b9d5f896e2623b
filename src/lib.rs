//! Weighted random index sampling with Walker's alias method.
//!
//! A [`builder::WalkerTableBuilder`] holds integer weights, one per index,
//! and builds a [`table::WalkerTable`] in linear time. The table then draws
//! an index in constant time: it picks a slot uniformly and either keeps it
//! or jumps to the slot's alias.
//!
//! Acceptance probabilities are kept as exact rationals (a numerator per
//! slot over one shared denominator), so the distribution a table samples
//! from is stated and proved exactly, with no rounding.
//!
//! Weights that are all zero, and an empty list of weights, are not an
//! error: they build the table that draws uniformly (which, for no weights,
//! has no index to draw, so its draws require a non-empty table).

pub mod builder;
pub mod error;
pub mod table;
pub mod util;
