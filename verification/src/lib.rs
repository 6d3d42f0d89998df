//! Exact probability distributions over the results of dice.
//!
//! A [`Distribution`] is built from the list of every equally likely result
//! and counts, for each value between the lowest and the highest result, how
//! many entries of the list are exactly, at least and at most that value.
//! A [`Table`] is a snapshot of one of these three histograms that can be
//! queried by value.

pub mod distribution;
pub mod error;
pub mod laws;
pub mod table;
pub mod tally;

pub use distribution::Distribution;
pub use error::DiceError;
pub use table::Chance;
pub use table::Table;
