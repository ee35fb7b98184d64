//! Verified core of a single-symbol forex backtesting engine.
//!
//! The library keeps the book of open and closed positions, issues unique
//! order ids, lays out the ticks that are replayed from a candle, reads the
//! tab-separated candle export that drives a backtest and the comma-separated
//! account-state export that the profile analysis works on.  Prices, volumes
//! and money are floating-point values in the engine; they never enter this
//! crate, which handles them as opaque per-position details supplied by the
//! caller.
use vstd::prelude::*;

pub mod error;
pub mod positions;
pub mod book;
pub mod ids;
pub mod ticks;
pub mod text;
pub mod kline;
pub mod strategy;
pub mod calendar;
pub mod dates;
pub mod analysis;
pub mod trading;
pub mod laws;

verus! {

} // verus!
