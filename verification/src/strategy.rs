//! Trading strategies driven by the backtest.
use vstd::prelude::*;

verus! {

/// The strategy that places no orders; it only watches the ticks go by.
#[derive(Debug, Clone, Copy, PartialEq, Eq, Structural)]
pub struct DefaultStrategy {}

impl DefaultStrategy {
    /// The default strategy.
    pub fn new() -> (s: Self)
        ensures
            s == (DefaultStrategy {}),
    {
        DefaultStrategy {}
    }
}

} // verus!
