//! The direction of a position.
use vstd::prelude::*;

verus! {

/// Direction of a position: bought at the ask and sold back at the bid, or
/// sold at the bid and bought back at the ask.
#[derive(Debug, Clone, Copy, PartialEq, Eq, Structural)]
pub enum PositionsType {
    Buy,
    Sell,
}

} // verus!
