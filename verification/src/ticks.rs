//! The ticks replayed from one candle.
//!
//! A candle is replayed as three legs: from the open price down to the low,
//! from the low up to the high, and from the high to the close.  A budget of
//! `steps` ticks is shared evenly between the legs, so each leg gets
//! `steps / 3` ticks; a leg's ticks run from its start price to its end price,
//! both included, evenly spaced.  The ticks are one second apart from the
//! candle's opening time.  Prices along a leg are interpolated by the engine;
//! this module lays out which leg and which step each tick belongs to, and
//! its time.
use vstd::prelude::*;

verus! {

/// The stretch of a candle that a tick belongs to.
#[derive(Debug, Clone, Copy, PartialEq, Eq, Structural)]
pub enum KLineLeg {
    OpenToLow,
    LowToHigh,
    HighToClose,
}

/// One tick of a replayed candle: its leg, its step within the leg
/// (`0..leg_ticks`), the number of ticks of its leg, and its time.  Step `i`
/// lies `i / (leg_ticks - 1)` of the way from the leg's start price to its
/// end price, or at the start price when the leg has a single tick.
#[derive(Debug, Clone, Copy, PartialEq, Eq, Structural)]
pub struct TickSlot {
    pub leg: KLineLeg,
    pub step: usize,
    pub leg_ticks: usize,
    pub time: u64,
}

/// The number of ticks of each leg when a candle is given `steps` ticks.
pub open spec fn ticks_per_leg(steps: int) -> int {
    steps / 3
}

/// The tick of leg `leg`, step `step` of `leg_ticks`, at time `time`.
pub open spec fn tick_at(leg: KLineLeg, step: int, leg_ticks: int, time: int) -> TickSlot {
    TickSlot { leg, step: step as usize, leg_ticks: leg_ticks as usize, time: time as u64 }
}

/// The layout of the ticks of a candle that opens at `start` and is given
/// `steps` ticks: `steps / 3` ticks of the open-to-low leg, then as many of
/// low-to-high, then of high-to-close, at times `start`, `start + 1`, ... in
/// that order.
pub open spec fn is_tick_layout(slots: Seq<TickSlot>, start: u64, steps: int) -> bool {
    let m = ticks_per_leg(steps);
    &&& slots.len() == 3 * m
    &&& forall|i: int| 0 <= i < m ==> #[trigger] slots[i] == tick_at(KLineLeg::OpenToLow, i, m, start + i)
    &&& forall|i: int| 0 <= i < m ==> #[trigger] slots[m + i] == tick_at(KLineLeg::LowToHigh, i, m, start + m + i)
    &&& forall|i: int| 0 <= i < m ==> #[trigger] slots[2 * m + i] == tick_at(KLineLeg::HighToClose, i, m, start + 2 * m + i)
}

/// The number of ticks of each leg when a candle is given `steps` ticks.
pub fn leg_tick_count(steps: usize) -> (m: usize)
    ensures
        m == ticks_per_leg(steps as int),
        3 * m <= steps < 3 * m + 3,
{
    steps / 3
}

/// Lays out the ticks of a candle opening at `start` that is given `steps`
/// ticks.  The last tick's time, `start + 3 * (steps / 3) - 1`, must fit in a
/// `u64`.
pub fn tick_slots(start: u64, steps: usize) -> (slots: Vec<TickSlot>)
    requires
        start + 3 * ticks_per_leg(steps as int) <= u64::MAX + 1,
    ensures
        is_tick_layout(slots@, start, steps as int),
        slots@.len() == steps - steps % 3,
{
    let m = leg_tick_count(steps);
    let mut slots: Vec<TickSlot> = Vec::new();
    let mut i: usize = 0;
    while i < m
        invariant
            m == ticks_per_leg(steps as int),
            3 * m <= steps,
            start + 3 * m <= u64::MAX + 1,
            i <= m,
            slots@.len() == i,
            forall|j: int| 0 <= j < i ==> #[trigger] slots@[j] == tick_at(KLineLeg::OpenToLow, j, m as int, start + j),
        decreases m - i,
    {
        slots.push(TickSlot { leg: KLineLeg::OpenToLow, step: i, leg_ticks: m, time: start + i as u64 });
        i = i + 1;
    }
    let mut i: usize = 0;
    while i < m
        invariant
            m == ticks_per_leg(steps as int),
            3 * m <= steps,
            start + 3 * m <= u64::MAX + 1,
            i <= m,
            slots@.len() == m + i,
            forall|j: int| 0 <= j < m ==> #[trigger] slots@[j] == tick_at(KLineLeg::OpenToLow, j, m as int, start + j),
            forall|j: int| 0 <= j < i ==> #[trigger] slots@[m + j] == tick_at(KLineLeg::LowToHigh, j, m as int, start + m + j),
        decreases m - i,
    {
        slots.push(TickSlot { leg: KLineLeg::LowToHigh, step: i, leg_ticks: m, time: start + (m + i) as u64 });
        i = i + 1;
    }
    let mut i: usize = 0;
    while i < m
        invariant
            m == ticks_per_leg(steps as int),
            3 * m <= steps,
            start + 3 * m <= u64::MAX + 1,
            i <= m,
            slots@.len() == 2 * m + i,
            forall|j: int| 0 <= j < m ==> #[trigger] slots@[j] == tick_at(KLineLeg::OpenToLow, j, m as int, start + j),
            forall|j: int| 0 <= j < m ==> #[trigger] slots@[m + j] == tick_at(KLineLeg::LowToHigh, j, m as int, start + m + j),
            forall|j: int| 0 <= j < i ==> #[trigger] slots@[2 * m + j] == tick_at(KLineLeg::HighToClose, j, m as int, start + 2 * m + j),
        decreases m - i,
    {
        slots.push(TickSlot { leg: KLineLeg::HighToClose, step: i, leg_ticks: m, time: start + (2 * m + i) as u64 });
        i = i + 1;
    }
    slots
}

} // verus!
