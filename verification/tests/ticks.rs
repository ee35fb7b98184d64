use backtesting::ticks::{leg_tick_count, tick_slots, KLineLeg, TickSlot};

#[test]
fn tick_layout_of_a_candle() {
    // a budget of ten ticks gives three per leg: start, midpoint and end
    let slots = tick_slots(1716300900, 10);
    assert_eq!(slots.len(), 9);
    assert_eq!(slots[0], TickSlot { leg: KLineLeg::OpenToLow, step: 0, leg_ticks: 3, time: 1716300900 });
    assert_eq!(slots[2], TickSlot { leg: KLineLeg::OpenToLow, step: 2, leg_ticks: 3, time: 1716300902 });
    assert_eq!(slots[4], TickSlot { leg: KLineLeg::LowToHigh, step: 1, leg_ticks: 3, time: 1716300904 });
    assert_eq!(slots[8], TickSlot { leg: KLineLeg::HighToClose, step: 2, leg_ticks: 3, time: 1716300908 });
    for (k, s) in slots.iter().enumerate() {
        assert_eq!(s.time, 1716300900 + k as u64);
    }
}

#[test]
fn tick_layout_small_budgets() {
    let slots = tick_slots(5, 5);
    assert_eq!(slots.len(), 3);
    assert_eq!(slots[1], TickSlot { leg: KLineLeg::LowToHigh, step: 0, leg_ticks: 1, time: 6 });
    assert!(tick_slots(5, 2).is_empty());
    assert!(tick_slots(5, 0).is_empty());
    assert_eq!(leg_tick_count(10), 3);
    assert_eq!(leg_tick_count(9), 3);
}
