//! Properties of the book, the id registry and the tick layout that span
//! several operations.
use vstd::prelude::*;
use vstd::set_lib::{set_int_range, lemma_int_range, lemma_subset_equality};
use crate::book::{
    PositionRecord, all_unclosed, closed_record, closed_upto, first_open_with_id, has_open_id,
    is_newest_first_order, is_newest_index, is_open_with_id, kept_upto, listed_before,
    opened_record, settled_at, unclosed_mask,
};
use crate::positions::PositionsType;
use crate::ids::{FIRST_ID, ID_LIMIT, is_valid_id};
use vstd::set_lib::lemma_map_size_bound;
use crate::ticks::{KLineLeg, is_tick_layout, tick_at, ticks_per_leg};
use crate::text::{split_on, is_digit};
use crate::calendar::{
    is_utc_date_of, utc_day, date_text_day, is_date_text, is_export_datetime, export_datetime_seconds,
    days_from_civil, four_digits, two_digits, lemma_date_text_injective, lemma_export_clock_injective,
    lemma_export_clock_minutes,
};
use crate::kline::{KLineText, keeps_export_clock, kline_datetime_text};
use crate::trading::{ids_registered, open_ids_distinct};

verus! {

/// A newest-first listing of the open positions names every position.
pub proof fn lemma_order_lists_every_position<D>(
    open: Seq<PositionRecord<D>>,
    order: Seq<usize>,
    j: int,
)
    requires
        is_newest_first_order(open, order),
        0 <= j < open.len(),
    ensures
        exists|a: int| 0 <= a < order.len() && order[a] as int == j,
{
    let n = open.len() as int;
    let oi = order.map_values(|x: usize| x as int);
    assert forall|a: int, b: int|
        0 <= a < oi.len() && 0 <= b < oi.len() && a != b implies oi[a] != oi[b] by {
        if a < b {
            assert(listed_before(open, order[a] as int, order[b] as int));
        } else {
            assert(listed_before(open, order[b] as int, order[a] as int));
        }
    }
    assert(oi.no_duplicates());
    oi.unique_seq_to_set();
    lemma_int_range(0, n);
    assert forall|x: int| oi.to_set().contains(x) implies set_int_range(0, n).contains(x) by {
        let a = choose|a: int| 0 <= a < oi.len() && oi[a] == x;
        assert(order[a] < open.len());
    }
    lemma_subset_equality(oi.to_set(), set_int_range(0, n));
    assert(set_int_range(0, n).contains(j));
    assert(oi.to_set().contains(j));
    let a = choose|a: int| 0 <= a < oi.len() && oi[a] == j;
    assert(order[a] as int == j);
}

/// The newest-first listing of the open positions is unique: any two such
/// listings agree, so the copies that `positions_newest_first` returns are
/// determined by the book.
pub proof fn lemma_newest_first_order_unique<D>(
    open: Seq<PositionRecord<D>>,
    o1: Seq<usize>,
    o2: Seq<usize>,
)
    requires
        is_newest_first_order(open, o1),
        is_newest_first_order(open, o2),
    ensures
        o1 == o2,
{
    assert forall|a: int| 0 <= a < o1.len() implies o1[a] == o2[a] by {
        lemma_orders_agree_upto(open, o1, o2, a);
    }
    assert(o1 =~= o2);
}

proof fn lemma_orders_agree_upto<D>(open: Seq<PositionRecord<D>>, o1: Seq<usize>, o2: Seq<usize>, a: int)
    requires
        is_newest_first_order(open, o1),
        is_newest_first_order(open, o2),
        0 <= a < o1.len(),
    ensures
        o1[a] == o2[a],
    decreases a,
{
    assert forall|b: int| 0 <= b < a implies o1[b] == o2[b] by {
        lemma_orders_agree_upto(open, o1, o2, b);
    }
    if o1[a] != o2[a] {
        // o1[a] sits in o2 somewhere; not before a, where o2 agrees with o1
        lemma_order_lists_every_position(open, o2, o1[a] as int);
        let b = choose|b: int| 0 <= b < o2.len() && o2[b] as int == o1[a] as int;
        if b < a {
            assert(o1[b] == o2[b]);
            assert(listed_before(open, o1[b] as int, o1[a] as int));
        }
        assert(b > a);
        assert(listed_before(open, o2[a] as int, o2[b] as int));
        lemma_order_lists_every_position(open, o1, o2[a] as int);
        let c = choose|c: int| 0 <= c < o1.len() && o1[c] as int == o2[a] as int;
        if c < a {
            assert(o1[c] == o2[c]);
            assert(listed_before(open, o2[c] as int, o2[a] as int));
        }
        assert(c > a);
        assert(listed_before(open, o1[a] as int, o1[c] as int));
    }
}

/// The first position in the newest-first listing was opened at the same
/// time as the newest position (the one `last_position` returns); it is the
/// first of the positions opened at that time, so it is the very same
/// position when no other position was opened at that time.
pub proof fn lemma_newest_first_starts_with_newest<D>(
    open: Seq<PositionRecord<D>>,
    order: Seq<usize>,
    k: int,
)
    requires
        is_newest_first_order(open, order),
        is_newest_index(open, k),
    ensures
        open[order[0] as int].open_time == open[k].open_time,
        order[0] as int <= k,
        (forall|j: int| 0 <= j < open.len() && j != k ==> open[j].open_time < open[k].open_time)
            ==> order[0] as int == k,
{
    lemma_order_lists_every_position(open, order, k);
    let a = choose|a: int| 0 <= a < order.len() && order[a] as int == k;
    if a > 0 {
        assert(listed_before(open, order[0] as int, order[a] as int));
    }
    assert(order[0] < open.len());
}

/// Closing everything at a nonzero time empties the book: the closed
/// positions, in book order, carry that close time and their final details.
pub proof fn lemma_close_all_empties_book<D>(open: Seq<PositionRecord<D>>, details: Seq<D>, time: u64)
    requires
        all_unclosed(open),
        details.len() == open.len(),
        time != 0,
    ensures
        kept_upto(open, unclosed_mask(open), details, time, open.len() as int) == Seq::<
            PositionRecord<D>,
        >::empty(),
        closed_upto(open, unclosed_mask(open), details, time, open.len() as int) == Seq::new(
            open.len(),
            |i: int| closed_record(open[i], time, details[i]),
        ),
{
    lemma_close_all_prefix(open, details, time, open.len() as int);
    assert(closed_upto(open, unclosed_mask(open), details, time, open.len() as int) =~= Seq::new(
        open.len(),
        |i: int| closed_record(open[i], time, details[i]),
    ));
}

proof fn lemma_close_all_prefix<D>(open: Seq<PositionRecord<D>>, details: Seq<D>, time: u64, m: int)
    requires
        all_unclosed(open),
        details.len() == open.len(),
        time != 0,
        0 <= m <= open.len(),
    ensures
        kept_upto(open, unclosed_mask(open), details, time, m) == Seq::<PositionRecord<D>>::empty(),
        closed_upto(open, unclosed_mask(open), details, time, m).len() == m,
        forall|i: int|
            0 <= i < m ==> #[trigger] closed_upto(open, unclosed_mask(open), details, time, m)[i]
                == closed_record(open[i], time, details[i]),
    decreases m,
{
    if m > 0 {
        lemma_close_all_prefix(open, details, time, m - 1);
        assert(open[m - 1].close_time == 0);
        assert(unclosed_mask(open)[m - 1]);
    }
}

/// Closing at a nonzero time keeps every position in exactly one place:
/// those left open and those closed together number the positions that were
/// open.
pub proof fn lemma_close_where_conserves<D>(
    open: Seq<PositionRecord<D>>,
    mask: Seq<bool>,
    details: Seq<D>,
    time: u64,
    m: int,
)
    requires
        all_unclosed(open),
        mask.len() == open.len(),
        details.len() == open.len(),
        time != 0,
        0 <= m <= open.len(),
    ensures
        kept_upto(open, mask, details, time, m).len() + closed_upto(open, mask, details, time, m).len()
            == m,
        forall|k: int|
            0 <= k < kept_upto(open, mask, details, time, m).len() ==> exists|i: int|
                0 <= i < m && !mask[i] && #[trigger] kept_upto(open, mask, details, time, m)[k] == open[i],
    decreases m,
{
    if m > 0 {
        lemma_close_where_conserves(open, mask, details, time, m - 1);
        assert(open[m - 1].close_time == 0);
        let prev = kept_upto(open, mask, details, time, m - 1);
        let u = settled_at(open, mask, details, time, m - 1);
        let cur = kept_upto(open, mask, details, time, m);
        assert forall|k: int| 0 <= k < cur.len() implies exists|i: int|
            0 <= i < m && !mask[i] && #[trigger] cur[k] == open[i] by {
            if k < prev.len() {
                assert(cur[k] == prev[k]);
                let i = choose|i: int| 0 <= i < m - 1 && !mask[i] && prev[k] == open[i];
                assert(0 <= i < m && !mask[i] && cur[k] == open[i]);
            } else {
                assert(u.close_time == 0);
                assert(!mask[m - 1]);
                assert(cur[k] == open[m - 1]);
            }
        }
    }
}

/// Opening a position with an id that no open position carries, then closing
/// that id, closes the position just opened and leaves the book as it was.
pub proof fn lemma_close_undoes_open<D>(
    open: Seq<PositionRecord<D>>,
    id: u64,
    time: u64,
    position_type: PositionsType,
    detail: D,
    i: int,
)
    requires
        !has_open_id(open, id),
        first_open_with_id(open.push(opened_record(id, time, position_type, detail)), id, i),
    ensures
        i == open.len(),
        open.push(opened_record(id, time, position_type, detail)).remove(i) == open,
{
    let after = open.push(opened_record(id, time, position_type, detail));
    if i < open.len() {
        assert(is_open_with_id(open, id, i));
    }
    assert(after.remove(i) =~= open);
}

/// After opening a position, an open position with its id exists, so
/// closing that id succeeds.
pub proof fn lemma_opened_is_closable<D>(
    open: Seq<PositionRecord<D>>,
    id: u64,
    time: u64,
    position_type: PositionsType,
    detail: D,
)
    ensures
        has_open_id(open.push(opened_record(id, time, position_type, detail)), id),
{
    let after = open.push(opened_record(id, time, position_type, detail));
    assert(is_open_with_id(after, id, open.len() as int));
}

/// An id handed out after another one differs from it: the registry never
/// hands out the same id twice.
pub proof fn lemma_ids_never_repeat(issued: Set<u64>, first: u64, second: u64)
    requires
        !issued.contains(first),
        !issued.insert(first).contains(second),
    ensures
        first != second,
{
}

/// While fewer ids than there are valid ones were handed out, some valid id
/// is still free, so `generate_unique_id` returns `Some`.
pub proof fn lemma_free_id_exists(issued: Set<u64>)
    requires
        issued.finite(),
        issued.len() < ID_LIMIT - FIRST_ID,
    ensures
        exists|x: u64| is_valid_id(x) && !issued.contains(x),
{
    if forall|x: u64| is_valid_id(x) ==> issued.contains(x) {
        let f = |x: u64| x as int;
        let ints = issued.map(f);
        lemma_map_size_bound(issued, ints, f);
        let range = set_int_range(FIRST_ID as int, ID_LIMIT as int);
        lemma_int_range(FIRST_ID as int, ID_LIMIT as int);
        assert forall|i: int| range.contains(i) implies ints.contains(i) by {
            let x = i as u64;
            assert(is_valid_id(x));
            assert(issued.contains(x));
            assert(f(x) == i);
        }
        assert(range.subset_of(ints));
        vstd::set_lib::lemma_len_subset(range, ints);
        assert(false);
    }
}

/// When every id in the book came from the registry (as `TradeBook` keeps
/// it), a position opened with
/// a freshly handed-out id carries an id that no position in the book, open
/// or closed, carries; the open ids stay distinct and every id of the book
/// stays registered.
pub proof fn lemma_fresh_id_new_to_book<D>(
    open: Seq<PositionRecord<D>>,
    history: Seq<PositionRecord<D>>,
    issued: Set<u64>,
    id: u64,
    time: u64,
    position_type: PositionsType,
    detail: D,
)
    requires
        ids_registered(open, history, issued),
        open_ids_distinct(open),
        !issued.contains(id),
    ensures
        forall|k: int| 0 <= k < open.len() ==> (#[trigger] open[k]).id != id,
        forall|k: int| 0 <= k < history.len() ==> (#[trigger] history[k]).id != id,
        open_ids_distinct(open.push(opened_record(id, time, position_type, detail))),
        ids_registered(open.push(opened_record(id, time, position_type, detail)), history, issued.insert(id)),
{
    let after = open.push(opened_record(id, time, position_type, detail));
    assert forall|a: int, b: int| 0 <= a < b < after.len() implies #[trigger] after[a].id != #[trigger] after[b].id by {
        if b == open.len() {
            assert(issued.contains(open[a].id));
        } else {
            assert(after[a] == open[a] && after[b] == open[b]);
        }
    }
    assert forall|k: int| 0 <= k < after.len() implies issued.insert(id).contains(#[trigger] after[k].id) by {
        if k < open.len() {
            assert(after[k] == open[k]);
        }
    }
}

/// Closing everything leaves nothing to close: on an empty book a second
/// full liquidation keeps nothing and closes nothing.
pub proof fn lemma_close_all_on_empty_book<D>(details: Seq<D>, time: u64)
    ensures
        kept_upto(Seq::<PositionRecord<D>>::empty(), unclosed_mask(Seq::<PositionRecord<D>>::empty()), details, time, 0) == Seq::<PositionRecord<D>>::empty(),
        closed_upto(Seq::<PositionRecord<D>>::empty(), unclosed_mask(Seq::<PositionRecord<D>>::empty()), details, time, 0) == Seq::<PositionRecord<D>>::empty(),
{
}

/// The ticks of a candle are one second apart, starting at the candle's
/// opening time; each leg has `steps / 3` ticks and every step lies within
/// its leg.
pub proof fn lemma_tick_times_consecutive(
    slots: Seq<crate::ticks::TickSlot>,
    start: u64,
    steps: int,
)
    requires
        0 <= steps <= usize::MAX,
        is_tick_layout(slots, start, steps),
        start + 3 * ticks_per_leg(steps) <= u64::MAX + 1,
    ensures
        forall|k: int| 0 <= k < slots.len() ==> (#[trigger] slots[k]).time == start + k,
        forall|k: int|
            0 <= k < slots.len() ==> (#[trigger] slots[k]).step < slots[k].leg_ticks
                && slots[k].leg_ticks == ticks_per_leg(steps),
{
    let m = ticks_per_leg(steps);
    assert(0 <= m <= steps);
    assert forall|k: int| 0 <= k < slots.len() implies (#[trigger] slots[k]).time == start + k
        && slots[k].step < slots[k].leg_ticks && slots[k].leg_ticks == m by {
        if k < m {
            assert(slots[k] == tick_at(KLineLeg::OpenToLow, k, m, start + k));
        } else if k < 2 * m {
            assert(slots[m + (k - m)] == tick_at(KLineLeg::LowToHigh, k - m, m, start + m + (k - m)));
        } else {
            assert(slots[2 * m + (k - 2 * m)] == tick_at(KLineLeg::HighToClose, k - 2 * m, m, start + 2 * m + (k - 2 * m)));
        }
    }
}

/// The fields of a split line hold no separator, and joining them back with
/// the separator gives the line.
pub proof fn lemma_split_rejoins(s: Seq<char>, sep: char)
    ensures
        joined(split_on(s, sep), sep) == s,
        forall|k: int, j: int|
            0 <= k < split_on(s, sep).len() && 0 <= j < split_on(s, sep)[k].len()
                ==> #[trigger] split_on(s, sep)[k][j] != sep,
    decreases s.len(),
{
    crate::text::lemma_split_nonempty(s, sep);
    if s.len() > 0 {
        let prev = split_on(s.drop_last(), sep);
        lemma_split_rejoins(s.drop_last(), sep);
        crate::text::lemma_split_nonempty(s.drop_last(), sep);
        let cur = split_on(s, sep);
        if s.last() == sep {
            assert(cur.drop_last() =~= prev);
            assert(cur.last() =~= Seq::<char>::empty());
            assert(joined(cur, sep) =~= joined(prev, sep) + seq![sep]);
        } else {
            let n = prev.len() as int;
            assert(prev.last().push(s.last()).drop_last() =~= prev.last());
            lemma_joined_last(prev, sep, prev.last().push(s.last()));
            assert(joined(cur, sep) =~= joined(prev, sep).push(s.last()));
            assert forall|k: int, j: int| 0 <= k < cur.len() && 0 <= j < cur[k].len() implies #[trigger] cur[k][j] != sep by {
                if k < n - 1 {
                    assert(cur[k] == prev[k]);
                } else if j < prev.last().len() {
                    assert(cur[k][j] == prev[n - 1][j]);
                }
            }
        }
        assert(s.drop_last().push(s.last()) =~= s);
    }
}

/// The pieces of `parts` with `sep` between neighbours.
pub open spec fn joined(parts: Seq<Seq<char>>, sep: char) -> Seq<char>
    decreases parts.len(),
{
    if parts.len() == 0 {
        Seq::empty()
    } else if parts.len() == 1 {
        parts[0]
    } else {
        joined(parts.drop_last(), sep) + seq![sep] + parts.last()
    }
}

proof fn lemma_joined_last(parts: Seq<Seq<char>>, sep: char, last: Seq<char>)
    requires
        parts.len() >= 1,
        last.len() == parts.last().len() + 1,
        last.drop_last() == parts.last(),
    ensures
        joined(parts.update(parts.len() - 1, last), sep) == joined(parts, sep).push(last.last()),
{
    let upd = parts.update(parts.len() - 1, last);
    assert(last =~= parts.last().push(last.last()));
    if parts.len() == 1 {
        assert(upd[0] == last);
    } else {
        assert(upd.drop_last() =~= parts.drop_last());
        assert(joined(upd, sep) =~= joined(parts, sep).push(last.last()));
    }
}

/// `src` lists, in increasing order, exactly the indices `j < n` at which
/// `p` holds.
pub open spec fn lists_indices_where(src: Seq<int>, n: int, p: spec_fn(int) -> bool) -> bool {
    &&& forall|k: int| 0 <= k < src.len() ==> 0 <= #[trigger] src[k] < n && p(src[k])
    &&& forall|a: int, b: int| 0 <= a < b < src.len() ==> #[trigger] src[a] < #[trigger] src[b]
    &&& forall|j: int| 0 <= j < n && #[trigger] p(j) ==> exists|k: int| 0 <= k < src.len() && src[k] == j
}

proof fn closed_witness<D>(
    open: Seq<PositionRecord<D>>,
    mask: Seq<bool>,
    details: Seq<D>,
    time: u64,
    n: int,
) -> (src: Seq<int>)
    requires
        0 <= n <= open.len(),
        n <= mask.len(),
        n <= details.len(),
    ensures
        lists_indices_where(src, n, |j: int| mask[j]),
        closed_upto(open, mask, details, time, n).len() == src.len(),
        forall|k: int|
            0 <= k < src.len() ==> #[trigger] closed_upto(open, mask, details, time, n)[k]
                == closed_record(open[src[k]], time, details[src[k]]),
    decreases n,
{
    if n <= 0 {
        Seq::empty()
    } else {
        let prev = closed_witness(open, mask, details, time, n - 1);
        let pc = closed_upto(open, mask, details, time, n - 1);
        let c = closed_upto(open, mask, details, time, n);
        let p = |j: int| mask[j];
        if mask[n - 1] {
            let src = prev.push(n - 1);
            assert forall|k: int| 0 <= k < src.len() implies 0 <= #[trigger] src[k] < n && p(src[k]) by {
                if k < prev.len() {
                    assert(src[k] == prev[k]);
                }
            }
            assert forall|a: int, b: int| 0 <= a < b < src.len() implies #[trigger] src[a] < #[trigger] src[b] by {
                assert(src[a] == prev[a]);
                if b < prev.len() {
                    assert(src[b] == prev[b]);
                }
            }
            assert forall|j: int| 0 <= j < n && #[trigger] p(j) implies exists|k: int| 0 <= k < src.len() && src[k] == j by {
                if j < n - 1 {
                    let k = choose|k: int| 0 <= k < prev.len() && prev[k] == j;
                    assert(src[k] == j);
                } else {
                    assert(src[prev.len() as int] == j);
                }
            }
            assert forall|k: int| 0 <= k < src.len() implies #[trigger] c[k] == closed_record(open[src[k]], time, details[src[k]]) by {
                if k < prev.len() {
                    assert(c[k] == pc[k] && src[k] == prev[k]);
                }
            }
            src
        } else {
            assert forall|j: int| 0 <= j < n && #[trigger] p(j) implies exists|k: int| 0 <= k < prev.len() && prev[k] == j by {
                assert(j < n - 1);
            }
            prev
        }
    }
}

/// A settlement pass, whatever positions it marks, appends to the history
/// exactly the marked positions, in book order, each closed at `time` with
/// its own final detail: it keeps the position's id, open time and
/// direction.
pub proof fn lemma_settlement_closes_marked_in_order<D>(
    open: Seq<PositionRecord<D>>,
    mask: Seq<bool>,
    details: Seq<D>,
    time: u64,
)
    requires
        mask.len() == open.len(),
        details.len() == open.len(),
    ensures
        exists|src: Seq<int>|
            {
                &&& lists_indices_where(src, open.len() as int, |j: int| mask[j])
                &&& #[trigger] closed_upto(open, mask, details, time, open.len() as int).len() == src.len()
                &&& forall|k: int|
                    #![trigger src[k]]
                    0 <= k < src.len() ==> {
                        let c = closed_upto(open, mask, details, time, open.len() as int)[k];
                        let o = open[src[k]];
                        &&& c.id == o.id
                        &&& c.open_time == o.open_time
                        &&& c.position_type == o.position_type
                        &&& c.close_time == time
                        &&& c.detail == details[src[k]]
                    }
            },
{
    let src = closed_witness(open, mask, details, time, open.len() as int);
    let c = closed_upto(open, mask, details, time, open.len() as int);
    assert forall|k: int| #![trigger src[k]] 0 <= k < src.len() implies {
        let o = open[src[k]];
        &&& c[k].id == o.id
        &&& c[k].open_time == o.open_time
        &&& c[k].position_type == o.position_type
        &&& c[k].close_time == time
        &&& c[k].detail == details[src[k]]
    } by {
        assert(c[k] == closed_record(open[src[k]], time, details[src[k]]));
    }
}

proof fn kept_witness<D>(
    open: Seq<PositionRecord<D>>,
    mask: Seq<bool>,
    details: Seq<D>,
    time: u64,
    n: int,
) -> (src: Seq<int>)
    requires
        0 <= n <= open.len(),
        n <= mask.len(),
        n <= details.len(),
    ensures
        lists_indices_where(
            src,
            n,
            |j: int| if mask[j] { time == 0 } else { open[j].close_time == 0 },
        ),
        kept_upto(open, mask, details, time, n).len() == src.len(),
        forall|k: int|
            0 <= k < src.len() ==> #[trigger] kept_upto(open, mask, details, time, n)[k] == (if mask[src[k]] {
                closed_record(open[src[k]], time, details[src[k]])
            } else {
                open[src[k]]
            }),
    decreases n,
{
    let p = |j: int| if mask[j] { time == 0 } else { open[j].close_time == 0 };
    if n <= 0 {
        Seq::empty()
    } else {
        let prev = kept_witness(open, mask, details, time, n - 1);
        let pk = kept_upto(open, mask, details, time, n - 1);
        let c = kept_upto(open, mask, details, time, n);
        if p(n - 1) {
            let src = prev.push(n - 1);
            assert forall|k: int| 0 <= k < src.len() implies 0 <= #[trigger] src[k] < n && p(src[k]) by {
                if k < prev.len() {
                    assert(src[k] == prev[k]);
                }
            }
            assert forall|a: int, b: int| 0 <= a < b < src.len() implies #[trigger] src[a] < #[trigger] src[b] by {
                assert(src[a] == prev[a]);
                if b < prev.len() {
                    assert(src[b] == prev[b]);
                }
            }
            assert forall|j: int| 0 <= j < n && #[trigger] p(j) implies exists|k: int| 0 <= k < src.len() && src[k] == j by {
                if j < n - 1 {
                    let k = choose|k: int| 0 <= k < prev.len() && prev[k] == j;
                    assert(src[k] == j);
                } else {
                    assert(src[prev.len() as int] == j);
                }
            }
            assert forall|k: int| 0 <= k < src.len() implies #[trigger] c[k] == (if mask[src[k]] {
                closed_record(open[src[k]], time, details[src[k]])
            } else {
                open[src[k]]
            }) by {
                if k < prev.len() {
                    assert(c[k] == pk[k] && src[k] == prev[k]);
                }
            }
            src
        } else {
            assert forall|j: int| 0 <= j < n && #[trigger] p(j) implies exists|k: int| 0 <= k < prev.len() && prev[k] == j by {
                assert(j < n - 1);
            }
            prev
        }
    }
}

/// A settlement pass leaves open, in book order, exactly the positions that
/// are still open afterwards: the unmarked open ones unchanged, and (at time
/// zero only) the marked ones with their final detail.
pub proof fn lemma_settlement_keeps_unclosed_in_order<D>(
    open: Seq<PositionRecord<D>>,
    mask: Seq<bool>,
    details: Seq<D>,
    time: u64,
)
    requires
        mask.len() == open.len(),
        details.len() == open.len(),
    ensures
        exists|src: Seq<int>|
            {
                &&& lists_indices_where(
                    src,
                    open.len() as int,
                    |j: int| if mask[j] { time == 0 } else { open[j].close_time == 0 },
                )
                &&& #[trigger] kept_upto(open, mask, details, time, open.len() as int).len() == src.len()
                &&& forall|k: int|
                    #![trigger src[k]]
                    0 <= k < src.len() ==> {
                        let c = kept_upto(open, mask, details, time, open.len() as int)[k];
                        let o = open[src[k]];
                        &&& c.id == o.id
                        &&& c.open_time == o.open_time
                        &&& c.position_type == o.position_type
                        &&& (mask[src[k]] ==> c.close_time == time && c.detail == details[src[k]])
                        &&& (!mask[src[k]] ==> c == o)
                    }
            },
{
    let src = kept_witness(open, mask, details, time, open.len() as int);
    let c = kept_upto(open, mask, details, time, open.len() as int);
    assert forall|k: int| #![trigger src[k]] 0 <= k < src.len() implies {
        let o = open[src[k]];
        &&& c[k].id == o.id
        &&& c[k].open_time == o.open_time
        &&& c[k].position_type == o.position_type
        &&& (mask[src[k]] ==> c[k].close_time == time && c[k].detail == details[src[k]])
        &&& (!mask[src[k]] ==> c[k] == o)
    } by {
        assert(c[k] == (if mask[src[k]] {
            closed_record(open[src[k]], time, details[src[k]])
        } else {
            open[src[k]]
        }));
    }
}

/// A candle's tick budget is shared evenly between its three legs: each leg
/// gets the largest share that fits, so at most two ticks of the budget go
/// unused, and every layout of the candle holds `steps - steps % 3` ticks,
/// each of its leg with that share.
pub proof fn lemma_ticks_split_evenly(slots: Seq<crate::ticks::TickSlot>, start: u64, steps: int)
    requires
        0 <= steps <= usize::MAX,
        is_tick_layout(slots, start, steps),
        start + 3 * ticks_per_leg(steps) <= u64::MAX + 1,
    ensures
        3 * ticks_per_leg(steps) <= steps < 3 * ticks_per_leg(steps) + 3,
        slots.len() == steps - steps % 3,
        forall|k: int| 0 <= k < slots.len() ==> 3 * (#[trigger] slots[k]).leg_ticks <= steps < 3 * slots[k].leg_ticks + 3,
{
    lemma_tick_times_consecutive(slots, start, steps);
}

/// The date given to a timestamp is the UTC day it falls on: the timestamp
/// lies between that day's midnight and the next; two timestamps get the same
/// date text exactly when they lie on the same day; and one exactly a day
/// later gets the following day.
pub proof fn lemma_utc_dates_follow_days(t1: Seq<char>, s1: int, t2: Seq<char>, s2: int)
    requires
        is_utc_date_of(t1, s1),
        is_utc_date_of(t2, s2),
    ensures
        date_text_day(t1) * 86400 <= s1 < date_text_day(t1) * 86400 + 86400,
        t1 == t2 <==> utc_day(s1) == utc_day(s2),
        s2 == s1 + 86400 ==> date_text_day(t2) == date_text_day(t1) + 1,
        s1 <= s2 ==> date_text_day(t1) <= date_text_day(t2),
{
    if utc_day(s1) == utc_day(s2) {
        lemma_date_text_injective(t1, t2);
    }
    assert(date_text_day(t1) * 86400 <= s1 < date_text_day(t1) * 86400 + 86400) by (nonlinear_arith)
        requires
            date_text_day(t1) == s1 / 86400,
    ;
    assert(s2 == s1 + 86400 ==> s2 / 86400 == s1 / 86400 + 1) by (nonlinear_arith);
    assert(s1 <= s2 ==> s1 / 86400 <= s2 / 86400) by (nonlinear_arith);
}

/// A candle's date as the daily statistics see it is the date written in the
/// export line it came from: the `YYYY-MM-DD` date of the timestamp of a
/// `YYYY.MM.DD hh:mm:ss` text carries the same year, month and day digits.
pub proof fn lemma_export_date_round_trip(t: Seq<char>, d: Seq<char>)
    requires
        is_export_datetime(t),
        is_utc_date_of(d, export_datetime_seconds(t)),
    ensures
        forall|i: int| 0 <= i < 10 && i != 4 && i != 7 ==> d[i] == #[trigger] t[i],
{
    let day = days_from_civil(four_digits(t, 0), two_digits(t, 5), two_digits(t, 8));
    let c = two_digits(t, 11) * 3600 + two_digits(t, 14) * 60 + two_digits(t, 17);
    assert(0 <= two_digits(t, 11) && 0 <= two_digits(t, 14) && 0 <= two_digits(t, 17)) by {
        assert(is_digit(t[11]) && is_digit(t[12]) && is_digit(t[14]) && is_digit(t[15]));
        assert(is_digit(t[17]) && is_digit(t[18]));
    }
    assert(0 <= c < 86400);
    assert((day * 86400 + c) / 86400 == day) by (nonlinear_arith)
        requires
            0 <= c < 86400,
    ;
    let e = Seq::new(10, |i: int| if i == 4 || i == 7 { '-' } else { t[i] });
    assert forall|k: int| 0 <= k < 4 implies #[trigger] is_digit(e[k]) by {
        assert(is_digit(t[k]));
    }
    assert forall|k: int| 5 <= k < 7 implies #[trigger] is_digit(e[k]) by {
        assert(is_digit(t[k]));
    }
    assert forall|k: int| 8 <= k < 10 implies #[trigger] is_digit(e[k]) by {
        assert(is_digit(t[k]));
    }
    assert(four_digits(e, 0) == four_digits(t, 0));
    assert(two_digits(e, 5) == two_digits(t, 5));
    assert(two_digits(e, 8) == two_digits(t, 8));
    assert(is_date_text(e));
    lemma_date_text_injective(d, e);
}

/// Candles keep the export's clock: two candles read from lines whose date
/// and time are written `YYYY.MM.DD hh:mm:ss` (from 1970 on) open at the same
/// time only when those texts agree, and when the texts differ in the
/// minutes alone the opening times differ by 60 seconds per minute.
pub proof fn lemma_candle_times_follow_clock(line1: Seq<char>, k1: KLineText, line2: Seq<char>, k2: KLineText)
    requires
        keeps_export_clock(line1, k1),
        keeps_export_clock(line2, k2),
        split_on(line1, '\t').len() >= 2,
        split_on(line2, '\t').len() >= 2,
        is_export_datetime(kline_datetime_text(split_on(line1, '\t'))),
        is_export_datetime(kline_datetime_text(split_on(line2, '\t'))),
        export_datetime_seconds(kline_datetime_text(split_on(line1, '\t'))) >= 0,
        export_datetime_seconds(kline_datetime_text(split_on(line2, '\t'))) >= 0,
    ensures
        k1.time == k2.time <==> kline_datetime_text(split_on(line1, '\t')) == kline_datetime_text(split_on(line2, '\t')),
        (forall|i: int|
            0 <= i < 19 && i != 14 && i != 15 ==> #[trigger] kline_datetime_text(split_on(line1, '\t'))[i]
                == kline_datetime_text(split_on(line2, '\t'))[i])
            ==> k2.time - k1.time == 60 * (two_digits(kline_datetime_text(split_on(line2, '\t')), 14)
                - two_digits(kline_datetime_text(split_on(line1, '\t')), 14)),
{
    let t1 = kline_datetime_text(split_on(line1, '\t'));
    let t2 = kline_datetime_text(split_on(line2, '\t'));
    let x1 = export_datetime_seconds(t1);
    let x2 = export_datetime_seconds(t2);
    assert(x1 < 0x8000_0000_0000_0000 && x2 < 0x8000_0000_0000_0000);
    assert(k1.time == x1 && k2.time == x2);
    if k1.time == k2.time {
        lemma_export_clock_injective(t1, t2);
    }
    if forall|i: int| 0 <= i < 19 && i != 14 && i != 15 ==> #[trigger] t1[i] == t2[i] {
        lemma_export_clock_minutes(t1, t2);
    }
}

} // verus!
