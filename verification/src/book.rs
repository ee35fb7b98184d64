//! The position book: which positions are open, which are closed, and in
//! what order they were opened and closed.
//!
//! Each position carries a detail of a caller-chosen type `D` (prices, volume,
//! profit, symbol, comment).  The book never looks into a detail: it stores,
//! moves and clones it, and takes the detail of a closed position from the
//! caller, who computes it from market prices.
use vstd::prelude::*;
use crate::error::BrokerError;
use crate::positions::PositionsType;

verus! {

/// One position: identity and timing are kept by the book, `detail` belongs
/// to the caller.  A position is open while `close_time` is zero.
pub struct PositionRecord<D> {
    pub id: u64,
    pub open_time: u64,
    pub close_time: u64,
    pub position_type: PositionsType,
    pub detail: D,
}

/// `a` and `b` agree on id, open time, close time and direction.
pub open spec fn same_identity<D>(a: PositionRecord<D>, b: PositionRecord<D>) -> bool {
    &&& a.id == b.id
    &&& a.open_time == b.open_time
    &&& a.close_time == b.close_time
    &&& a.position_type == b.position_type
}

/// `b` is a copy of `a`: the same identity, and a clone of its detail.
pub open spec fn is_copy<D: Clone>(a: PositionRecord<D>, b: PositionRecord<D>) -> bool {
    same_identity(a, b) && cloned(a.detail, b.detail)
}

/// `t` is `s`, record by record, up to cloning of the details.
pub open spec fn copies<D: Clone>(s: Seq<PositionRecord<D>>, t: Seq<PositionRecord<D>>) -> bool {
    &&& s.len() == t.len()
    &&& forall|k: int| 0 <= k < s.len() ==> is_copy(s[k], #[trigger] t[k])
}

/// Every record of `s` is still open.
pub open spec fn all_unclosed<D>(s: Seq<PositionRecord<D>>) -> bool {
    forall|k: int| 0 <= k < s.len() ==> (#[trigger] s[k]).close_time == 0
}

/// The record `r` once closed at `time` with the final detail `d`.
pub open spec fn closed_record<D>(r: PositionRecord<D>, time: u64, d: D) -> PositionRecord<D> {
    PositionRecord {
        id: r.id,
        open_time: r.open_time,
        close_time: time,
        position_type: r.position_type,
        detail: d,
    }
}

/// The record that a new position starts as.
pub open spec fn opened_record<D>(
    id: u64,
    time: u64,
    position_type: PositionsType,
    detail: D,
) -> PositionRecord<D> {
    PositionRecord { id, open_time: time, close_time: 0, position_type, detail }
}

/// Position `i` after a settlement pass: closed at `time` with `details[i]`
/// where `mask[i]` holds, unchanged otherwise.
pub open spec fn settled_at<D>(
    open: Seq<PositionRecord<D>>,
    mask: Seq<bool>,
    details: Seq<D>,
    time: u64,
    i: int,
) -> PositionRecord<D> {
    if mask[i] {
        closed_record(open[i], time, details[i])
    } else {
        open[i]
    }
}

/// Of the first `n` positions after a settlement pass, those that are still
/// open, in their order.
pub open spec fn kept_upto<D>(
    open: Seq<PositionRecord<D>>,
    mask: Seq<bool>,
    details: Seq<D>,
    time: u64,
    n: int,
) -> Seq<PositionRecord<D>>
    decreases n,
{
    if n <= 0 {
        Seq::empty()
    } else {
        let prev = kept_upto(open, mask, details, time, n - 1);
        let u = settled_at(open, mask, details, time, n - 1);
        if u.close_time == 0 {
            prev.push(u)
        } else {
            prev
        }
    }
}

/// The book indices of the positions in `kept_upto(open, mask, details,
/// time, n)`, in order.
pub open spec fn kept_sources<D>(
    open: Seq<PositionRecord<D>>,
    mask: Seq<bool>,
    details: Seq<D>,
    time: u64,
    n: int,
) -> Seq<int>
    decreases n,
{
    if n <= 0 {
        Seq::empty()
    } else {
        let prev = kept_sources(open, mask, details, time, n - 1);
        if settled_at(open, mask, details, time, n - 1).close_time == 0 {
            prev.push(n - 1)
        } else {
            prev
        }
    }
}

/// The positions that a settlement pass left untouched stay in `kept` as
/// they were (moved, not cloned).
pub open spec fn keeps_untouched<D>(
    open: Seq<PositionRecord<D>>,
    mask: Seq<bool>,
    details: Seq<D>,
    time: u64,
    kept: Seq<PositionRecord<D>>,
) -> bool {
    let src = kept_sources(open, mask, details, time, mask.len() as int);
    &&& src.len() == kept.len()
    &&& forall|k: int| 0 <= k < kept.len() && !mask[src[k]] ==> #[trigger] kept[k] == open[src[k]]
}

/// Of the first `n` positions, those that the settlement pass closed, in
/// their order.
pub open spec fn closed_upto<D>(
    open: Seq<PositionRecord<D>>,
    mask: Seq<bool>,
    details: Seq<D>,
    time: u64,
    n: int,
) -> Seq<PositionRecord<D>>
    decreases n,
{
    if n <= 0 {
        Seq::empty()
    } else {
        let prev = closed_upto(open, mask, details, time, n - 1);
        if mask[n - 1] {
            prev.push(settled_at(open, mask, details, time, n - 1))
        } else {
            prev
        }
    }
}

/// The mask of a full liquidation: every position that is still open.
pub open spec fn unclosed_mask<D>(open: Seq<PositionRecord<D>>) -> Seq<bool> {
    Seq::new(open.len(), |i: int| open[i].close_time == 0)
}

/// Position `i` is open and carries `id`.
pub open spec fn is_open_with_id<D>(open: Seq<PositionRecord<D>>, id: u64, i: int) -> bool {
    0 <= i < open.len() && open[i].id == id && open[i].close_time == 0
}

/// Some open position carries `id`.
pub open spec fn has_open_id<D>(open: Seq<PositionRecord<D>>, id: u64) -> bool {
    exists|i: int| is_open_with_id(open, id, i)
}

/// `i` is the first open position that carries `id`.
pub open spec fn first_open_with_id<D>(open: Seq<PositionRecord<D>>, id: u64, i: int) -> bool {
    &&& is_open_with_id(open, id, i)
    &&& forall|j: int| 0 <= j < i ==> !is_open_with_id(open, id, j)
}

/// `k` is the newest position: nothing opened later, and every later
/// position in the book was opened strictly earlier.
pub open spec fn is_newest_index<D>(open: Seq<PositionRecord<D>>, k: int) -> bool {
    &&& 0 <= k < open.len()
    &&& forall|j: int| 0 <= j < open.len() ==> open[j].open_time <= open[k].open_time
    &&& forall|j: int| k < j < open.len() ==> open[j].open_time < open[k].open_time
}

/// Position `a` is listed before position `b` when newest come first and
/// positions opened at the same time keep their book order.
pub open spec fn listed_before<D>(open: Seq<PositionRecord<D>>, a: int, b: int) -> bool {
    ||| open[a].open_time > open[b].open_time
    ||| (open[a].open_time == open[b].open_time && a < b)
}

/// `order` lists every position index once, newest first, ties in book
/// order.
pub open spec fn is_newest_first_order<D>(open: Seq<PositionRecord<D>>, order: Seq<usize>) -> bool {
    &&& order.len() == open.len()
    &&& forall|a: int| 0 <= a < order.len() ==> #[trigger] order[a] < open.len()
    &&& forall|a: int, b: int|
        0 <= a < b < order.len() ==> listed_before(open, #[trigger] order[a] as int, #[trigger] order[b] as int)
}

impl<D: Clone> PositionRecord<D> {
    /// A copy of this record, cloning its detail.
    pub fn duplicate(&self) -> (r: Self)
        ensures
            is_copy(*self, r),
    {
        PositionRecord {
            id: self.id,
            open_time: self.open_time,
            close_time: self.close_time,
            position_type: self.position_type,
            detail: self.detail.clone(),
        }
    }
}

/// Open positions in the order they were opened, and the history of closed
/// positions in the order they were closed.
pub struct PositionBook<D> {
    positions: Vec<PositionRecord<D>>,
    history: Vec<PositionRecord<D>>,
}

impl<D> PositionBook<D> {
    /// The open positions.
    pub closed spec fn open_view(self) -> Seq<PositionRecord<D>> {
        self.positions@
    }

    /// The closed positions.
    pub closed spec fn history_view(self) -> Seq<PositionRecord<D>> {
        self.history@
    }

    #[verifier::type_invariant]
    spec fn book_inv(self) -> bool {
        all_unclosed(self.positions@)
    }

    /// An empty book.
    pub fn new() -> (book: Self)
        ensures
            book.open_view() == Seq::<PositionRecord<D>>::empty(),
            book.history_view() == Seq::<PositionRecord<D>>::empty(),
    {
        PositionBook { positions: Vec::new(), history: Vec::new() }
    }

    /// The open positions, oldest first.
    pub fn positions(&self) -> (r: &Vec<PositionRecord<D>>)
        ensures
            r@ == self.open_view(),
            all_unclosed(r@),
    {
        proof {
            use_type_invariant(self);
        }
        &self.positions
    }

    /// The closed positions, in the order they were closed.
    pub fn history(&self) -> (r: &Vec<PositionRecord<D>>)
        ensures
            r@ == self.history_view(),
    {
        &self.history
    }

    /// The number of open positions.
    pub fn position_num(&self) -> (n: usize)
        ensures
            n == self.open_view().len(),
    {
        self.positions.len()
    }

    /// Records a new open position at the end of the book.
    pub fn open_position(&mut self, id: u64, time: u64, position_type: PositionsType, detail: D)
        ensures
            final(self).open_view() == old(self).open_view().push(
                opened_record(id, time, position_type, detail),
            ),
            final(self).history_view() == old(self).history_view(),
            all_unclosed(final(self).open_view()),
    {
        proof {
            use_type_invariant(&*self);
        }
        let rec = PositionRecord { id, open_time: time, close_time: 0, position_type, detail };
        let mut positions = Vec::new();
        std::mem::swap(&mut positions, &mut self.positions);
        positions.push(rec);
        self.positions = positions;
    }

    /// The index of the first open position that carries `id`.
    pub fn find_open(&self, id: u64) -> (r: Option<usize>)
        ensures
            r is None <==> !has_open_id(self.open_view(), id),
            r matches Some(i) ==> first_open_with_id(self.open_view(), id, i as int),
    {
        let n = self.positions.len();
        let mut i: usize = 0;
        while i < n
            invariant
                n == self.positions@.len(),
                i <= n,
                forall|j: int| 0 <= j < i ==> !is_open_with_id(self.positions@, id, j),
            decreases n - i,
        {
            if self.positions[i].id == id && self.positions[i].close_time == 0 {
                assert(is_open_with_id(self.positions@, id, i as int));
                return Some(i);
            }
            i = i + 1;
        }
        None
    }

    /// The index of the newest open position (the last one among those opened
    /// latest).
    pub fn newest_index(&self) -> (r: Option<usize>)
        ensures
            r is None <==> self.open_view().len() == 0,
            r matches Some(k) ==> is_newest_index(self.open_view(), k as int),
    {
        let n = self.positions.len();
        if n == 0 {
            return None;
        }
        let mut best: usize = 0;
        let mut i: usize = 1;
        while i < n
            invariant
                n == self.positions@.len(),
                1 <= i <= n,
                best < i,
                forall|j: int| 0 <= j < i ==> self.positions@[j].open_time <= self.positions@[best as int].open_time,
                forall|j: int| best < j < i ==> self.positions@[j].open_time < self.positions@[best as int].open_time,
            decreases n - i,
        {
            if self.positions[i].open_time >= self.positions[best].open_time {
                best = i;
            }
            i = i + 1;
        }
        Some(best)
    }

    /// The indices of the open positions, newest first; positions opened at
    /// the same time keep their book order.
    pub fn newest_first_order(&self) -> (order: Vec<usize>)
        ensures
            is_newest_first_order(self.open_view(), order@),
    {
        let n = self.positions.len();
        let ghost open = self.positions@;
        let mut order: Vec<usize> = Vec::new();
        let mut i: usize = 0;
        while i < n
            invariant
                n == open.len(),
                open == self.positions@,
                i <= n,
                order@.len() == i,
                forall|a: int| 0 <= a < order@.len() ==> #[trigger] order@[a] < i,
                forall|a: int, b: int|
                    0 <= a < b < order@.len() ==> listed_before(open, #[trigger] order@[a] as int, #[trigger] order@[b] as int),
            decreases n - i,
        {
            let t = self.positions[i].open_time;
            let mut p: usize = 0;
            while p < order.len() && self.positions[order[p]].open_time >= t
                invariant
                    n == open.len(),
                    open == self.positions@,
                    i < n,
                    t == open[i as int].open_time,
                    p <= order@.len(),
                    order@.len() == i,
                    forall|a: int| 0 <= a < order@.len() ==> #[trigger] order@[a] < i,
                    forall|q: int| 0 <= q < p ==> open[order@[q] as int].open_time >= t,
                decreases order@.len() - p,
            {
                p = p + 1;
            }
            let ghost prev = order@;
            order.insert(p, i);
            proof {
                assert(order@ == prev.insert(p as int, i));
                assert forall|a: int| 0 <= a < order@.len() implies #[trigger] order@[a] < i + 1 by {
                    if a < p {
                        assert(order@[a] == prev[a]);
                    } else if a > p {
                        assert(order@[a] == prev[a - 1]);
                    }
                }
                assert forall|a: int, b: int|
                    0 <= a < b < order@.len() implies listed_before(open, #[trigger] order@[a] as int, #[trigger] order@[b] as int) by {
                    if b < p {
                        assert(order@[a] == prev[a] && order@[b] == prev[b]);
                    } else if b == p {
                        assert(order@[a] == prev[a]);
                        assert(prev[a] < i);
                    } else if a > p {
                        assert(order@[a] == prev[a - 1] && order@[b] == prev[b - 1]);
                    } else if a == p {
                        assert(order@[b] == prev[b - 1]);
                        assert(prev[b - 1] < i);
                        // prev[p] was the first listed position opened strictly before t
                        assert(p < prev.len());
                        assert(open[prev[p as int] as int].open_time < t);
                        if b - 1 > p {
                            assert(listed_before(open, prev[p as int] as int, prev[b - 1] as int));
                        }
                    } else {
                        assert(order@[a] == prev[a] && order@[b] == prev[b - 1]);
                    }
                }
            }
            i = i + 1;
        }
        order
    }

    /// Shared settlement pass: every position whose `mask` entry holds is
    /// closed at `time` with the matching entry of `details`, then the
    /// positions that are no longer open leave the book and the closed ones
    /// are appended to the history.  Returns how many were closed.
    fn settle(&mut self, time: u64, mask: &Vec<bool>, details: &Vec<D>) -> (count: usize)
        where
            D: Clone,
        requires
            mask@.len() == old(self).open_view().len(),
            details@.len() == old(self).open_view().len(),
        ensures
            copies(
                kept_upto(old(self).open_view(), mask@, details@, time, mask@.len() as int),
                final(self).open_view(),
            ),
            keeps_untouched(old(self).open_view(), mask@, details@, time, final(self).open_view()),
            final(self).history_view().len() == old(self).history_view().len() + count,
            final(self).history_view().subrange(0, old(self).history_view().len() as int)
                == old(self).history_view(),
            copies(
                closed_upto(old(self).open_view(), mask@, details@, time, mask@.len() as int),
                final(self).history_view().subrange(
                    old(self).history_view().len() as int,
                    final(self).history_view().len() as int,
                ),
            ),
            all_unclosed(final(self).open_view()),
    {
        proof {
            use_type_invariant(&*self);
        }
        let ghost open = self.positions@;
        let ghost old_history = self.history@;
        let n = self.positions.len();
        let mut current: Vec<PositionRecord<D>> = Vec::new();
        std::mem::swap(&mut current, &mut self.positions);
        let mut kept: Vec<PositionRecord<D>> = Vec::new();
        let mut closed: Vec<PositionRecord<D>> = Vec::new();
        let mut i: usize = 0;
        for rec in it: current.into_iter()
            invariant
                n == open.len(),
                mask@.len() == n,
                details@.len() == n,
                it.seq() == open,
                i == it.index(),
                i <= n,
                self.positions@ == Seq::<PositionRecord<D>>::empty(),
                self.history@ == old_history,
                copies(kept_upto(open, mask@, details@, time, i as int), kept@),
                kept_sources(open, mask@, details@, time, i as int).len() == kept@.len(),
                forall|k: int|
                    0 <= k < kept@.len() && !mask@[kept_sources(open, mask@, details@, time, i as int)[k]]
                        ==> #[trigger] kept@[k] == open[kept_sources(open, mask@, details@, time, i as int)[k]],
                forall|k: int|
                    0 <= k < kept@.len() ==> 0 <= #[trigger] kept_sources(open, mask@, details@, time, i as int)[k] < i,
                copies(closed_upto(open, mask@, details@, time, i as int), closed@),
                all_unclosed(kept@),
                all_unclosed(open),
        {
            let ghost k0 = kept@;
            let ghost c0 = closed@;
            if mask[i] {
                let u = PositionRecord {
                    id: rec.id,
                    open_time: rec.open_time,
                    close_time: time,
                    position_type: rec.position_type,
                    detail: details[i].clone(),
                };
                let c = PositionRecord {
                    id: rec.id,
                    open_time: rec.open_time,
                    close_time: time,
                    position_type: rec.position_type,
                    detail: details[i].clone(),
                };
                if u.close_time == 0 {
                    kept.push(u);
                }
                closed.push(c);
            } else {
                if rec.close_time == 0 {
                    kept.push(rec);
                }
            }
            proof {
                let ku = kept_upto(open, mask@, details@, time, i as int);
                let cu = closed_upto(open, mask@, details@, time, i as int);
                let su = kept_sources(open, mask@, details@, time, i as int);
                assert(kept_sources(open, mask@, details@, time, i + 1) == (if settled_at(open, mask@, details@, time, i as int).close_time == 0 {
                    su.push(i as int)
                } else {
                    su
                }));
                let s1 = kept_sources(open, mask@, details@, time, i + 1);
                assert forall|k: int|
                    0 <= k < kept@.len() && !mask@[s1[k]] implies #[trigger] kept@[k] == open[s1[k]] by {
                    if k < k0.len() {
                        assert(kept@[k] == k0[k]);
                        assert(s1[k] == su[k]);
                    }
                }
                assert forall|k: int| 0 <= k < kept@.len() implies 0 <= #[trigger] s1[k] < i + 1 by {
                    if k < k0.len() {
                        assert(s1[k] == su[k]);
                    }
                }
                assert(kept_upto(open, mask@, details@, time, i + 1) == (if settled_at(open, mask@, details@, time, i as int).close_time == 0 {
                    ku.push(settled_at(open, mask@, details@, time, i as int))
                } else {
                    ku
                }));
                assert(closed_upto(open, mask@, details@, time, i + 1) == (if mask@[i as int] {
                    cu.push(settled_at(open, mask@, details@, time, i as int))
                } else {
                    cu
                }));
                assert forall|k: int| 0 <= k < kept@.len() implies (#[trigger] kept@[k]).close_time == 0 by {
                    if k < k0.len() {
                        assert(kept@[k] == k0[k]);
                    }
                }
            }
            i = i + 1;
        }
        let count = closed.len();
        self.positions = kept;
        let mut history = Vec::new();
        std::mem::swap(&mut history, &mut self.history);
        history.append(&mut closed);
        self.history = history;
        proof {
            assert(self.history@.subrange(0, old_history.len() as int) =~= old_history);
        }
        count
    }

    /// Automatic closing: every position whose `mask` entry holds (its stop
    /// loss or take profit was reached) is closed at `time` with the matching
    /// entry of `details`.  Positions that are no longer open leave the book,
    /// and the closed ones are appended to the history in book order.
    /// Returns how many positions were closed.
    pub fn close_where(&mut self, time: u64, mask: &Vec<bool>, details: &Vec<D>) -> (count: usize)
        where
            D: Clone,
        requires
            mask@.len() == old(self).open_view().len(),
            details@.len() == old(self).open_view().len(),
        ensures
            copies(
                kept_upto(old(self).open_view(), mask@, details@, time, mask@.len() as int),
                final(self).open_view(),
            ),
            keeps_untouched(old(self).open_view(), mask@, details@, time, final(self).open_view()),
            final(self).history_view().len() == old(self).history_view().len() + count,
            final(self).history_view().subrange(0, old(self).history_view().len() as int)
                == old(self).history_view(),
            copies(
                closed_upto(old(self).open_view(), mask@, details@, time, mask@.len() as int),
                final(self).history_view().subrange(
                    old(self).history_view().len() as int,
                    final(self).history_view().len() as int,
                ),
            ),
            all_unclosed(final(self).open_view()),
    {
        self.settle(time, mask, details)
    }

    /// Closes every open position at `time`; `details[i]` is the final
    /// detail of position `i`.  Positions that are no longer open leave the
    /// book and the closed ones are appended to the history in book order.
    /// Returns how many positions were closed.
    pub fn close_all(&mut self, time: u64, details: &Vec<D>) -> (count: usize)
        where
            D: Clone,
        requires
            details@.len() == old(self).open_view().len(),
        ensures
            copies(
                kept_upto(
                    old(self).open_view(),
                    unclosed_mask(old(self).open_view()),
                    details@,
                    time,
                    old(self).open_view().len() as int,
                ),
                final(self).open_view(),
            ),
            keeps_untouched(
                old(self).open_view(),
                unclosed_mask(old(self).open_view()),
                details@,
                time,
                final(self).open_view(),
            ),
            final(self).history_view().len() == old(self).history_view().len() + count,
            final(self).history_view().subrange(0, old(self).history_view().len() as int)
                == old(self).history_view(),
            copies(
                closed_upto(
                    old(self).open_view(),
                    unclosed_mask(old(self).open_view()),
                    details@,
                    time,
                    old(self).open_view().len() as int,
                ),
                final(self).history_view().subrange(
                    old(self).history_view().len() as int,
                    final(self).history_view().len() as int,
                ),
            ),
            all_unclosed(final(self).open_view()),
    {
        let n = self.positions.len();
        let mut mask: Vec<bool> = Vec::new();
        let mut i: usize = 0;
        while i < n
            invariant
                n == self.positions@.len(),
                i <= n,
                mask@.len() == i,
                forall|j: int| 0 <= j < i ==> mask@[j] == (self.positions@[j].close_time == 0),
            decreases n - i,
        {
            mask.push(self.positions[i].close_time == 0);
            i = i + 1;
        }
        proof {
            assert(mask@ =~= unclosed_mask(self.positions@));
        }
        self.settle(time, &mask, details)
    }

    /// Closes the first open position that carries `id` at `time`; its final
    /// detail is what `settle` computes from it.  The position leaves the book
    /// and is appended to the history.  Fails, leaving the book unchanged,
    /// when no open position carries `id`.
    pub fn close_position<F>(&mut self, id: u64, time: u64, settle: F) -> (r: Result<(), BrokerError>)
        where
            F: FnOnce(&PositionRecord<D>) -> D,
        requires
            forall|p: &PositionRecord<D>| #[trigger] settle.requires((p,)),
        ensures
            r is Err <==> !has_open_id(old(self).open_view(), id),
            r matches Err(e) ==> {
                &&& e == BrokerError::PositionNotFound
                &&& final(self).open_view() == old(self).open_view()
                &&& final(self).history_view() == old(self).history_view()
            },
            r is Ok ==> exists|i: int, d: D|
                {
                    &&& first_open_with_id(old(self).open_view(), id, i)
                    &&& settle.ensures((&old(self).open_view()[i],), d)
                    &&& final(self).open_view() == old(self).open_view().remove(i)
                    &&& final(self).history_view() == old(self).history_view().push(
                        closed_record(old(self).open_view()[i], time, d),
                    )
                },
            all_unclosed(final(self).open_view()),
    {
        proof {
            use_type_invariant(&*self);
        }
        match self.find_open(id) {
            None => Err(BrokerError::PositionNotFound),
            Some(i) => {
                let ghost open = self.positions@;
                let ghost old_history = self.history@;
                let d = settle(&self.positions[i]);
                let ghost dg = d;
                let mut positions = Vec::new();
                std::mem::swap(&mut positions, &mut self.positions);
                let rec = positions.remove(i);
                proof {
                    assert forall|k: int| 0 <= k < positions@.len() implies (#[trigger] positions@[k]).close_time == 0 by {
                        if k < i {
                            assert(positions@[k] == open[k]);
                        } else {
                            assert(positions@[k] == open[k + 1]);
                        }
                    }
                }
                self.positions = positions;
                let closed = PositionRecord {
                    id: rec.id,
                    open_time: rec.open_time,
                    close_time: time,
                    position_type: rec.position_type,
                    detail: d,
                };
                let mut history = Vec::new();
                std::mem::swap(&mut history, &mut self.history);
                history.push(closed);
                self.history = history;
                proof {
                    assert(first_open_with_id(open, id, i as int));
                    assert(self.positions@ == open.remove(i as int));
                    assert(self.history@ == old_history.push(closed_record(open[i as int], time, dg)));
                }
                Ok(())
            }
        }
    }

    /// The newest open position (the last one among those opened latest),
    /// copied; `None` when no position is open.
    pub fn last_position(&self) -> (r: Option<PositionRecord<D>>)
        where
            D: Clone,
        ensures
            r is None <==> self.open_view().len() == 0,
            r matches Some(p) ==> exists|k: int|
                is_newest_index(self.open_view(), k) && is_copy(#[trigger] self.open_view()[k], p),
    {
        match self.newest_index() {
            None => None,
            Some(k) => Some(self.positions[k].duplicate()),
        }
    }

    /// Copies of the open positions, newest first, positions opened at the
    /// same time in book order; `None` when no position is open.
    pub fn positions_newest_first(&self) -> (r: Option<Vec<PositionRecord<D>>>)
        where
            D: Clone,
        ensures
            r is None <==> self.open_view().len() == 0,
            r matches Some(v) ==> exists|order: Seq<usize>|
                {
                    &&& is_newest_first_order(self.open_view(), order)
                    &&& v@.len() == order.len()
                    &&& forall|k: int|
                        0 <= k < order.len() ==> is_copy(
                            self.open_view()[#[trigger] order[k] as int],
                            v@[k],
                        )
                },
    {
        if self.positions.len() == 0 {
            return None;
        }
        let order = self.newest_first_order();
        let mut sorted: Vec<PositionRecord<D>> = Vec::new();
        let mut k: usize = 0;
        while k < order.len()
            invariant
                is_newest_first_order(self.open_view(), order@),
                self.open_view() == self.positions@,
                k <= order@.len(),
                sorted@.len() == k,
                forall|j: int|
                    0 <= j < k ==> is_copy(self.open_view()[#[trigger] order@[j] as int], sorted@[j]),
            decreases order@.len() - k,
        {
            sorted.push(self.positions[order[k]].duplicate());
            k = k + 1;
        }
        Some(sorted)
    }
}

} // verus!
