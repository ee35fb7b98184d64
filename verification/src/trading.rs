//! The broker's order book: the position book together with the registry
//! that hands out order ids.  Keeping both in one value lets the library
//! keep, across every operation, that each id in the book was handed out by
//! the registry and that no two open positions share an id; so a newly
//! opened position never carries the id of any position in the book, open or
//! closed.
use vstd::prelude::*;
use crate::book::{
    PositionBook, PositionRecord, all_unclosed, closed_record, closed_upto, copies,
    first_open_with_id, has_open_id, keeps_untouched, kept_sources, kept_upto, opened_record,
    settled_at, unclosed_mask,
};
use crate::error::BrokerError;
use crate::ids::{IdRegistry, is_valid_id};
use crate::positions::PositionsType;

verus! {

/// Every id in the book was handed out by the registry.
pub open spec fn ids_registered<D>(
    open: Seq<PositionRecord<D>>,
    history: Seq<PositionRecord<D>>,
    issued: Set<u64>,
) -> bool {
    &&& forall|k: int| 0 <= k < open.len() ==> issued.contains(#[trigger] open[k].id)
    &&& forall|k: int| 0 <= k < history.len() ==> issued.contains(#[trigger] history[k].id)
}

/// No two open positions carry the same id.
pub open spec fn open_ids_distinct<D>(open: Seq<PositionRecord<D>>) -> bool {
    forall|a: int, b: int| 0 <= a < b < open.len() ==> #[trigger] open[a].id != #[trigger] open[b].id
}

/// The positions left open by a settlement pass come from the book in
/// order, each with its own id.
proof fn lemma_kept_from_open<D>(
    open: Seq<PositionRecord<D>>,
    mask: Seq<bool>,
    details: Seq<D>,
    time: u64,
    n: int,
)
    requires
        0 <= n <= open.len(),
        n <= mask.len(),
        n <= details.len(),
    ensures
        kept_sources(open, mask, details, time, n).len() == kept_upto(open, mask, details, time, n).len(),
        forall|k: int|
            0 <= k < kept_upto(open, mask, details, time, n).len() ==> {
                &&& 0 <= #[trigger] kept_sources(open, mask, details, time, n)[k] < n
                &&& kept_upto(open, mask, details, time, n)[k].id
                    == open[kept_sources(open, mask, details, time, n)[k]].id
            },
        forall|a: int, b: int|
            0 <= a < b < kept_sources(open, mask, details, time, n).len() ==> #[trigger] kept_sources(
                open,
                mask,
                details,
                time,
                n,
            )[a] < #[trigger] kept_sources(open, mask, details, time, n)[b],
    decreases n,
{
    if n > 0 {
        lemma_kept_from_open(open, mask, details, time, n - 1);
        let ps = kept_sources(open, mask, details, time, n - 1);
        let pk = kept_upto(open, mask, details, time, n - 1);
        let s = kept_sources(open, mask, details, time, n);
        let k = kept_upto(open, mask, details, time, n);
        assert forall|j: int| 0 <= j < k.len() implies 0 <= #[trigger] s[j] < n && k[j].id == open[s[j]].id by {
            if j < pk.len() {
                assert(s[j] == ps[j] && k[j] == pk[j]);
            }
        }
        assert forall|a: int, b: int| 0 <= a < b < s.len() implies #[trigger] s[a] < #[trigger] s[b] by {
            if b < ps.len() {
                assert(s[a] == ps[a] && s[b] == ps[b]);
            } else {
                assert(s[a] == ps[a]);
            }
        }
    }
}

/// The positions closed by a settlement pass carry ids of the book.
proof fn lemma_closed_from_open<D>(
    open: Seq<PositionRecord<D>>,
    mask: Seq<bool>,
    details: Seq<D>,
    time: u64,
    n: int,
)
    requires
        0 <= n <= open.len(),
        n <= mask.len(),
        n <= details.len(),
    ensures
        forall|k: int|
            0 <= k < closed_upto(open, mask, details, time, n).len() ==> exists|i: int|
                0 <= i < n && #[trigger] closed_upto(open, mask, details, time, n)[k].id == open[i].id,
    decreases n,
{
    if n > 0 {
        lemma_closed_from_open(open, mask, details, time, n - 1);
        let pc = closed_upto(open, mask, details, time, n - 1);
        let c = closed_upto(open, mask, details, time, n);
        assert forall|k: int| 0 <= k < c.len() implies exists|i: int| 0 <= i < n && #[trigger] c[k].id == open[i].id by {
            if k < pc.len() {
                assert(c[k] == pc[k]);
                let i = choose|i: int| 0 <= i < n - 1 && pc[k].id == open[i].id;
                assert(0 <= i < n && c[k].id == open[i].id);
            } else {
                assert(c[k] == settled_at(open, mask, details, time, n - 1));
                assert(c[k].id == open[n - 1].id);
            }
        }
    }
}

/// After a settlement pass the ids stay registered and the open ids stay
/// distinct.
proof fn lemma_settle_keeps_ids<D: Clone>(
    open: Seq<PositionRecord<D>>,
    history: Seq<PositionRecord<D>>,
    issued: Set<u64>,
    mask: Seq<bool>,
    details: Seq<D>,
    time: u64,
    new_open: Seq<PositionRecord<D>>,
    new_history: Seq<PositionRecord<D>>,
)
    requires
        ids_registered(open, history, issued),
        open_ids_distinct(open),
        mask.len() == open.len(),
        details.len() == open.len(),
        copies(kept_upto(open, mask, details, time, open.len() as int), new_open),
        new_history.subrange(0, history.len() as int) == history,
        new_history.len() >= history.len(),
        copies(
            closed_upto(open, mask, details, time, open.len() as int),
            new_history.subrange(history.len() as int, new_history.len() as int),
        ),
    ensures
        ids_registered(new_open, new_history, issued),
        open_ids_distinct(new_open),
{
    let n = open.len() as int;
    lemma_kept_from_open(open, mask, details, time, n);
    lemma_closed_from_open(open, mask, details, time, n);
    let kept = kept_upto(open, mask, details, time, n);
    let src = kept_sources(open, mask, details, time, n);
    let closed = closed_upto(open, mask, details, time, n);
    let tail = new_history.subrange(history.len() as int, new_history.len() as int);
    assert forall|k: int| 0 <= k < new_open.len() implies issued.contains(#[trigger] new_open[k].id) by {
        assert(new_open[k].id == kept[k].id);
        assert(0 <= src[k] < n);
        assert(issued.contains(open[src[k]].id));
    }
    assert forall|k: int| 0 <= k < new_history.len() implies issued.contains(#[trigger] new_history[k].id) by {
        if k < history.len() {
            assert(new_history[k] == history[k]);
        } else {
            let j = k - history.len();
            assert(tail[j] == new_history[k]);
            assert(tail[j].id == closed[j].id);
            let i = choose|i: int| 0 <= i < n && closed[j].id == open[i].id;
            assert(issued.contains(open[i].id));
        }
    }
    assert forall|a: int, b: int| 0 <= a < b < new_open.len() implies #[trigger] new_open[a].id != #[trigger] new_open[b].id by {
        assert(new_open[a].id == kept[a].id && new_open[b].id == kept[b].id);
        assert(src[a] < src[b]);
        assert(0 <= src[a] && src[b] < n);
    }
}

/// The position book and the id registry of one broker.
pub struct TradeBook<D> {
    book: PositionBook<D>,
    ids: IdRegistry,
}

impl<D> TradeBook<D> {
    /// The open positions.
    pub closed spec fn open_view(self) -> Seq<PositionRecord<D>> {
        self.book.open_view()
    }

    /// The closed positions.
    pub closed spec fn history_view(self) -> Seq<PositionRecord<D>> {
        self.book.history_view()
    }

    /// The ids handed out so far.
    pub closed spec fn issued_view(self) -> Set<u64> {
        self.ids.issued_view()
    }

    #[verifier::type_invariant]
    spec fn trade_inv(self) -> bool {
        &&& ids_registered(self.book.open_view(), self.book.history_view(), self.ids.issued_view())
        &&& open_ids_distinct(self.book.open_view())
    }

    /// An empty book whose registry has handed out nothing.
    pub fn new() -> (t: Self)
        ensures
            t.open_view() == Seq::<PositionRecord<D>>::empty(),
            t.history_view() == Seq::<PositionRecord<D>>::empty(),
            t.issued_view() == Set::<u64>::empty(),
    {
        TradeBook { book: PositionBook::new(), ids: IdRegistry::new() }
    }

    /// The position book, to read.
    pub fn book(&self) -> (b: &PositionBook<D>)
        ensures
            b.open_view() == self.open_view(),
            b.history_view() == self.history_view(),
            ids_registered(self.open_view(), self.history_view(), self.issued_view()),
            open_ids_distinct(self.open_view()),
    {
        proof {
            use_type_invariant(self);
        }
        &self.book
    }

    /// Opens a position at `time` under a new order id, which it returns.
    /// The id was never handed out before, so no position of the book, open
    /// or closed, carries it.  `None`, changing nothing, exactly when every
    /// valid id is used up.
    pub fn open_position(&mut self, time: u64, position_type: PositionsType, detail: D) -> (r: Option<u64>)
        ensures
            r is None <==> forall|x: u64| is_valid_id(x) ==> old(self).issued_view().contains(x),
            r is None ==> {
                &&& final(self).open_view() == old(self).open_view()
                &&& final(self).history_view() == old(self).history_view()
                &&& final(self).issued_view() == old(self).issued_view()
            },
            r matches Some(id) ==> {
                &&& is_valid_id(id)
                &&& !old(self).issued_view().contains(id)
                &&& final(self).issued_view() == old(self).issued_view().insert(id)
                &&& final(self).open_view() == old(self).open_view().push(
                    opened_record(id, time, position_type, detail),
                )
                &&& final(self).history_view() == old(self).history_view()
                &&& forall|k: int| 0 <= k < old(self).open_view().len() ==> (#[trigger] old(self).open_view()[k]).id != id
                &&& forall|k: int| 0 <= k < old(self).history_view().len() ==> (#[trigger] old(self).history_view()[k]).id != id
                &&& !has_open_id(old(self).open_view(), id)
            },
            ids_registered(final(self).open_view(), final(self).history_view(), final(self).issued_view()),
            open_ids_distinct(final(self).open_view()),
    {
        proof {
            use_type_invariant(&*self);
        }
        let mut book = PositionBook::new();
        let mut ids = IdRegistry::new();
        std::mem::swap(&mut book, &mut self.book);
        std::mem::swap(&mut ids, &mut self.ids);
        let ghost open = book.open_view();
        let ghost history = book.history_view();
        let ghost issued = ids.issued_view();
        let r = ids.generate_unique_id();
        match r {
            Some(id) => {
                book.open_position(id, time, position_type, detail);
                proof {
                    assert forall|k: int| 0 <= k < open.len() implies (#[trigger] open[k]).id != id by {
                        assert(issued.contains(open[k].id));
                    }
                    assert forall|k: int| 0 <= k < history.len() implies (#[trigger] history[k]).id != id by {
                        assert(issued.contains(history[k].id));
                    }
                    let after = book.open_view();
                    assert(after == open.push(opened_record(id, time, position_type, detail)));
                    assert forall|a: int, b: int| 0 <= a < b < after.len() implies #[trigger] after[a].id != #[trigger] after[b].id by {
                        if b == open.len() {
                            assert(after[a] == open[a]);
                        } else {
                            assert(after[a] == open[a] && after[b] == open[b]);
                        }
                    }
                    assert forall|k: int| 0 <= k < after.len() implies ids.issued_view().contains(#[trigger] after[k].id) by {
                        if k < open.len() {
                            assert(after[k] == open[k]);
                        }
                    }
                    assert forall|k: int| 0 <= k < history.len() implies ids.issued_view().contains(#[trigger] history[k].id) by {
                        assert(issued.contains(history[k].id));
                    }
                }
            },
            None => {},
        }
        self.ids = ids;
        self.book = book;
        r
    }

    /// Closes the first open position that carries `id` at `time`, as
    /// `PositionBook::close_position` does; the registry is unchanged.
    pub fn close_position<F>(&mut self, id: u64, time: u64, settle: F) -> (r: Result<(), BrokerError>)
        where
            F: FnOnce(&PositionRecord<D>) -> D,
        requires
            forall|p: &PositionRecord<D>| #[trigger] settle.requires((p,)),
        ensures
            r is Err <==> !has_open_id(old(self).open_view(), id),
            r matches Err(e) ==> {
                &&& e == BrokerError::PositionNotFound
                &&& final(self).open_view() == old(self).open_view()
                &&& final(self).history_view() == old(self).history_view()
            },
            r is Ok ==> exists|i: int, d: D|
                {
                    &&& first_open_with_id(old(self).open_view(), id, i)
                    &&& settle.ensures((&old(self).open_view()[i],), d)
                    &&& final(self).open_view() == old(self).open_view().remove(i)
                    &&& final(self).history_view() == old(self).history_view().push(
                        closed_record(old(self).open_view()[i], time, d),
                    )
                },
            final(self).issued_view() == old(self).issued_view(),
            all_unclosed(final(self).open_view()),
            ids_registered(final(self).open_view(), final(self).history_view(), final(self).issued_view()),
            open_ids_distinct(final(self).open_view()),
    {
        proof {
            use_type_invariant(&*self);
        }
        let mut book = PositionBook::new();
        std::mem::swap(&mut book, &mut self.book);
        let ghost open = book.open_view();
        let ghost history = book.history_view();
        let ghost issued = self.ids.issued_view();
        let r = book.close_position(id, time, settle);
        proof {
            if r is Ok {
                let (i, d) = choose|i: int, d: D|
                    {
                        &&& first_open_with_id(open, id, i)
                        &&& settle.ensures((&open[i],), d)
                        &&& book.open_view() == open.remove(i)
                        &&& book.history_view() == history.push(closed_record(open[i], time, d))
                    };
                let no = book.open_view();
                let nh = book.history_view();
                assert forall|k: int| 0 <= k < no.len() implies issued.contains(#[trigger] no[k].id) by {
                    if k < i {
                        assert(no[k] == open[k]);
                    } else {
                        assert(no[k] == open[k + 1]);
                    }
                }
                assert forall|k: int| 0 <= k < nh.len() implies issued.contains(#[trigger] nh[k].id) by {
                    if k < history.len() {
                        assert(nh[k] == history[k]);
                    } else {
                        assert(nh[k].id == open[i].id);
                    }
                }
                assert forall|a: int, b: int| 0 <= a < b < no.len() implies #[trigger] no[a].id != #[trigger] no[b].id by {
                    let a0 = if a < i { a } else { a + 1 };
                    let b0 = if b < i { b } else { b + 1 };
                    assert(no[a] == open[a0] && no[b] == open[b0]);
                }
            }
        }
        self.book = book;
        proof {
            if r is Ok {
                let (i, d) = choose|i: int, d: D|
                    {
                        &&& first_open_with_id(open, id, i)
                        &&& settle.ensures((&open[i],), d)
                        &&& self.book.open_view() == open.remove(i)
                        &&& self.book.history_view() == history.push(closed_record(open[i], time, d))
                    };
                assert(old(self).open_view() == open);
                assert(old(self).history_view() == history);
                assert(self.open_view() == old(self).open_view().remove(i));
                assert(self.history_view() == old(self).history_view().push(closed_record(old(self).open_view()[i], time, d)));
            }
        }
        r
    }

    /// Closes the positions whose `mask` entry holds, as
    /// `PositionBook::close_where` does; the registry is unchanged.  Returns
    /// how many positions were closed.
    pub fn close_where(&mut self, time: u64, mask: &Vec<bool>, details: &Vec<D>) -> (count: usize)
        where
            D: Clone,
        requires
            mask@.len() == old(self).open_view().len(),
            details@.len() == old(self).open_view().len(),
        ensures
            copies(
                kept_upto(old(self).open_view(), mask@, details@, time, mask@.len() as int),
                final(self).open_view(),
            ),
            keeps_untouched(old(self).open_view(), mask@, details@, time, final(self).open_view()),
            final(self).history_view().len() == old(self).history_view().len() + count,
            final(self).history_view().subrange(0, old(self).history_view().len() as int)
                == old(self).history_view(),
            copies(
                closed_upto(old(self).open_view(), mask@, details@, time, mask@.len() as int),
                final(self).history_view().subrange(
                    old(self).history_view().len() as int,
                    final(self).history_view().len() as int,
                ),
            ),
            final(self).issued_view() == old(self).issued_view(),
            all_unclosed(final(self).open_view()),
            ids_registered(final(self).open_view(), final(self).history_view(), final(self).issued_view()),
            open_ids_distinct(final(self).open_view()),
    {
        proof {
            use_type_invariant(&*self);
        }
        let mut book = PositionBook::new();
        std::mem::swap(&mut book, &mut self.book);
        let ghost open = book.open_view();
        let ghost history = book.history_view();
        let count = book.close_where(time, mask, details);
        proof {
            lemma_settle_keeps_ids(
                open,
                history,
                self.ids.issued_view(),
                mask@,
                details@,
                time,
                book.open_view(),
                book.history_view(),
            );
        }
        self.book = book;
        count
    }

    /// Closes every open position at `time`, as `PositionBook::close_all`
    /// does; the registry is unchanged.  Returns how many positions were
    /// closed.
    pub fn close_all(&mut self, time: u64, details: &Vec<D>) -> (count: usize)
        where
            D: Clone,
        requires
            details@.len() == old(self).open_view().len(),
        ensures
            copies(
                kept_upto(
                    old(self).open_view(),
                    unclosed_mask(old(self).open_view()),
                    details@,
                    time,
                    old(self).open_view().len() as int,
                ),
                final(self).open_view(),
            ),
            keeps_untouched(
                old(self).open_view(),
                unclosed_mask(old(self).open_view()),
                details@,
                time,
                final(self).open_view(),
            ),
            final(self).history_view().len() == old(self).history_view().len() + count,
            final(self).history_view().subrange(0, old(self).history_view().len() as int)
                == old(self).history_view(),
            copies(
                closed_upto(
                    old(self).open_view(),
                    unclosed_mask(old(self).open_view()),
                    details@,
                    time,
                    old(self).open_view().len() as int,
                ),
                final(self).history_view().subrange(
                    old(self).history_view().len() as int,
                    final(self).history_view().len() as int,
                ),
            ),
            final(self).issued_view() == old(self).issued_view(),
            all_unclosed(final(self).open_view()),
            ids_registered(final(self).open_view(), final(self).history_view(), final(self).issued_view()),
            open_ids_distinct(final(self).open_view()),
    {
        proof {
            use_type_invariant(&*self);
        }
        let mut book = PositionBook::new();
        std::mem::swap(&mut book, &mut self.book);
        let ghost open = book.open_view();
        let ghost history = book.history_view();
        let count = book.close_all(time, details);
        proof {
            lemma_settle_keeps_ids(
                open,
                history,
                self.ids.issued_view(),
                unclosed_mask(open),
                details@,
                time,
                book.open_view(),
                book.history_view(),
            );
        }
        self.book = book;
        count
    }
}

} // verus!
