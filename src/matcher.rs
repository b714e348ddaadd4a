use vstd::prelude::*;

use crate::level::{sum_rem, PriceLevel};
use crate::model::{
    after_fills, after_level, better, book_wf, crosses, filled_by, lemma_conservation,
    lemma_price_time_priority, match_book, match_level, min_int, opposite, priority_order, rest,
    submit, sum_qty,
};
use crate::order::{rem, Fill, Order, Side};

verus! {

/// A book side as plain data: each level's queue, best level first.
pub open spec fn book_of(levels: Seq<PriceLevel>) -> Seq<Seq<Order>> {
    levels.map_values(|l: PriceLevel| l.queue())
}

/// The levels of a side `s` are well formed, none is empty, and they stand in
/// strict price priority.
pub open spec fn levels_wf(levels: Seq<PriceLevel>, s: Side) -> bool {
    &&& forall|i: int|
        0 <= i < levels.len() ==> (#[trigger] levels[i]).wf() && levels[i].queue().len() > 0
    &&& forall|i: int, j: int|
        0 <= i < j < levels.len() ==> better(s, #[trigger] levels[i].price, #[trigger] levels[j].price)
}

proof fn lemma_sum_rem_nonneg(s: Seq<Order>)
    requires
        forall|i: int| 0 <= i < s.len() ==> rem(#[trigger] s[i]) >= 0,
    ensures
        sum_rem(s) >= 0,
    decreases s.len(),
{
    if s.len() > 0 {
        assert forall|i: int| 0 <= i < s.drop_first().len() implies rem(
            #[trigger] s.drop_first()[i],
        ) >= 0 by {
            assert(s.drop_first()[i] == s[i + 1]);
        }
        lemma_sum_rem_nonneg(s.drop_first());
    }
}

proof fn lemma_sum_rem_update_first(s: Seq<Order>, o: Order)
    requires
        s.len() > 0,
    ensures
        sum_rem(s.update(0, o)) == sum_rem(s) - rem(s[0]) + rem(o),
{
    assert(s.update(0, o).drop_first() =~= s.drop_first());
}

proof fn lemma_sum_qty_push(fs: Seq<Fill>, f: Fill)
    ensures
        sum_qty(fs.push(f)) == sum_qty(fs) + f.quantity,
{
    assert(fs.push(f).drop_last() =~= fs);
}

/// Trades `order` against the opposite book side `book` (best level first,
/// oldest order first), appending the fills to `fills` and counting them.
fn match_side(
    book: &mut Vec<PriceLevel>,
    order: &mut Order,
    fills: &mut Vec<Fill>,
    total_fills: &mut u64,
    total_volume: &mut u64,
)
    requires
        levels_wf(old(book)@, opposite(old(order).side)),
        old(order).wf(),
        *old(total_fills) + rem(*old(order)) <= u64::MAX,
        *old(total_volume) + rem(*old(order)) <= u64::MAX,
    ensures
        final(fills)@ == old(fills)@ + match_book(book_of(old(book)@), *old(order)).0,
        book_of(final(book)@) == match_book(book_of(old(book)@), *old(order)).1,
        *final(order) == match_book(book_of(old(book)@), *old(order)).2,
        levels_wf(final(book)@, opposite(old(order).side)),
        final(order).wf(),
        final(order).side == old(order).side && final(order).price == old(order).price
            && final(order).id == old(order).id && final(order).quantity == old(order).quantity,
        old(order).filled <= final(order).filled,
        *final(total_fills) == *old(total_fills) + (final(fills)@.len() - old(fills)@.len()),
        *final(total_fills) <= *old(total_fills) + (final(order).filled - old(order).filled),
        *final(total_volume) == *old(total_volume) + (final(order).filled - old(order).filled),
        sum_qty(final(fills)@.skip(old(fills)@.len() as int)) == final(order).filled
            - old(order).filled,
        rem(*final(order)) > 0 ==> final(book)@.len() == 0 || !crosses(
            *final(order),
            final(book)@[0].price,
        ),
        final(book)@.len() > 0 ==> old(book)@.len() > 0 && !better(
            opposite(old(order).side),
            final(book)@[0].price,
            old(book)@[0].price,
        ),
{
    let ghost s = opposite(order.side);
    let ghost b0 = book_of(book@);
    let ghost t0 = *order;
    let ghost f0 = fills@;
    let ghost tf0 = *total_fills;
    let ghost tv0 = *total_volume;
    let ghost first0 = if book@.len() > 0 {
        book@[0].price
    } else {
        0
    };
    while order.remaining() > 0 && book.len() > 0 && crosses_price(order, book[0].price)
        invariant
            levels_wf(book@, s),
            order.wf(),
            order.side == t0.side && order.price == t0.price && order.id == t0.id
                && order.quantity == t0.quantity,
            t0.filled <= order.filled,
            f0.len() <= fills@.len(),
            fills@.subrange(0, f0.len() as int) == f0,
            match_book(b0, t0) == (
                fills@.skip(f0.len() as int) + match_book(book_of(book@), *order).0,
                match_book(book_of(book@), *order).1,
                match_book(book_of(book@), *order).2,
            ),
            *total_fills == tf0 + (fills@.len() - f0.len()),
            *total_fills <= tf0 + (order.filled - t0.filled),
            *total_volume == tv0 + (order.filled - t0.filled),
            sum_qty(fills@.skip(f0.len() as int)) == order.filled - t0.filled,
            tf0 + rem(t0) <= u64::MAX,
            tv0 + rem(t0) <= u64::MAX,
            book@.len() > 0 ==> b0.len() > 0 && !better(s, book@[0].price, first0),
        decreases book@.len() + rem(*order),
    {
        let best = book[0].price;
        let ghost before = book@;
        let mut level = book.remove(0);
        let ghost rest_b = book_of(book@);
        let ghost r0 = rem(*order);
        proof {
            assert(book_of(before)[0] == level.queue());
            assert(book_of(before).drop_first() =~= rest_b);
            assert(book_of(before)[0][0].price == best);
        }
        while order.remaining() > 0 && !level.is_empty()
            invariant
                level.wf(),
                level.price == best,
                levels_wf(book@, s),
                book@.len() > 0 ==> b0.len() > 0 && !better(s, book@[0].price, first0),
                better(s, best, first0) == false,
                rem(*order) <= r0,
                forall|i: int| 0 <= i < book@.len() ==> better(s, best, #[trigger] book@[i].price),
                book_of(book@) == rest_b,
                order.wf(),
                order.side == t0.side && order.price == t0.price && order.id == t0.id
                && order.quantity == t0.quantity,
                t0.filled <= order.filled,
                f0.len() <= fills@.len(),
                fills@.subrange(0, f0.len() as int) == f0,
                match_book(b0, t0) == (
                    fills@.skip(f0.len() as int) + after_level(level.queue(), rest_b, *order).0,
                    after_level(level.queue(), rest_b, *order).1,
                    after_level(level.queue(), rest_b, *order).2,
                ),
                *total_fills == tf0 + (fills@.len() - f0.len()),
                *total_fills <= tf0 + (order.filled - t0.filled),
                *total_volume == tv0 + (order.filled - t0.filled),
                sum_qty(fills@.skip(f0.len() as int)) == order.filled - t0.filled,
                tf0 + rem(t0) <= u64::MAX,
                tv0 + rem(t0) <= u64::MAX,
            decreases level.queue().len() + rem(*order),
        {
            let ghost q = level.queue();
            let ghost t = *order;
            proof {
                lemma_sum_rem_nonneg(q.drop_first());
            }
            if let Some(maker) = level.front_mut() {
                let fill_qty = if order.remaining() <= maker.remaining() {
                    order.remaining()
                } else {
                    maker.remaining()
                };
                let maker_id = maker.id;
                let maker_price = maker.price;
                maker.filled = maker.filled + fill_qty;
                order.filled = order.filled + fill_qty;
                let maker_done = maker.remaining() == 0;
                let f = Fill { maker_id, taker_id: order.id, price: maker_price, quantity: fill_qty };
                proof {
                    lemma_sum_rem_update_first(q, filled_by(q[0], fill_qty as int));
                    assert(f == Fill {
                        maker_id: q[0].id,
                        taker_id: t.id,
                        price: q[0].price,
                        quantity: min_int(rem(t), rem(q[0])) as u64,
                    });
                }
                let ghost fl = fills@;
                fills.push(f);
                level.total_qty = level.total_qty - fill_qty;
                *total_fills = *total_fills + 1;
                *total_volume = *total_volume + fill_qty;
                if maker_done {
                    level.pop_front();
                }
                proof {
                    let ghost acc = fills@.skip(f0.len() as int);
                    assert(fills@.drop_last() =~= fl);
                    assert(acc =~= fl.skip(f0.len() as int).push(f));
                    lemma_sum_qty_push(fl.skip(f0.len() as int), f);
                    assert(fills@.subrange(0, f0.len() as int) =~= fills@.drop_last().subrange(
                        0,
                        f0.len() as int,
                    ));
                    if maker_done {
                        assert(level.queue() =~= q.drop_first());
                        assert(match_level(q, t).0 =~= seq![f] + match_level(q.drop_first(), *order).0);
                    } else {
                        assert(level.queue() =~= q.update(0, filled_by(q[0], fill_qty as int)));
                        assert(match_level(level.queue(), *order).0 =~= Seq::<Fill>::empty());
                    }
                    assert(after_level(q, rest_b, t).0 =~= seq![f] + after_level(
                        level.queue(),
                        rest_b,
                        *order,
                    ).0);
                    assert(fills@.skip(f0.len() as int) + after_level(level.queue(), rest_b, *order).0
                        =~= fills@.drop_last().skip(f0.len() as int) + after_level(q, rest_b, t).0);
                }
            }
        }
        if !level.is_empty() {
            book.insert(0, level);
            proof {
                assert(book_of(book@) =~= seq![level.queue()] + rest_b);
            }
        } else {
            proof {
                assert(match_level(level.queue(), *order).0 =~= Seq::<Fill>::empty());
                assert(after_level(level.queue(), rest_b, *order).0 =~= match_book(rest_b, *order).0);
            }
        }
    }
    proof {
        assert(fills@ =~= f0 + fills@.skip(f0.len() as int));
        if book@.len() > 0 {
            assert(book_of(book@)[0][0].price == book@[0].price);
        }
        assert(fills@.skip(f0.len() as int) + match_book(book_of(book@), *order).0
            =~= fills@.skip(f0.len() as int));
    }
}

fn crosses_price(order: &Order, p: u64) -> (r: bool)
    ensures
        r == crosses(*order, p),
{
    match order.side {
        Side::Bid => p <= order.price,
        Side::Ask => p >= order.price,
    }
}

} // verus!

verus! {

fn better_price(s: Side, a: u64, b: u64) -> (r: bool)
    ensures
        r == better(s, a, b),
{
    match s {
        Side::Bid => a > b,
        Side::Ask => a < b,
    }
}

/// Rests `order` on its own side `book`: at the tail of the level at its price,
/// or in a new level placed by price priority.
fn rest_order(book: &mut Vec<PriceLevel>, order: Order)
    requires
        levels_wf(old(book)@, order.side),
        order.wf(),
        rem(order) > 0,
        forall|i: int|
            0 <= i < old(book)@.len() && (#[trigger] old(book)@[i]).price == order.price
                ==> old(book)@[i].total_qty + rem(order) <= u64::MAX,
    ensures
        book_of(final(book)@) == rest(book_of(old(book)@), order),
        levels_wf(final(book)@, order.side),
        final(book)@.len() > 0,
        final(book)@[0].price == order.price || (old(book)@.len() > 0 && final(book)@[0].price
            == old(book)@[0].price),
{
    let ghost b = book_of(book@);
    let ghost s = order.side;
    let mut i: usize = 0;
    proof {
        assert(b.take(0) + b.skip(0) =~= b);
        assert(b.take(0) =~= Seq::<Seq<Order>>::empty());
        assert(b.skip(0) =~= b);
    }
    while i < book.len() && better_price(order.side, book[i].price, order.price)
        invariant
            0 <= i <= book@.len(),
            book@ == old(book)@,
            b == book_of(book@),
            s == order.side,
            levels_wf(book@, s),
            forall|j: int| 0 <= j < i ==> better(s, #[trigger] book@[j].price, order.price),
            rest(b, order) == b.take(i as int) + rest(b.skip(i as int), order),
        decreases book@.len() - i,
    {
        proof {
            let k = i as int;
            assert(better(s, book@[k].price, order.price));
            assert(b.skip(k)[0] == b[k]);
            assert(b[k][0].price == book@[k].price);
            assert(b.skip(k).drop_first() =~= b.skip(k + 1));
            assert(b.take(k + 1) =~= b.take(k).push(b[k]));
            assert(b.take(k) + rest(b.skip(k), order) =~= b.take(k + 1) + rest(b.skip(k + 1), order));
        }
        i = i + 1;
    }
    let ghost k = i as int;
    if i < book.len() && book[i].price == order.price {
        proof {
            assert(b.skip(k)[0] == b[k]);
            assert(b[k][0].price == book@[k].price);
        }
        book[i].add(order);
        proof {
            assert(book_of(book@) =~= b.take(k) + b.skip(k).update(0, b[k].push(order)));
        }
    } else {
        let mut level = PriceLevel::new(order.price);
        level.add(order);
        book.insert(i, level);
        proof {
            if k < b.len() {
                assert(b.skip(k)[0] == b[k]);
                assert(b[k][0].price == old(book)@[k].price);
            } else {
                assert(b.skip(k) =~= Seq::<Seq<Order>>::empty());
            }
            assert(level.queue() =~= seq![order]);
            assert(book_of(book@) =~= b.take(k) + (seq![seq![order]] + b.skip(k)));
        }
    }
}

} // verus!

verus! {

/// Price of the best level of a book side, if it has one.
pub open spec fn best_price(levels: Seq<Seq<Order>>) -> Option<u64> {
    if levels.len() == 0 {
        None
    } else {
        Some(levels[0][0].price)
    }
}

/// Room to rest `o` on `levels`: the level at its price, if any, can take its
/// whole quantity without its total leaving `u64`.
pub open spec fn has_room(levels: Seq<Seq<Order>>, o: Order) -> bool {
    forall|i: int|
        0 <= i < levels.len() && (#[trigger] levels[i])[0].price == o.price ==> sum_rem(levels[i])
            + o.quantity <= u64::MAX
}

/// Counters of a matcher and the number of levels on each side.
#[derive(Debug, Clone, Copy, PartialEq, Eq, Structural)]
pub struct MatcherStats {
    pub orders_processed: u64,
    pub total_fills: u64,
    pub total_volume: u64,
    pub bid_levels: usize,
    pub ask_levels: usize,
}

/// A continuous limit order book for one instrument, matching by price, then
/// arrival time.
pub struct Matcher {
    bids: Vec<PriceLevel>,
    asks: Vec<PriceLevel>,
    fills: Vec<Fill>,
    orders_processed: u64,
    total_fills: u64,
    total_volume: u64,
}

impl Matcher {
    /// The bid side: levels from the highest price down, each oldest first.
    pub closed spec fn bid_book(&self) -> Seq<Seq<Order>> {
        book_of(self.bids@)
    }

    /// The ask side: levels from the lowest price up, each oldest first.
    pub closed spec fn ask_book(&self) -> Seq<Seq<Order>> {
        book_of(self.asks@)
    }

    pub closed spec fn stats_view(&self) -> MatcherStats {
        MatcherStats {
            orders_processed: self.orders_processed,
            total_fills: self.total_fills,
            total_volume: self.total_volume,
            bid_levels: self.bids@.len() as usize,
            ask_levels: self.asks@.len() as usize,
        }
    }

    /// Both sides are well formed and the book is not crossed.
    pub closed spec fn wf(&self) -> bool {
        &&& levels_wf(self.bids@, Side::Bid)
        &&& levels_wf(self.asks@, Side::Ask)
        &&& self.bids@.len() > 0 && self.asks@.len() > 0 ==> self.bids@[0].price
            < self.asks@[0].price
    }

    pub fn new() -> (r: Matcher)
        ensures
            r.wf(),
            r.bid_book() == Seq::<Seq<Order>>::empty(),
            r.ask_book() == Seq::<Seq<Order>>::empty(),
            r.stats_view() == (MatcherStats {
                orders_processed: 0,
                total_fills: 0,
                total_volume: 0,
                bid_levels: 0,
                ask_levels: 0,
            }),
    {
        let r = Matcher {
            bids: Vec::new(),
            asks: Vec::new(),
            fills: Vec::with_capacity(1024),
            orders_processed: 0,
            total_fills: 0,
            total_volume: 0,
        };
        proof {
            assert(r.bid_book() =~= Seq::<Seq<Order>>::empty());
            assert(r.ask_book() =~= Seq::<Seq<Order>>::empty());
        }
        r
    }

    /// Matches `order` against the opposite side and rests what is left of it
    /// on its own side. Returns the fills of this submission, in the order they
    /// happened.
    pub fn process_order(&mut self, order: Order) -> (r: &[Fill])
        requires
            old(self).wf(),
            order.quantity > 0,
            order.filled == 0,
            old(self).stats_view().orders_processed < u64::MAX,
            old(self).stats_view().total_fills + order.quantity <= u64::MAX,
            old(self).stats_view().total_volume + order.quantity <= u64::MAX,
            order.side == Side::Bid ==> has_room(old(self).bid_book(), order),
            order.side == Side::Ask ==> has_room(old(self).ask_book(), order),
        ensures
            final(self).wf(),
            (r@, final(self).bid_book(), final(self).ask_book()) == submit(
                old(self).bid_book(),
                old(self).ask_book(),
                order,
            ),
            final(self).stats_view().orders_processed == old(self).stats_view().orders_processed
                + 1,
            final(self).stats_view().total_fills == old(self).stats_view().total_fills + r@.len(),
            final(self).stats_view().total_volume == old(self).stats_view().total_volume
                + sum_qty(r@),
    {
        self.fills.clear();
        self.orders_processed = self.orders_processed + 1;
        let mut order = order;
        match order.side {
            Side::Bid => self.match_bid(&mut order),
            Side::Ask => self.match_ask(&mut order),
        }
        proof {
            assert(self.fills@.skip(0) =~= self.fills@);
        }
        self.fills.as_slice()
    }

    fn match_bid(&mut self, order: &mut Order)
        requires
            old(self).wf(),
            old(order).side == Side::Bid,
            old(order).wf(),
            old(self).fills@.len() == 0,
            old(self).total_fills + rem(*old(order)) <= u64::MAX,
            old(self).total_volume + rem(*old(order)) <= u64::MAX,
            has_room(book_of(old(self).bids@), *old(order)),
        ensures
            final(self).wf(),
            (final(self).fills@, final(self).bid_book(), final(self).ask_book()) == submit(
                old(self).bid_book(),
                old(self).ask_book(),
                *old(order),
            ),
            final(self).orders_processed == old(self).orders_processed,
            final(self).total_fills == old(self).total_fills + final(self).fills@.len(),
            final(self).total_volume == old(self).total_volume + sum_qty(final(self).fills@),
    {
        let ghost bids0 = self.bids@;
        match_side(
            &mut self.asks,
            order,
            &mut self.fills,
            &mut self.total_fills,
            &mut self.total_volume,
        );
        proof {
            assert(self.fills@ =~= Seq::<Fill>::empty() + self.fills@);
            assert(self.fills@.skip(0) =~= self.fills@);
        }
        if order.remaining() > 0 {
            proof {
                assert forall|i: int|
                    0 <= i < self.bids@.len() && (#[trigger] self.bids@[i]).price == order.price
                        implies self.bids@[i].total_qty + rem(*order) <= u64::MAX by {
                    assert(book_of(bids0)[i] == self.bids@[i].queue());
                    assert(self.bids@[i].wf());
                    assert(self.bids@[i].queue()[0].price == self.bids@[i].price);
                }
            }
            rest_order(&mut self.bids, *order);
        }
    }

    fn match_ask(&mut self, order: &mut Order)
        requires
            old(self).wf(),
            old(order).side == Side::Ask,
            old(order).wf(),
            old(self).fills@.len() == 0,
            old(self).total_fills + rem(*old(order)) <= u64::MAX,
            old(self).total_volume + rem(*old(order)) <= u64::MAX,
            has_room(book_of(old(self).asks@), *old(order)),
        ensures
            final(self).wf(),
            (final(self).fills@, final(self).bid_book(), final(self).ask_book()) == submit(
                old(self).bid_book(),
                old(self).ask_book(),
                *old(order),
            ),
            final(self).orders_processed == old(self).orders_processed,
            final(self).total_fills == old(self).total_fills + final(self).fills@.len(),
            final(self).total_volume == old(self).total_volume + sum_qty(final(self).fills@),
    {
        let ghost asks0 = self.asks@;
        match_side(
            &mut self.bids,
            order,
            &mut self.fills,
            &mut self.total_fills,
            &mut self.total_volume,
        );
        proof {
            assert(self.fills@ =~= Seq::<Fill>::empty() + self.fills@);
            assert(self.fills@.skip(0) =~= self.fills@);
        }
        if order.remaining() > 0 {
            proof {
                assert forall|i: int|
                    0 <= i < self.asks@.len() && (#[trigger] self.asks@[i]).price == order.price
                        implies self.asks@[i].total_qty + rem(*order) <= u64::MAX by {
                    assert(book_of(asks0)[i] == self.asks@[i].queue());
                    assert(self.asks@[i].wf());
                    assert(self.asks@[i].queue()[0].price == self.asks@[i].price);
                }
            }
            rest_order(&mut self.asks, *order);
        }
    }

    /// Highest bid price, if any bid rests.
    pub fn best_bid(&self) -> (r: Option<u64>)
        requires
            self.wf(),
        ensures
            r == best_price(self.bid_book()),
    {
        if self.bids.len() == 0 {
            None
        } else {
            Some(self.bids[0].price)
        }
    }

    /// Lowest ask price, if any ask rests.
    pub fn best_ask(&self) -> (r: Option<u64>)
        requires
            self.wf(),
        ensures
            r == best_price(self.ask_book()),
    {
        if self.asks.len() == 0 {
            None
        } else {
            Some(self.asks[0].price)
        }
    }

    pub fn stats(&self) -> (r: MatcherStats)
        ensures
            r == self.stats_view(),
            r.bid_levels == self.bid_book().len(),
            r.ask_levels == self.ask_book().len(),
    {
        MatcherStats {
            orders_processed: self.orders_processed,
            total_fills: self.total_fills,
            total_volume: self.total_volume,
            bid_levels: self.bids.len(),
            ask_levels: self.asks.len(),
        }
    }
}

/// Whatever the history of a matcher, each side is a well-formed book side:
/// every level holds at least one order, every resting order has
/// `0 <= filled <= quantity` and is still open, and the levels stand in strict
/// price priority (bids from the highest price, asks from the lowest).
pub proof fn lemma_books_wf(m: &Matcher)
    requires
        m.wf(),
    ensures
        book_wf(m.bid_book(), Side::Bid),
        book_wf(m.ask_book(), Side::Ask),
{
    lemma_levels_book_wf(m.bids@, Side::Bid);
    lemma_levels_book_wf(m.asks@, Side::Ask);
}

proof fn lemma_levels_book_wf(levels: Seq<PriceLevel>, s: Side)
    requires
        levels_wf(levels, s),
    ensures
        book_wf(book_of(levels), s),
        forall|i: int| 0 <= i < levels.len() ==> (#[trigger] book_of(levels)[i])[0].price == levels[i].price,
{
    let b = book_of(levels);
    assert forall|i: int| 0 <= i < levels.len() implies (#[trigger] b[i])[0].price == levels[i].price by {
        assert(levels[i].wf());
    }
    assert forall|i: int, j: int| 0 <= i < j < b.len() implies better(
        s,
        #[trigger] b[i][0].price,
        #[trigger] b[j][0].price,
    ) by {
        assert(levels[i].wf());
        assert(levels[j].wf());
        assert(b[i][0].price == levels[i].price);
        assert(b[j][0].price == levels[j].price);
    }
    assert forall|i: int, j: int| 0 <= i < b.len() && 0 <= j < b[i].len() implies {
        &&& (#[trigger] b[i][j]).price == b[i][0].price
        &&& b[i][j].wf()
        &&& rem(b[i][j]) > 0
    } by {
        assert(levels[i].wf());
    }
}

/// Every resting order, on either side, has `0 <= filled <= quantity`.
pub proof fn lemma_no_overfill(m: &Matcher)
    requires
        m.wf(),
    ensures
        forall|i: int, j: int|
            0 <= i < m.bid_book().len() && 0 <= j < m.bid_book()[i].len() ==> 0 <= (
            #[trigger] m.bid_book()[i][j]).filled <= m.bid_book()[i][j].quantity,
        forall|i: int, j: int|
            0 <= i < m.ask_book().len() && 0 <= j < m.ask_book()[i].len() ==> 0 <= (
            #[trigger] m.ask_book()[i][j]).filled <= m.ask_book()[i][j].quantity,
{
    lemma_books_wf(m);
}

/// No price level is ever present with nothing resting on it: each level of
/// either side holds orders whose open quantity is positive.
pub proof fn lemma_no_empty_level(m: &Matcher)
    requires
        m.wf(),
    ensures
        forall|i: int|
            0 <= i < m.bid_book().len() ==> (#[trigger] m.bid_book()[i]).len() > 0 && sum_rem(
                m.bid_book()[i],
            ) > 0,
        forall|i: int|
            0 <= i < m.ask_book().len() ==> (#[trigger] m.ask_book()[i]).len() > 0 && sum_rem(
                m.ask_book()[i],
            ) > 0,
{
    assert forall|i: int| 0 <= i < m.bid_book().len() implies (#[trigger] m.bid_book()[i]).len()
        > 0 && sum_rem(m.bid_book()[i]) > 0 by {
        let l = m.bids@[i];
        assert(l.wf());
        lemma_sum_rem_nonneg(l.queue().drop_first());
    }
    assert forall|i: int| 0 <= i < m.ask_book().len() implies (#[trigger] m.ask_book()[i]).len()
        > 0 && sum_rem(m.ask_book()[i]) > 0 by {
        let l = m.asks@[i];
        assert(l.wf());
        lemma_sum_rem_nonneg(l.queue().drop_first());
    }
}

/// The book is never crossed: when both sides hold orders, the best bid is
/// strictly below the best ask.
pub proof fn lemma_not_crossed(m: &Matcher)
    requires
        m.wf(),
    ensures
        best_price(m.bid_book()) is Some && best_price(m.ask_book()) is Some ==> best_price(
            m.bid_book(),
        )->Some_0 < best_price(m.ask_book())->Some_0,
{
    lemma_levels_book_wf(m.bids@, Side::Bid);
    lemma_levels_book_wf(m.asks@, Side::Ask);
}

/// Reading the statistics depends on the matcher's state alone, so two reads
/// with no submission between them agree.
pub proof fn lemma_stats_stable(m1: &Matcher, m2: &Matcher)
    requires
        m1 == m2,
    ensures
        m1.stats_view() == m2.stats_view(),
{
}

/// The opposite side an order of side `s` trades against on matcher `m`.
pub open spec fn opposite_book(m: &Matcher, s: Side) -> Seq<Seq<Order>> {
    match s {
        Side::Bid => m.ask_book(),
        Side::Ask => m.bid_book(),
    }
}

/// Price-time priority of a submission to a matcher: the k-th fill that
/// `process_order` returns trades with the k-th resting order of the opposite
/// side in priority order, at that order's price, which crosses the
/// incoming order's limit.
pub proof fn lemma_submission_priority(m: &Matcher, order: Order)
    requires
        m.wf(),
        order.filled <= order.quantity,
    ensures
        ({
            let fs = submit(m.bid_book(), m.ask_book(), order).0;
            let po = priority_order(opposite_book(m, order.side));
            &&& fs.len() <= po.len()
            &&& forall|k: int|
                0 <= k < fs.len() ==> {
                    &&& (#[trigger] fs[k]).maker_id == po[k].id
                    &&& fs[k].price == po[k].price
                    &&& fs[k].taker_id == order.id
                    &&& crosses(order, fs[k].price)
                }
        }),
{
    lemma_books_wf(m);
    lemma_price_time_priority(opposite_book(m, order.side), order);
}

/// Conservation in a submission to a matcher: the fills that `process_order`
/// returns each move a positive quantity from one resting order of the
/// opposite side, in priority order; the makers used up leave that side and
/// the last one stays with exactly its fill added; and the fills add up to at
/// most the incoming order's size.
pub proof fn lemma_submission_conservation(m: &Matcher, order: Order)
    requires
        m.wf(),
        order.filled == 0,
    ensures
        ({
            let r = submit(m.bid_book(), m.ask_book(), order);
            let before = opposite_book(m, order.side);
            let after = match order.side {
                Side::Bid => r.2,
                Side::Ask => r.1,
            };
            let po = priority_order(before);
            &&& forall|k: int|
                0 <= k < r.0.len() ==> {
                    &&& (#[trigger] r.0[k]).quantity > 0
                    &&& r.0[k].quantity <= rem(po[k])
                    &&& k < r.0.len() - 1 ==> r.0[k].quantity == rem(po[k])
                }
            &&& priority_order(after) == after_fills(po, r.0)
            &&& sum_qty(r.0) <= order.quantity
        }),
{
    lemma_books_wf(m);
    lemma_conservation(opposite_book(m, order.side), order);
}

} // verus!
