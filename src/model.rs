use vstd::prelude::*;

use crate::level::sum_rem;
use crate::order::{rem, Fill, Order, Side};

verus! {

/// The smaller of two integers.
pub open spec fn min_int(a: int, b: int) -> int {
    if a <= b {
        a
    } else {
        b
    }
}

/// The side whose resting orders an order of side `s` trades against.
pub open spec fn opposite(s: Side) -> Side {
    match s {
        Side::Bid => Side::Ask,
        Side::Ask => Side::Bid,
    }
}

/// Price `a` has strictly higher priority than price `b` on side `s`:
/// higher for bids, lower for asks.
pub open spec fn better(s: Side, a: u64, b: u64) -> bool {
    match s {
        Side::Bid => a > b,
        Side::Ask => a < b,
    }
}

/// The incoming order `t` may trade with a resting order priced `p`.
pub open spec fn crosses(t: Order, p: u64) -> bool {
    match t.side {
        Side::Bid => p <= t.price,
        Side::Ask => p >= t.price,
    }
}

/// `o` after `q` more of it was filled.
pub open spec fn filled_by(o: Order, q: int) -> Order {
    Order { filled: (o.filled + q) as u64, ..o }
}

/// Trades the incoming order `t` against one queue, oldest order first, until
/// either runs out. Gives the fills, what is left of the queue, and `t` after.
pub open spec fn match_level(queue: Seq<Order>, t: Order) -> (Seq<Fill>, Seq<Order>, Order)
    decreases queue.len(),
{
    if queue.len() == 0 || rem(t) <= 0 {
        (Seq::empty(), queue, t)
    } else {
        let m = queue[0];
        let q = min_int(rem(t), rem(m));
        let f = Fill { maker_id: m.id, taker_id: t.id, price: m.price, quantity: q as u64 };
        if rem(filled_by(m, q)) <= 0 {
            let r = match_level(queue.drop_first(), filled_by(t, q));
            (seq![f] + r.0, r.1, r.2)
        } else {
            (seq![f], queue.update(0, filled_by(m, q)), filled_by(t, q))
        }
    }
}

/// Trades `t` against the queue `q` that heads a book side whose other levels
/// are `rest`, and, if `q` is used up, on into `rest`.
pub open spec fn after_level(q: Seq<Order>, rest: Seq<Seq<Order>>, t: Order) -> (
    Seq<Fill>,
    Seq<Seq<Order>>,
    Order,
)
    decreases rest.len() + 1, 0nat,
{
    let r = match_level(q, t);
    if r.1.len() == 0 {
        let n = match_book(rest, r.2);
        (r.0 + n.0, n.1, n.2)
    } else {
        (r.0, seq![r.1] + rest, r.2)
    }
}

/// Trades the incoming order `t` against the opposite book side `levels`:
/// best level first, and within a level in arrival order, for as long as `t` is
/// open and the best level's price crosses its limit. Gives the fills, the
/// book side after, and `t` after.
pub open spec fn match_book(levels: Seq<Seq<Order>>, t: Order) -> (
    Seq<Fill>,
    Seq<Seq<Order>>,
    Order,
)
    decreases levels.len(), 1nat,
{
    if levels.len() == 0 || rem(t) <= 0 || !crosses(t, levels[0][0].price) {
        (Seq::empty(), levels, t)
    } else {
        after_level(levels[0], levels.drop_first(), t)
    }
}

/// The book side `levels` with `o` resting on it: at the tail of the level at
/// its price, or in a new level placed by price priority.
pub open spec fn rest(levels: Seq<Seq<Order>>, o: Order) -> Seq<Seq<Order>>
    decreases levels.len(),
{
    if levels.len() == 0 {
        seq![seq![o]]
    } else if levels[0][0].price == o.price {
        levels.update(0, levels[0].push(o))
    } else if better(o.side, o.price, levels[0][0].price) {
        seq![seq![o]] + levels
    } else {
        seq![levels[0]] + rest(levels.drop_first(), o)
    }
}

/// One submission of `o` to a book with sides `bids` and `asks`: the fills it
/// makes, then the bid side and the ask side after it.
pub open spec fn submit(bids: Seq<Seq<Order>>, asks: Seq<Seq<Order>>, o: Order) -> (
    Seq<Fill>,
    Seq<Seq<Order>>,
    Seq<Seq<Order>>,
) {
    match o.side {
        Side::Bid => {
            let r = match_book(asks, o);
            (r.0, if rem(r.2) > 0 { rest(bids, r.2) } else { bids }, r.1)
        },
        Side::Ask => {
            let r = match_book(bids, o);
            (r.0, r.1, if rem(r.2) > 0 { rest(asks, r.2) } else { asks })
        },
    }
}

/// Sum of the quantities of a list of fills.
pub open spec fn sum_qty(fs: Seq<Fill>) -> int
    decreases fs.len(),
{
    if fs.len() == 0 {
        0
    } else {
        sum_qty(fs.drop_last()) + fs.last().quantity
    }
}

/// Total open quantity resting on a book side.
pub open spec fn volume(levels: Seq<Seq<Order>>) -> int
    decreases levels.len(),
{
    if levels.len() == 0 {
        0
    } else {
        sum_rem(levels[0]) + volume(levels.drop_first())
    }
}

/// A well-formed book side for side `s`: no empty level, every order in a
/// level at that level's price, open and not over-filled, and levels in strict
/// price priority.
pub open spec fn book_wf(levels: Seq<Seq<Order>>, s: Side) -> bool {
    &&& forall|i: int| 0 <= i < levels.len() ==> (#[trigger] levels[i]).len() > 0
    &&& forall|i: int, j: int|
        0 <= i < levels.len() && 0 <= j < levels[i].len() ==> {
            &&& (#[trigger] levels[i][j]).price == levels[i][0].price
            &&& levels[i][j].wf()
            &&& rem(levels[i][j]) > 0
        }
    &&& forall|i: int, j: int|
        0 <= i < j < levels.len() ==> better(s, #[trigger] levels[i][0].price, #[trigger] levels[j][0].price)
}

/// The resting orders of a book side in the order they have priority: best
/// level first, and within a level oldest first.
pub open spec fn priority_order(levels: Seq<Seq<Order>>) -> Seq<Order>
    decreases levels.len(),
{
    if levels.len() == 0 {
        Seq::empty()
    } else {
        levels[0] + priority_order(levels.drop_first())
    }
}

/// The orders `po` after the fills `fs` took from them in turn, the k-th fill
/// from the k-th order: the orders used up are gone, and the last one filled
/// stays in front, filled further by its fill's quantity, if it is still open.
pub open spec fn after_fills(po: Seq<Order>, fs: Seq<Fill>) -> Seq<Order> {
    let n = fs.len() as int;
    if n > 0 && rem(filled_by(po[n - 1], fs[n - 1].quantity as int)) > 0 {
        seq![filled_by(po[n - 1], fs[n - 1].quantity as int)] + po.skip(n)
    } else {
        po.skip(n)
    }
}

/// The orders of a queue are open and not over-filled.
pub open spec fn queue_open(q: Seq<Order>) -> bool {
    forall|j: int| 0 <= j < q.len() ==> (#[trigger] q[j]).wf() && rem(q[j]) > 0
}

proof fn lemma_sum_qty_concat(a: Seq<Fill>, b: Seq<Fill>)
    ensures
        sum_qty(a + b) == sum_qty(a) + sum_qty(b),
    decreases b.len(),
{
    if b.len() == 0 {
        assert(a + b =~= a);
    } else {
        lemma_sum_qty_concat(a, b.drop_last());
        assert((a + b).drop_last() =~= a + b.drop_last());
    }
}

proof fn lemma_sum_qty_single(f: Fill)
    ensures
        sum_qty(seq![f]) == f.quantity,
{
    reveal_with_fuel(sum_qty, 2);
    assert(seq![f].drop_last() =~= Seq::<Fill>::empty());
}

/// What one level of matching does: each fill takes a positive quantity from
/// the next order of the queue for the taker, and the quantities moved add up
/// on both sides.
proof fn lemma_match_level(q: Seq<Order>, t: Order)
    requires
        queue_open(q),
        t.wf(),
    ensures
        ({
            let r = match_level(q, t);
            &&& r.2.wf()
            &&& r.2.id == t.id && r.2.side == t.side && r.2.price == t.price
            &&& r.2.quantity == t.quantity
            &&& t.filled <= r.2.filled
            &&& sum_qty(r.0) == r.2.filled - t.filled
            &&& sum_rem(q) == sum_rem(r.1) + sum_qty(r.0)
            &&& r.0.len() <= q.len()
            &&& r.1.len() == 0 ==> r.0.len() == q.len()
            &&& r.0.len() == 0 ==> r.1 == q
            &&& r.1 == after_fills(q, r.0)
            &&& forall|k: int|
                0 <= k < r.0.len() ==> {
                    &&& (#[trigger] r.0[k]).maker_id == q[k].id
                    &&& r.0[k].taker_id == t.id
                    &&& r.0[k].price == q[k].price
                    &&& r.0[k].quantity > 0
                    &&& r.0[k].quantity <= rem(q[k])
                    &&& k < r.0.len() - 1 ==> r.0[k].quantity == rem(q[k])
                }
        }),
    decreases q.len(),
{
    if q.len() == 0 || rem(t) <= 0 {
        assert(q.skip(0) =~= q);
    } else {
        let m = q[0];
        let qq = min_int(rem(t), rem(m));
        let f = Fill { maker_id: m.id, taker_id: t.id, price: m.price, quantity: qq as u64 };
        let t2 = filled_by(t, qq);
        lemma_sum_qty_single(f);
        if rem(filled_by(m, qq)) <= 0 {
            assert(queue_open(q.drop_first()));
            lemma_match_level(q.drop_first(), t2);
            let r = match_level(q.drop_first(), t2);
            lemma_sum_qty_concat(seq![f], r.0);
            let fs = seq![f] + r.0;
            assert forall|k: int| 0 <= k < fs.len() implies {
                &&& (#[trigger] fs[k]).maker_id == q[k].id
                &&& fs[k].taker_id == t.id
                &&& fs[k].price == q[k].price
                &&& fs[k].quantity > 0
                &&& fs[k].quantity <= rem(q[k])
                &&& k < fs.len() - 1 ==> fs[k].quantity == rem(q[k])
            } by {
                if k > 0 {
                    assert(fs[k] == r.0[k - 1]);
                    assert(q.drop_first()[k - 1] == q[k]);
                }
            }
            let n = fs.len() as int;
            if r.0.len() > 0 {
                assert(fs[n - 1] == r.0[n - 2]);
                assert(q[n - 1] == q.drop_first()[n - 2]);
                assert(q.skip(n) =~= q.drop_first().skip(n - 1));
            } else {
                assert(q.skip(1) =~= q.drop_first());
            }
        } else {
            let r1 = q.update(0, filled_by(m, qq));
            assert(r1.drop_first() =~= q.drop_first());
            assert(r1 =~= seq![filled_by(m, qq)] + q.skip(1));
        }
    }
}

/// What matching against a book side does, as `lemma_match_level` for a level.
proof fn lemma_match_book(levels: Seq<Seq<Order>>, t: Order)
    requires
        book_wf(levels, opposite(t.side)),
        t.wf(),
    ensures
        ({
            let r = match_book(levels, t);
            &&& r.2.wf()
            &&& r.2.id == t.id && r.2.side == t.side && r.2.price == t.price
            &&& r.2.quantity == t.quantity
            &&& t.filled <= r.2.filled
            &&& sum_qty(r.0) == r.2.filled - t.filled
            &&& volume(levels) == volume(r.1) + sum_qty(r.0)
            &&& r.0.len() <= priority_order(levels).len()
            &&& r.0.len() == 0 ==> r.1 == levels
            &&& priority_order(r.1) == after_fills(priority_order(levels), r.0)
            &&& forall|k: int|
                0 <= k < r.0.len() ==> {
                    &&& (#[trigger] r.0[k]).maker_id == priority_order(levels)[k].id
                    &&& r.0[k].taker_id == t.id
                    &&& r.0[k].price == priority_order(levels)[k].price
                    &&& r.0[k].quantity > 0
                    &&& crosses(t, r.0[k].price)
                    &&& r.0[k].quantity <= rem(priority_order(levels)[k])
                    &&& k < r.0.len() - 1 ==> r.0[k].quantity == rem(priority_order(levels)[k])
                }
        }),
    decreases levels.len(),
{
    if levels.len() == 0 || rem(t) <= 0 || !crosses(t, levels[0][0].price) {
        assert(priority_order(levels).skip(0) =~= priority_order(levels));
    } else {
        let q = levels[0];
        let rest_l = levels.drop_first();
        assert(queue_open(q)) by {
            assert forall|j: int| 0 <= j < q.len() implies (#[trigger] q[j]).wf() && rem(q[j]) > 0 by {
                assert(levels[0][j] == q[j]);
            }
        }
        lemma_match_level(q, t);
        let r = match_level(q, t);
        assert(priority_order(levels) == q + priority_order(rest_l));
        assert forall|k: int| 0 <= k < r.0.len() implies crosses(t, #[trigger] r.0[k].price) by {
            assert(levels[0][k].price == levels[0][0].price);
        }
        if r.1.len() == 0 {
            assert(book_wf(rest_l, opposite(t.side))) by {
                assert forall|i: int, j: int|
                    0 <= i < rest_l.len() && 0 <= j < rest_l[i].len() implies {
                        &&& (#[trigger] rest_l[i][j]).price == rest_l[i][0].price
                        &&& rest_l[i][j].wf()
                        &&& rem(rest_l[i][j]) > 0
                    } by {
                    assert(rest_l[i] == levels[i + 1]);
                }
                assert forall|i: int, j: int| 0 <= i < j < rest_l.len() implies better(
                    opposite(t.side),
                    #[trigger] rest_l[i][0].price,
                    #[trigger] rest_l[j][0].price,
                ) by {
                    assert(rest_l[i] == levels[i + 1]);
                    assert(rest_l[j] == levels[j + 1]);
                }
                assert forall|i: int| 0 <= i < rest_l.len() implies (#[trigger] rest_l[i]).len() > 0 by {
                    assert(rest_l[i] == levels[i + 1]);
                }
            }
            lemma_match_book(rest_l, r.2);
            let n = match_book(rest_l, r.2);
            lemma_sum_qty_concat(r.0, n.0);
            let nl = q.len() as int;
            let p = priority_order(rest_l);
            assert(q.len() > 0);
            let last = r.0[nl - 1];
            assert(rem(filled_by(q[nl - 1], last.quantity as int)) <= 0) by {
                if rem(filled_by(q[nl - 1], last.quantity as int)) > 0 {
                    assert(after_fills(q, r.0).len() > 0);
                }
            }
            assert(last.quantity == rem(q[nl - 1]));
            let fs = r.0 + n.0;
            assert forall|k: int| 0 <= k < fs.len() implies {
                &&& (#[trigger] fs[k]).maker_id == priority_order(levels)[k].id
                &&& fs[k].taker_id == t.id
                &&& fs[k].price == priority_order(levels)[k].price
                &&& fs[k].quantity > 0
                &&& crosses(t, fs[k].price)
                &&& fs[k].quantity <= rem(priority_order(levels)[k])
                &&& k < fs.len() - 1 ==> fs[k].quantity == rem(priority_order(levels)[k])
            } by {
                if k >= r.0.len() {
                    let k2 = k - r.0.len();
                    assert((r.0 + n.0)[k] == n.0[k2]);
                    assert(priority_order(levels)[k] == priority_order(rest_l)[k2]);
                    assert(crosses(r.2, n.0[k2].price));
                } else {
                    assert((r.0 + n.0)[k] == r.0[k]);
                    assert(priority_order(levels)[k] == q[k]);
                }
            }
            let big = fs.len() as int;
            if n.0.len() > 0 {
                assert(fs[big - 1] == n.0[n.0.len() - 1]);
                assert(priority_order(levels)[big - 1] == p[n.0.len() - 1]);
                assert(priority_order(levels).skip(big) =~= p.skip(n.0.len() as int));
            } else {
                assert(fs =~= r.0);
                assert(priority_order(levels)[nl - 1] == q[nl - 1]);
                assert(priority_order(levels).skip(nl) =~= p);
            }
        } else {
            let out = seq![r.1] + rest_l;
            assert(out.drop_first() =~= rest_l);
            assert(out[0] == r.1);
            assert(priority_order(out) == r.1 + priority_order(rest_l));
            assert forall|k: int| 0 <= k < r.0.len() implies (#[trigger] r.0[k]).maker_id
                == priority_order(levels)[k].id && r.0[k].price == priority_order(levels)[k].price
                && r.0[k].quantity <= rem(priority_order(levels)[k]) && (k < r.0.len() - 1
                ==> r.0[k].quantity == rem(priority_order(levels)[k])) by {
                assert(priority_order(levels)[k] == q[k]);
            }
            let nf = r.0.len() as int;
            let p = priority_order(rest_l);
            if nf == 0 {
                assert(out =~= levels);
                assert(priority_order(levels).skip(0) =~= priority_order(levels));
            } else {
                assert(priority_order(levels)[nf - 1] == q[nf - 1]);
                assert(priority_order(levels).skip(nf) =~= q.skip(nf) + p);
                assert(after_fills(priority_order(levels), r.0) =~= after_fills(q, r.0) + p);
            }
        }
    }
}

/// Conservation: every fill of a submission moves a positive quantity from
/// one resting order (the k-th fill from the k-th order in priority order) to
/// the taker. The taker's `filled` grows by the sum of the fill quantities,
/// never past its size. Each maker's `filled` grows by exactly its fill's
/// quantity: the makers used up leave the side, and the last one, if still
/// open, stays in front of the others with its new `filled`. The side loses
/// exactly the quantity the taker gained.
pub proof fn lemma_conservation(levels: Seq<Seq<Order>>, t: Order)
    requires
        book_wf(levels, opposite(t.side)),
        t.wf(),
    ensures
        ({
            let r = match_book(levels, t);
            let po = priority_order(levels);
            &&& r.0.len() <= po.len()
            &&& forall|k: int|
                0 <= k < r.0.len() ==> {
                    &&& (#[trigger] r.0[k]).quantity > 0
                    &&& r.0[k].maker_id == po[k].id
                    &&& r.0[k].taker_id == t.id
                    &&& r.0[k].quantity <= rem(po[k])
                    &&& k < r.0.len() - 1 ==> r.0[k].quantity == rem(po[k])
                }
            &&& priority_order(r.1) == after_fills(po, r.0)
            &&& sum_qty(r.0) == r.2.filled - t.filled
            &&& r.2.filled <= r.2.quantity == t.quantity
            &&& volume(levels) - volume(r.1) == sum_qty(r.0)
        }),
{
    lemma_match_book(levels, t);
}

/// Price-time priority: the k-th fill of a submission trades with the k-th
/// resting order in priority order (best price first, and within a price the
/// oldest first), at that order's price, which crosses the taker's limit.
pub proof fn lemma_price_time_priority(levels: Seq<Seq<Order>>, t: Order)
    requires
        book_wf(levels, opposite(t.side)),
        t.wf(),
    ensures
        ({
            let r = match_book(levels, t);
            &&& r.0.len() <= priority_order(levels).len()
            &&& forall|k: int|
                0 <= k < r.0.len() ==> {
                    &&& (#[trigger] r.0[k]).maker_id == priority_order(levels)[k].id
                    &&& r.0[k].price == priority_order(levels)[k].price
                    &&& r.0[k].taker_id == t.id
                    &&& crosses(t, r.0[k].price)
                }
        }),
{
    lemma_match_book(levels, t);
}

} // verus!
