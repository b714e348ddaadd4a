use vstd::prelude::*;

use crate::order::{rem, Order};

verus! {

/// Total open quantity of a queue of orders.
pub open spec fn sum_rem(s: Seq<Order>) -> int
    decreases s.len(),
{
    if s.len() == 0 {
        0
    } else {
        rem(s[0]) + sum_rem(s.drop_first())
    }
}

/// Appending an order adds its open quantity to the total.
pub proof fn lemma_sum_rem_push(s: Seq<Order>, o: Order)
    ensures
        sum_rem(s.push(o)) == sum_rem(s) + rem(o),
    decreases s.len(),
{
    if s.len() > 0 {
        lemma_sum_rem_push(s.drop_first(), o);
        assert(s.push(o).drop_first() =~= s.drop_first().push(o));
    } else {
        assert(s.push(o).drop_first() =~= s);
    }
}

/// Orders resting at one price, oldest first, with their total open quantity.
pub struct PriceLevel {
    pub price: u64,
    pub total_qty: u64,
    pub orders: Vec<Order>,
}

impl PriceLevel {
    /// The queued orders, oldest first.
    pub open spec fn queue(&self) -> Seq<Order> {
        self.orders@
    }

    /// Every queued order sits at this price, is open and not over-filled, and
    /// `total_qty` is the sum of their open quantities.
    pub open spec fn wf(&self) -> bool {
        &&& self.total_qty == sum_rem(self.queue())
        &&& forall|i: int|
            0 <= i < self.queue().len() ==> {
                &&& (#[trigger] self.queue()[i]).price == self.price
                &&& self.queue()[i].wf()
                &&& rem(self.queue()[i]) > 0
            }
    }

    pub fn new(price: u64) -> (r: PriceLevel)
        ensures
            r.price == price,
            r.total_qty == 0,
            r.queue() == Seq::<Order>::empty(),
            r.wf(),
    {
        PriceLevel { price, total_qty: 0, orders: Vec::with_capacity(64) }
    }

    /// Appends `order` at the tail of the queue.
    pub fn add(&mut self, order: Order)
        requires
            order.wf(),
            old(self).total_qty + rem(order) <= u64::MAX,
        ensures
            final(self).price == old(self).price,
            final(self).total_qty == old(self).total_qty + rem(order),
            final(self).queue() == old(self).queue().push(order),
            old(self).wf() && order.price == old(self).price && rem(order) > 0 ==> final(self).wf(),
    {
        proof {
            lemma_sum_rem_push(self.orders@, order);
        }
        self.total_qty = self.total_qty + order.remaining();
        self.orders.push(order);
    }

    /// The oldest order, for filling in place.
    pub fn front_mut(&mut self) -> (r: Option<&mut Order>)
        ensures
            old(self).queue().len() == 0 <==> r is None,
            r is None ==> *final(self) == *old(self),
            r matches Some(o) ==> {
                &&& *o == old(self).queue()[0]
                &&& final(self).queue() == old(self).queue().update(0, *final(o))
                &&& final(self).price == old(self).price
                &&& final(self).total_qty == old(self).total_qty
            },
    {
        if self.orders.len() == 0 {
            None
        } else {
            Some(&mut self.orders[0])
        }
    }

    /// Removes and returns the oldest order; `total_qty` is left as it was.
    pub fn pop_front(&mut self) -> (r: Option<Order>)
        ensures
            old(self).queue().len() == 0 ==> r is None && *final(self) == *old(self),
            old(self).queue().len() > 0 ==> {
                &&& r == Some(old(self).queue()[0])
                &&& final(self).queue() == old(self).queue().drop_first()
                &&& final(self).price == old(self).price
                &&& final(self).total_qty == old(self).total_qty
            },
    {
        if self.orders.len() == 0 {
            None
        } else {
            Some(self.orders.remove(0))
        }
    }

    pub fn is_empty(&self) -> (r: bool)
        ensures
            r == (self.queue().len() == 0),
    {
        self.orders.len() == 0
    }
}

} // verus!
