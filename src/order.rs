use vstd::prelude::*;

verus! {

/// The side of the book an order belongs to.
#[derive(Debug, Clone, Copy, PartialEq, Eq, Structural)]
pub enum Side {
    Bid,
    Ask,
}

/// A request to buy (`Bid`) or sell (`Ask`) `quantity` units at limit `price`.
///
/// `filled` records how much of the order has been matched so far.
#[derive(Debug, Clone, Copy)]
pub struct Order {
    pub id: u64,
    pub price: u64,
    pub quantity: u64,
    pub filled: u64,
    pub timestamp: u64,
    pub side: Side,
}

/// Quantity of `o` that is still open, as an integer.
pub open spec fn rem(o: Order) -> int {
    o.quantity - o.filled
}

impl Order {
    /// An order is well formed when it never holds more fills than its size.
    pub open spec fn wf(&self) -> bool {
        self.filled <= self.quantity
    }

    pub fn new(id: u64, price: u64, quantity: u64, side: Side, timestamp: u64) -> (r: Order)
        ensures
            r == (Order { id, price, quantity, filled: 0, timestamp, side }),
    {
        Order { id, price, quantity, filled: 0, timestamp, side }
    }

    pub fn remaining(&self) -> (r: u64)
        requires
            self.wf(),
        ensures
            r == rem(*self),
    {
        self.quantity - self.filled
    }
}

/// One trade between a resting order (the maker) and an incoming order (the taker).
#[derive(Debug, Clone, Copy)]
pub struct Fill {
    pub maker_id: u64,
    pub taker_id: u64,
    pub price: u64,
    pub quantity: u64,
}

} // verus!
