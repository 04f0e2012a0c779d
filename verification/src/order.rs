//! Orders, fills and the two sides of the market.

use vstd::prelude::*;

verus! {

/// The side of the market that an order stands on.
#[derive(Debug, Clone, Copy, PartialEq, Eq, Structural)]
pub enum Side {
    Buy,
    Sell,
}

impl Side {
    /// The side that an order of this side trades with.
    pub open spec fn opposite(self) -> Side {
        match self {
            Side::Buy => Side::Sell,
            Side::Sell => Side::Buy,
        }
    }
}

/// A limit order. `qty` is the quantity it was placed with, `remaining_qty`
/// the part of it that is still open.
#[derive(Debug, Clone, PartialEq, Eq, Structural)]
pub struct Order {
    pub id: u64,
    pub side: Side,
    pub price: u64,
    pub qty: u64,
    pub remaining_qty: u64,
}

impl Order {
    /// A fresh order: all of its quantity is open.
    pub fn new(id: u64, side: Side, price: u64, qty: u64) -> (order: Self)
        ensures
            order == (Order { id, side, price, qty, remaining_qty: qty }),
    {
        Self { id, side, price, qty, remaining_qty: qty }
    }

    /// This order with only `open` of its quantity left open.
    pub open spec fn with_remaining(self, open: int) -> Order {
        Order { remaining_qty: open as u64, ..self }
    }

    /// Whether this order, as a taker, accepts to trade at `price`: a buyer at
    /// its limit or below, a seller at its limit or above.
    pub open spec fn accepts(self, price: u64) -> bool {
        match self.side {
            Side::Buy => price <= self.price,
            Side::Sell => price >= self.price,
        }
    }
}

/// A trade between a resting order (the maker) and an incoming one (the taker).
#[derive(Debug, Clone, PartialEq, Eq, Structural)]
pub struct Fill {
    pub maker_order_id: u64,
    pub taker_order_id: u64,
    pub price: u64,
    pub qty: u64,
}

} // verus!
