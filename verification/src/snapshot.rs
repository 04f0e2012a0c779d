//! What a book shows of itself: its price levels, best first, with the open
//! quantity of each resting order.

use vstd::prelude::*;

use crate::order::{Order, Side};
use crate::priority;
use crate::priority::BookState;

verus! {

/// A resting order as it is shown; `qty` is its open quantity.
#[derive(Debug, Clone)]
pub struct PublicOrder {
    pub id: u64,
    pub side: Side,
    pub price: u64,
    pub qty: u64,
}

/// The resting orders of one price, oldest first.
#[derive(Debug, Clone)]
pub struct BookLevel {
    pub price: u64,
    pub orders: Vec<PublicOrder>,
}

/// Both sides of a book, best level first.
#[derive(Debug, Clone)]
pub struct OrderBookSnapshot {
    pub bids: Vec<BookLevel>,
    pub asks: Vec<BookLevel>,
}

/// How a resting order is shown.
pub open spec fn shown(order: Order) -> PublicOrder {
    PublicOrder {
        id: order.id,
        side: order.side,
        price: order.price,
        qty: order.remaining_qty,
    }
}

/// Shows a resting order.
pub fn public_resting_order(o: &Order) -> (public: PublicOrder)
    ensures
        public == shown(*o),
{
    PublicOrder { id: o.id, side: o.side, price: o.price, qty: o.remaining_qty }
}

/// The orders of all levels, one level after the other.
pub open spec fn listed(levels: Seq<BookLevel>) -> Seq<PublicOrder>
    decreases levels.len(),
{
    if levels.len() == 0 {
        Seq::empty()
    } else {
        levels[0].orders@ + listed(levels.drop_first())
    }
}

/// Whether `levels` are the levels of a side: none is empty, each holds orders of
/// its own price only, and better prices come strictly before worse ones.
pub open spec fn ladder(side: Side, levels: Seq<BookLevel>) -> bool {
    &&& forall|i: int|
        0 <= i < levels.len() ==> (#[trigger] levels[i]).orders@.len() > 0
    &&& forall|i: int, k: int|
        0 <= i < levels.len() && 0 <= k < levels[i].orders@.len()
            ==> (#[trigger] levels[i].orders@[k]).price == levels[i].price
    &&& forall|i: int, j: int|
        0 <= i < j < levels.len() ==> priority::outranks(
            side,
            (#[trigger] levels[i]).price,
            (#[trigger] levels[j]).price,
        )
}

/// Whether `levels` show `queue`: every order in its place, one level for each
/// price that occurs, better prices strictly before worse ones.
pub open spec fn shows(side: Side, queue: Seq<Order>, levels: Seq<BookLevel>) -> bool {
    &&& listed(levels) == queue.map_values(|order: Order| shown(order))
    &&& ladder(side, levels)
}

impl OrderBookSnapshot {
    /// Whether this is the snapshot of `book`.
    pub open spec fn is_of(self, book: BookState) -> bool {
        &&& shows(Side::Buy, book.bids, self.bids@)
        &&& shows(Side::Sell, book.asks, self.asks@)
    }
}

/// An order is shown with its own identifier, side and price, and with the quantity
/// that is open of it.
pub proof fn orders_are_shown_as_they_rest(order: Order, public: PublicOrder)
    requires
        call_ensures(public_resting_order, (&order,), public),
    ensures
        public.id == order.id,
        public.side == order.side,
        public.price == order.price,
        public.qty == order.remaining_qty,
{
}

} // verus!
