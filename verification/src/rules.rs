//! The rules of the market: what a submission does to a book, and what a book
//! shows, in terms of prices, quantities and places in the queues.

use vstd::prelude::*;

use crate::laws;
use crate::order::{Fill, Order, Side};
use crate::priority;
use crate::priority::BookState;
use crate::snapshot;
use crate::snapshot::{BookLevel, OrderBookSnapshot, PublicOrder};

verus! {

// Books.

/// A book without orders has none on either side.
pub proof fn empty_books_hold_nothing()
    ensures
        BookState::empty().bids.len() == 0,
        BookState::empty().asks.len() == 0,
{
}

/// In a valid book bids are open buy orders from the highest price down, asks are
/// open sell orders from the lowest price up, and every bid is below every ask.
pub proof fn valid_books_are_in_order(book: BookState)
    requires
        book.valid(),
    ensures
        forall|i: int|
            0 <= i < book.bids.len() ==> (#[trigger] book.bids[i]).side == Side::Buy
                && book.bids[i].remaining_qty > 0,
        forall|i: int|
            0 <= i < book.asks.len() ==> (#[trigger] book.asks[i]).side == Side::Sell
                && book.asks[i].remaining_qty > 0,
        forall|i: int, j: int|
            0 <= i < j < book.bids.len() ==> (#[trigger] book.bids[i]).price >= (
            #[trigger] book.bids[j]).price,
        forall|i: int, j: int|
            0 <= i < j < book.asks.len() ==> (#[trigger] book.asks[i]).price <= (
            #[trigger] book.asks[j]).price,
        forall|i: int, j: int|
            0 <= i < book.bids.len() && 0 <= j < book.asks.len() ==> (#[trigger] book.bids[i]).price
                < (#[trigger] book.asks[j]).price,
{
    assert forall|i: int, j: int| 0 <= i < j < book.bids.len() implies (
    #[trigger] book.bids[i]).price >= (#[trigger] book.bids[j]).price by {
        assert(!priority::outranks(Side::Buy, book.bids[j].price, book.bids[i].price));
    }
    assert forall|i: int, j: int| 0 <= i < j < book.asks.len() implies (
    #[trigger] book.asks[i]).price <= (#[trigger] book.asks[j]).price by {
        assert(!priority::outranks(Side::Sell, book.asks[j].price, book.asks[i].price));
    }
}

// Sums.

/// The traded quantity of fills is the sum of their quantities, and what is traded
/// for an order is the sum over the fills it has a part in.
pub proof fn fills_add_up(fills: Seq<Fill>, fill: Fill, id: u64)
    ensures
        laws::filled_qty(Seq::<Fill>::empty()) == 0,
        laws::filled_qty(fills.push(fill)) == laws::filled_qty(fills) + fill.qty,
        laws::filled_for(Seq::<Fill>::empty(), id) == 0,
        fill.maker_order_id != id && fill.taker_order_id != id ==> laws::filled_for(
            fills.push(fill),
            id,
        ) == laws::filled_for(fills, id),
        (fill.maker_order_id == id) != (fill.taker_order_id == id) ==> laws::filled_for(
            fills.push(fill),
            id,
        ) == laws::filled_for(fills, id) + fill.qty,
        fill.maker_order_id == id && fill.taker_order_id == id ==> laws::filled_for(
            fills.push(fill),
            id,
        ) == laws::filled_for(fills, id) + 2 * fill.qty,
    decreases fills.len(),
{
    let longer = fills.push(fill);
    if fills.len() == 0 {
        assert(longer.drop_first() =~= Seq::<Fill>::empty());
        assert(longer[0] == fill);
        assert(fills =~= Seq::<Fill>::empty());
    } else {
        assert(longer.drop_first() =~= fills.drop_first().push(fill));
        assert(longer[0] == fills[0]);
        fills_add_up(fills.drop_first(), fill, id);
    }
}

/// The open quantity of orders is the sum of what is open of each, and that of one
/// order the sum over those with its identifier.
pub proof fn open_quantities_add_up(orders: Seq<Order>, order: Order, id: u64)
    ensures
        priority::open_qty(Seq::<Order>::empty()) == 0,
        priority::open_qty(orders.push(order)) == priority::open_qty(orders) + order.remaining_qty,
        laws::open_for(Seq::<Order>::empty(), id) == 0,
        order.id != id ==> laws::open_for(orders.push(order), id) == laws::open_for(orders, id),
        order.id == id ==> laws::open_for(orders.push(order), id) == laws::open_for(orders, id)
            + order.remaining_qty,
    decreases orders.len(),
{
    let longer = orders.push(order);
    if orders.len() == 0 {
        assert(longer.drop_first() =~= Seq::<Order>::empty());
        assert(longer[0] == order);
        assert(orders =~= Seq::<Order>::empty());
    } else {
        assert(longer.drop_first() =~= orders.drop_first().push(order));
        assert(longer[0] == orders[0]);
        open_quantities_add_up(orders.drop_first(), order, id);
    }
}

// Trades.

/// A buyer pays its price at most, and a seller gets its price at least.
pub proof fn no_trade_is_beyond_the_limit(book: BookState, taker: Order, i: int)
    requires
        book.valid(),
        0 <= i < book.fills(taker).len(),
    ensures
        taker.side == Side::Buy ==> book.fills(taker)[i].price <= taker.price,
        taker.side == Side::Sell ==> book.fills(taker)[i].price >= taker.price,
{
    laws::fills_respect_the_limit(book, taker);
}

/// A buyer below every ask, and a seller above every bid, trades nothing: it comes
/// to rest whole, and the other side stays as it was.
pub proof fn orders_that_meet_nothing_only_rest(book: BookState, taker: Order)
    requires
        book.valid(),
        taker.side == Side::Buy ==> forall|i: int|
            0 <= i < book.asks.len() ==> (#[trigger] book.asks[i]).price > taker.price,
        taker.side == Side::Sell ==> forall|i: int|
            0 <= i < book.bids.len() ==> (#[trigger] book.bids[i]).price < taker.price,
    ensures
        book.fills(taker) == Seq::<Fill>::empty(),
        taker.side == Side::Buy ==> book.submitted(taker).asks == book.asks,
        taker.side == Side::Sell ==> book.submitted(taker).bids == book.bids,
        taker.remaining_qty > 0 ==> match taker.side {
            Side::Buy => book.submitted(taker).bids.contains(taker),
            Side::Sell => book.submitted(taker).asks.contains(taker),
        },
{
    priority::lemma_none_reachable(taker, book.opposite(taker));
    if taker.remaining_qty > 0 {
        let own = book.queue(taker.side);
        let at = priority::place_in(taker.side, own, taker.price);
        crate::levels::lemma_place_bounds(taker.side, own, taker.price);
        assert(book.unmatched(taker) == taker);
        assert(own.insert(at, taker)[at] == taker);
    }
}

/// The fills of a queue, and what they leave of it.
proof fn lemma_makers_left(queue: Seq<Order>, taker_id: u64, volume: int)
    requires
        priority::all_open(queue),
    ensures
        ({
            let fills = priority::fills_for(queue, taker_id, volume);
            let left = priority::after_taking(queue, volume);
            let n = fills.len() as int;
            &&& n <= queue.len()
            &&& n == 0 ==> left == queue
            &&& n > 0 ==> {
                let last = queue[n - 1];
                &&& 0 < fills[n - 1].qty <= last.remaining_qty
                &&& fills[n - 1].qty == last.remaining_qty ==> left == queue.skip(n)
                &&& fills[n - 1].qty < last.remaining_qty ==> left == queue.skip(n - 1).update(
                    0,
                    Order {
                        id: last.id,
                        side: last.side,
                        price: last.price,
                        qty: last.qty,
                        remaining_qty: (last.remaining_qty - fills[n - 1].qty) as u64,
                    },
                )
            }
        }),
    decreases queue.len(),
{
    if volume > 0 && queue.len() > 0 {
        let fills = priority::fills_for(queue, taker_id, volume);
        let left = priority::after_taking(queue, volume);
        let tail = queue.drop_first();
        let behind = volume - queue[0].remaining_qty;
        let rest = priority::fills_for(tail, taker_id, behind);
        priority::lemma_all_open_tail(queue);
        lemma_makers_left(tail, taker_id, behind);
        assert(queue.skip(0) =~= queue);
        assert(queue.skip(1) =~= tail);
        if rest.len() > 0 {
            let n = rest.len() as int;
            assert(fills[n] == rest[n - 1]);
            assert(tail[n - 1] == queue[n]);
            assert(tail.skip(n) =~= queue.skip(n + 1));
            assert(tail.skip(n - 1) =~= queue.skip(n));
        }
    }
}

/// Makers trade in their turn: the fills hit the other side's queue from the front,
/// one maker each, at the maker's price. All makers hit but the last are used up and
/// gone; of the last, what the fill took is gone; behind it nothing changes.
pub proof fn makers_trade_in_turn(book: BookState, taker: Order)
    requires
        book.valid(),
    ensures
        ({
            let makers = match taker.side {
                Side::Buy => book.asks,
                Side::Sell => book.bids,
            };
            let left = match taker.side {
                Side::Buy => book.submitted(taker).asks,
                Side::Sell => book.submitted(taker).bids,
            };
            let fills = book.fills(taker);
            let n = fills.len() as int;
            &&& n <= makers.len()
            &&& forall|i: int|
                0 <= i < n ==> {
                    &&& (#[trigger] fills[i]).maker_order_id == makers[i].id
                    &&& fills[i].taker_order_id == taker.id
                    &&& fills[i].price == makers[i].price
                    &&& 0 < fills[i].qty <= makers[i].remaining_qty
                    &&& i < n - 1 ==> fills[i].qty == makers[i].remaining_qty
                }
            &&& n == 0 ==> left == makers
            &&& n > 0 && fills[n - 1].qty == makers[n - 1].remaining_qty ==> left == makers.skip(n)
            &&& n > 0 && fills[n - 1].qty < makers[n - 1].remaining_qty ==> left == makers.skip(
                n - 1,
            ).update(
                0,
                Order {
                    id: makers[n - 1].id,
                    side: makers[n - 1].side,
                    price: makers[n - 1].price,
                    qty: makers[n - 1].qty,
                    remaining_qty: (makers[n - 1].remaining_qty - fills[n - 1].qty) as u64,
                },
            )
        }),
{
    let makers = book.opposite(taker);
    laws::fills_follow_priority(book, taker);
    lemma_makers_left(makers, taker.id, priority::matched_qty(taker, makers));
}

/// A taker trades until it has all it wants or nothing within its limit is left: it
/// never trades more, and while it wants more, a buyer leaves no ask at its price or
/// below, and a seller no bid at its price or above.
pub proof fn takers_trade_all_they_can(book: BookState, taker: Order)
    requires
        book.valid(),
    ensures
        laws::filled_qty(book.fills(taker)) <= taker.remaining_qty,
        laws::filled_qty(book.fills(taker)) < taker.remaining_qty ==> match taker.side {
            Side::Buy => forall|i: int|
                0 <= i < book.submitted(taker).asks.len() ==> (#[trigger] book.submitted(
                    taker,
                ).asks[i]).price > taker.price,
            Side::Sell => forall|i: int|
                0 <= i < book.submitted(taker).bids.len() ==> (#[trigger] book.submitted(
                    taker,
                ).bids[i]).price < taker.price,
        },
{
    priority::lemma_reachable_bounds(taker, book.opposite(taker));
    laws::fills_balance(book, taker);
    if laws::filled_qty(book.fills(taker)) < taker.remaining_qty {
        laws::takers_rest_only_when_out_of_reach(book, taker);
        let after = book.submitted(taker);
        match taker.side {
            Side::Buy => {
                assert forall|i: int| 0 <= i < after.asks.len() implies (
                #[trigger] after.asks[i]).price > taker.price by {
                    assert(!taker.accepts(after.opposite(taker)[i].price));
                }
            },
            Side::Sell => {
                assert forall|i: int| 0 <= i < after.bids.len() implies (
                #[trigger] after.bids[i]).price < taker.price by {
                    assert(!taker.accepts(after.opposite(taker)[i].price));
                }
            },
        }
    }
}

/// What comes to rest of a buyer is the buyer itself but for what it traded: it keeps
/// identifier, side, price and quantity, and what is open of it is what was open less
/// what its fills traded. It stands among the bids, behind all of its price or more
/// and ahead of all others, which keep their order. A buyer that traded all it had
/// open leaves the bids as they were.
pub proof fn buyers_rest_for_what_they_did_not_trade(book: BookState, taker: Order)
    requires
        book.valid(),
        taker.side == Side::Buy,
    ensures
        ({
            let open = taker.remaining_qty - laws::filled_qty(book.fills(taker));
            let rest = Order {
                id: taker.id,
                side: Side::Buy,
                price: taker.price,
                qty: taker.qty,
                remaining_qty: open as u64,
            };
            &&& 0 <= open <= taker.remaining_qty
            &&& open == 0 ==> book.submitted(taker).bids == book.bids
            &&& open > 0 ==> exists|at: int|
                {
                    &&& 0 <= at <= book.bids.len()
                    &&& book.submitted(taker).bids == #[trigger] book.bids.insert(at, rest)
                    &&& forall|i: int|
                        0 <= i < at ==> (#[trigger] book.bids[i]).price >= taker.price
                    &&& forall|i: int|
                        at <= i < book.bids.len() ==> (#[trigger] book.bids[i]).price < taker.price
                }
        }),
{
    let open = taker.remaining_qty - laws::filled_qty(book.fills(taker));
    let rest = Order {
        id: taker.id,
        side: Side::Buy,
        price: taker.price,
        qty: taker.qty,
        remaining_qty: open as u64,
    };
    let at = priority::place_in(Side::Buy, book.bids, taker.price);
    priority::lemma_reachable_bounds(taker, book.opposite(taker));
    laws::fills_balance(book, taker);
    lemma_filled_nonneg(book.fills(taker));
    priority::lemma_place(Side::Buy, book.bids, taker.price);
    assert(book.unmatched(taker) == rest);
    if open > 0 {
        assert(book.submitted(taker).bids == book.bids.insert(at, rest));
        assert forall|i: int| 0 <= i < at implies (#[trigger] book.bids[i]).price >= taker.price by {
            assert(!priority::outranks(Side::Buy, taker.price, book.bids[i].price));
        }
        assert forall|i: int| at <= i < book.bids.len() implies (#[trigger] book.bids[i]).price
            < taker.price by {
            assert(priority::outranks(Side::Buy, taker.price, book.bids[i].price));
        }
    }
}

/// What comes to rest of a seller is the seller itself but for what it traded: it
/// keeps identifier, side, price and quantity, and what is open of it is what was open
/// less what its fills traded. It stands among the asks, behind all of its price or
/// less and ahead of all others, which keep their order. A seller that traded all it
/// had open leaves the asks as they were.
pub proof fn sellers_rest_for_what_they_did_not_trade(book: BookState, taker: Order)
    requires
        book.valid(),
        taker.side == Side::Sell,
    ensures
        ({
            let open = taker.remaining_qty - laws::filled_qty(book.fills(taker));
            let rest = Order {
                id: taker.id,
                side: Side::Sell,
                price: taker.price,
                qty: taker.qty,
                remaining_qty: open as u64,
            };
            &&& 0 <= open <= taker.remaining_qty
            &&& open == 0 ==> book.submitted(taker).asks == book.asks
            &&& open > 0 ==> exists|at: int|
                {
                    &&& 0 <= at <= book.asks.len()
                    &&& book.submitted(taker).asks == #[trigger] book.asks.insert(at, rest)
                    &&& forall|i: int|
                        0 <= i < at ==> (#[trigger] book.asks[i]).price <= taker.price
                    &&& forall|i: int|
                        at <= i < book.asks.len() ==> (#[trigger] book.asks[i]).price > taker.price
                }
        }),
{
    let open = taker.remaining_qty - laws::filled_qty(book.fills(taker));
    let rest = Order {
        id: taker.id,
        side: Side::Sell,
        price: taker.price,
        qty: taker.qty,
        remaining_qty: open as u64,
    };
    let at = priority::place_in(Side::Sell, book.asks, taker.price);
    priority::lemma_reachable_bounds(taker, book.opposite(taker));
    laws::fills_balance(book, taker);
    lemma_filled_nonneg(book.fills(taker));
    priority::lemma_place(Side::Sell, book.asks, taker.price);
    assert(book.unmatched(taker) == rest);
    if open > 0 {
        assert(book.submitted(taker).asks == book.asks.insert(at, rest));
        assert forall|i: int| 0 <= i < at implies (#[trigger] book.asks[i]).price <= taker.price by {
            assert(!priority::outranks(Side::Sell, taker.price, book.asks[i].price));
        }
        assert forall|i: int| at <= i < book.asks.len() implies (#[trigger] book.asks[i]).price
            > taker.price by {
            assert(priority::outranks(Side::Sell, taker.price, book.asks[i].price));
        }
    }
}

proof fn lemma_filled_nonneg(fills: Seq<Fill>)
    ensures
        laws::filled_qty(fills) >= 0,
    decreases fills.len(),
{
    if fills.len() > 0 {
        lemma_filled_nonneg(fills.drop_first());
    }
}

// Snapshots.

proof fn lemma_listed_flattens(levels: Seq<BookLevel>, orders: Seq<Seq<PublicOrder>>)
    requires
        orders.len() == levels.len(),
        forall|i: int| 0 <= i < levels.len() ==> #[trigger] orders[i] == levels[i].orders@,
    ensures
        orders.flatten() == snapshot::listed(levels),
    decreases levels.len(),
{
    if levels.len() > 0 {
        assert(orders[0] == levels[0].orders@);
        assert forall|i: int| 0 <= i < levels.drop_first().len() implies
        #[trigger] orders.drop_first()[i] == levels.drop_first()[i].orders@ by {
            assert(orders[i + 1] == levels[i + 1].orders@);
        }
        lemma_listed_flattens(levels.drop_first(), orders.drop_first());
    }
}

proof fn lemma_shown_in_place(side: Side, queue: Seq<Order>, levels: Seq<BookLevel>)
    requires
        snapshot::shows(side, queue, levels),
    ensures
        ({
            let listed = levels.map_values(|level: BookLevel| level.orders@).flatten();
            &&& listed.len() == queue.len()
            &&& forall|i: int|
                0 <= i < queue.len() ==> {
                    &&& (#[trigger] listed[i]).id == queue[i].id
                    &&& listed[i].side == queue[i].side
                    &&& listed[i].price == queue[i].price
                    &&& listed[i].qty == queue[i].remaining_qty
                }
        }),
{
    lemma_listed_flattens(levels, levels.map_values(|level: BookLevel| level.orders@));
    assert(snapshot::listed(levels) == queue.map_values(|order: Order| snapshot::shown(order)));
}

/// A snapshot shows each resting order in its place: read level by level, the bids
/// are the buy orders of the book, all of them and in their order, and the asks its
/// sell orders, each with its identifier, side, price and open quantity.
pub proof fn snapshots_show_every_order(book: BookState, shown: OrderBookSnapshot)
    requires
        book.valid(),
        shown.is_of(book),
    ensures
        ({
            let bids = shown.bids@.map_values(|level: BookLevel| level.orders@).flatten();
            let asks = shown.asks@.map_values(|level: BookLevel| level.orders@).flatten();
            &&& bids.len() == book.bids.len()
            &&& asks.len() == book.asks.len()
            &&& forall|i: int|
                0 <= i < bids.len() ==> {
                    &&& (#[trigger] bids[i]).id == book.bids[i].id
                    &&& bids[i].side == Side::Buy
                    &&& bids[i].side == book.bids[i].side
                    &&& bids[i].price == book.bids[i].price
                    &&& bids[i].qty == book.bids[i].remaining_qty
                }
            &&& forall|i: int|
                0 <= i < asks.len() ==> {
                    &&& (#[trigger] asks[i]).id == book.asks[i].id
                    &&& asks[i].side == Side::Sell
                    &&& asks[i].side == book.asks[i].side
                    &&& asks[i].price == book.asks[i].price
                    &&& asks[i].qty == book.asks[i].remaining_qty
                }
        }),
{
    lemma_shown_in_place(Side::Buy, book.bids, shown.bids@);
    lemma_shown_in_place(Side::Sell, book.asks, shown.asks@);
    valid_books_are_in_order(book);
}

/// A snapshot has one level for each price, none of them empty: bids from the highest
/// price down, asks from the lowest up, each level with orders of its price alone.
pub proof fn snapshots_have_one_level_for_each_price(book: BookState, shown: OrderBookSnapshot)
    requires
        shown.is_of(book),
    ensures
        forall|i: int| 0 <= i < shown.bids@.len() ==> (#[trigger] shown.bids@[i]).orders@.len() > 0,
        forall|i: int| 0 <= i < shown.asks@.len() ==> (#[trigger] shown.asks@[i]).orders@.len() > 0,
        forall|i: int, k: int|
            0 <= i < shown.bids@.len() && 0 <= k < shown.bids@[i].orders@.len() ==> (
            #[trigger] shown.bids@[i].orders@[k]).price == shown.bids@[i].price,
        forall|i: int, k: int|
            0 <= i < shown.asks@.len() && 0 <= k < shown.asks@[i].orders@.len() ==> (
            #[trigger] shown.asks@[i].orders@[k]).price == shown.asks@[i].price,
        forall|i: int, j: int|
            0 <= i < j < shown.bids@.len() ==> (#[trigger] shown.bids@[i]).price > (
            #[trigger] shown.bids@[j]).price,
        forall|i: int, j: int|
            0 <= i < j < shown.asks@.len() ==> (#[trigger] shown.asks@[i]).price < (
            #[trigger] shown.asks@[j]).price,
{
    assert forall|i: int, j: int| 0 <= i < j < shown.bids@.len() implies (
    #[trigger] shown.bids@[i]).price > (#[trigger] shown.bids@[j]).price by {
        assert(priority::outranks(Side::Buy, shown.bids@[i].price, shown.bids@[j].price));
    }
    assert forall|i: int, j: int| 0 <= i < j < shown.asks@.len() implies (
    #[trigger] shown.asks@[i]).price < (#[trigger] shown.asks@[j]).price by {
        assert(priority::outranks(Side::Sell, shown.asks@[i].price, shown.asks@[j].price));
    }
}

} // verus!
