//! Laws of the matcher: what holds of every submission, and of every history
//! of submissions.

use vstd::prelude::*;

use crate::order::{Fill, Order, Side};
use crate::priority;
use crate::priority::BookState;
use crate::snapshot;
use crate::snapshot::{BookLevel, PublicOrder};

verus! {

/// The quantity that fills trade together.
pub open spec fn filled_qty(fills: Seq<Fill>) -> int
    decreases fills.len(),
{
    if fills.len() == 0 {
        0
    } else {
        fills[0].qty + filled_qty(fills.drop_first())
    }
}

/// The quantity that fills trade for the order `id`, be it maker or taker.
pub open spec fn filled_for(fills: Seq<Fill>, id: u64) -> int
    decreases fills.len(),
{
    if fills.len() == 0 {
        0
    } else {
        (if fills[0].maker_order_id == id {
            fills[0].qty as int
        } else {
            0
        }) + (if fills[0].taker_order_id == id {
            fills[0].qty as int
        } else {
            0
        }) + filled_for(fills.drop_first(), id)
    }
}

/// The open quantity of the orders with the identifier `id`.
pub open spec fn open_for(orders: Seq<Order>, id: u64) -> int
    decreases orders.len(),
{
    if orders.len() == 0 {
        0
    } else {
        (if orders[0].id == id {
            orders[0].remaining_qty as int
        } else {
            0
        }) + open_for(orders.drop_first(), id)
    }
}

/// The open quantity that a book holds of the order `id`.
pub open spec fn held_for(book: BookState, id: u64) -> int {
    open_for(book.bids, id) + open_for(book.asks, id)
}

/// The book that a history of submissions leads to, from the empty book.
pub open spec fn book_after(orders: Seq<Order>) -> BookState
    decreases orders.len(),
{
    if orders.len() == 0 {
        BookState::empty()
    } else {
        book_after(orders.drop_last()).submitted(orders.last())
    }
}

/// All fills of a history of submissions, in the order they happened.
pub open spec fn fills_of(orders: Seq<Order>) -> Seq<Fill>
    decreases orders.len(),
{
    if orders.len() == 0 {
        Seq::empty()
    } else {
        fills_of(orders.drop_last()) + book_after(orders.drop_last()).fills(orders.last())
    }
}

// Quantities.

proof fn lemma_taking_balances(queue: Seq<Order>, taker_id: u64, volume: int)
    requires
        0 <= volume <= priority::open_qty(queue),
    ensures
        filled_qty(priority::fills_for(queue, taker_id, volume)) == volume,
        priority::open_qty(priority::after_taking(queue, volume)) == priority::open_qty(queue)
            - volume,
    decreases queue.len(),
{
    if volume > 0 && queue.len() > 0 {
        let fills = priority::fills_for(queue, taker_id, volume);
        let tail = queue.drop_first();
        let left = volume - queue[0].remaining_qty;
        priority::lemma_open_qty_nonneg(tail);
        assert(fills.drop_first() =~= priority::fills_for(tail, taker_id, left));
        if left >= 0 {
            lemma_taking_balances(tail, taker_id, left);
        } else {
            assert(filled_qty(fills.drop_first()) == 0);
            let after = priority::after_taking(queue, volume);
            assert(after.drop_first() =~= tail);
        }
    }
}

/// Quantity is neither made nor lost: what a taker trades is what it no longer
/// wants, and what the opposite side no longer offers.
pub proof fn fills_balance(book: BookState, taker: Order)
    ensures
        filled_qty(book.fills(taker)) + book.unmatched(taker).remaining_qty == taker.remaining_qty,
        priority::open_qty(book.matched(taker).opposite(taker)) == priority::open_qty(
            book.opposite(taker),
        ) - filled_qty(book.fills(taker)),
{
    let opposite = book.opposite(taker);
    priority::lemma_reachable_bounds(taker, opposite);
    lemma_taking_balances(opposite, taker.id, priority::matched_qty(taker, opposite));
}

proof fn lemma_taking_balances_for(queue: Seq<Order>, taker_id: u64, volume: int, id: u64)
    requires
        0 <= volume <= priority::open_qty(queue),
    ensures
        filled_for(priority::fills_for(queue, taker_id, volume), id) + open_for(
            priority::after_taking(queue, volume),
            id,
        ) == open_for(queue, id) + if taker_id == id {
            volume
        } else {
            0
        },
    decreases queue.len(),
{
    if volume > 0 && queue.len() > 0 {
        let fills = priority::fills_for(queue, taker_id, volume);
        let tail = queue.drop_first();
        let left = volume - queue[0].remaining_qty;
        priority::lemma_open_qty_nonneg(tail);
        assert(fills.drop_first() =~= priority::fills_for(tail, taker_id, left));
        if left >= 0 {
            lemma_taking_balances_for(tail, taker_id, left, id);
        } else {
            assert(filled_for(fills.drop_first(), id) == 0);
            let after = priority::after_taking(queue, volume);
            assert(after.drop_first() =~= tail);
        }
    }
}

proof fn lemma_insert_holds(queue: Seq<Order>, at: int, order: Order, id: u64)
    requires
        0 <= at <= queue.len(),
    ensures
        open_for(queue.insert(at, order), id) == open_for(queue, id) + if order.id == id {
            order.remaining_qty as int
        } else {
            0
        },
    decreases queue.len(),
{
    let after = queue.insert(at, order);
    if at == 0 {
        assert(after.drop_first() =~= queue);
    } else {
        assert(after.drop_first() =~= queue.drop_first().insert(at - 1, order));
        lemma_insert_holds(queue.drop_first(), at - 1, order, id);
    }
}

/// A submission accounts for every order, whatever its identifier: what it
/// brought in and what the book held of it is what was traded for it and what
/// the book holds now.
pub proof fn submission_accounts_for_each_order(book: BookState, taker: Order, id: u64)
    ensures
        filled_for(book.fills(taker), id) + held_for(book.submitted(taker), id) == held_for(
            book,
            id,
        ) + if taker.id == id {
            taker.remaining_qty as int
        } else {
            0
        },
{
    let opposite = book.opposite(taker);
    let own = book.queue(taker.side);
    let rest = book.unmatched(taker);
    priority::lemma_reachable_bounds(taker, opposite);
    lemma_taking_balances_for(opposite, taker.id, priority::matched_qty(taker, opposite), id);
    crate::levels::lemma_place_bounds(taker.side, own, taker.price);
    lemma_insert_holds(own, priority::place_in(taker.side, own, taker.price), rest, id);
}

proof fn lemma_filled_concat(a: Seq<Fill>, b: Seq<Fill>, id: u64)
    ensures
        filled_for(a + b, id) == filled_for(a, id) + filled_for(b, id),
    decreases a.len(),
{
    if a.len() == 0 {
        assert(a + b =~= b);
    } else {
        assert((a + b).drop_first() =~= a.drop_first() + b);
        lemma_filled_concat(a.drop_first(), b, id);
    }
}

proof fn lemma_open_for_last(orders: Seq<Order>, id: u64)
    requires
        orders.len() > 0,
    ensures
        open_for(orders, id) == open_for(orders.drop_last(), id) + if orders.last().id == id {
            orders.last().remaining_qty as int
        } else {
            0
        },
    decreases orders.len(),
{
    if orders.len() > 1 {
        assert(orders.drop_first().drop_last() =~= orders.drop_last().drop_first());
        lemma_open_for_last(orders.drop_first(), id);
    } else {
        assert(orders.drop_first() =~= Seq::<Order>::empty());
        assert(orders.drop_last() =~= Seq::<Order>::empty());
    }
}

/// No quantity is matched twice: over any history, what was submitted under an
/// identifier is what was traded for it and what still rests, to the unit.
pub proof fn history_accounts_for_each_order(orders: Seq<Order>, id: u64)
    ensures
        filled_for(fills_of(orders), id) + held_for(book_after(orders), id) == open_for(orders, id),
    decreases orders.len(),
{
    if orders.len() > 0 {
        let before = orders.drop_last();
        let book = book_after(before);
        history_accounts_for_each_order(before, id);
        submission_accounts_for_each_order(book, orders.last(), id);
        lemma_filled_concat(fills_of(before), book.fills(orders.last()), id);
        lemma_open_for_last(orders, id);
    }
}

proof fn lemma_insert_opens(queue: Seq<Order>, at: int, order: Order)
    requires
        0 <= at <= queue.len(),
    ensures
        priority::open_qty(queue.insert(at, order)) == priority::open_qty(queue)
            + order.remaining_qty,
    decreases queue.len(),
{
    let after = queue.insert(at, order);
    if at == 0 {
        assert(after.drop_first() =~= queue);
    } else {
        assert(after.drop_first() =~= queue.drop_first().insert(at - 1, order));
        lemma_insert_opens(queue.drop_first(), at - 1, order);
    }
}

proof fn lemma_filled_qty_concat(a: Seq<Fill>, b: Seq<Fill>)
    ensures
        filled_qty(a + b) == filled_qty(a) + filled_qty(b),
    decreases a.len(),
{
    if a.len() == 0 {
        assert(a + b =~= b);
    } else {
        assert((a + b).drop_first() =~= a.drop_first() + b);
        lemma_filled_qty_concat(a.drop_first(), b);
    }
}

/// Quantity is conserved: over any history, what all orders together came with is
/// what still rests and, as a fill takes from two orders, twice what was traded.
pub proof fn history_conserves_quantity(orders: Seq<Order>)
    ensures
        2 * filled_qty(fills_of(orders)) + priority::open_qty(book_after(orders).bids)
            + priority::open_qty(book_after(orders).asks) == priority::open_qty(orders),
    decreases orders.len(),
{
    if orders.len() > 0 {
        let before = orders.drop_last();
        let taker = orders.last();
        let book = book_after(before);
        let own = book.queue(taker.side);
        history_conserves_quantity(before);
        fills_balance(book, taker);
        lemma_filled_qty_concat(fills_of(before), book.fills(taker));
        crate::levels::lemma_place_bounds(taker.side, own, taker.price);
        lemma_insert_opens(
            own,
            priority::place_in(taker.side, own, taker.price),
            book.unmatched(taker),
        );
        lemma_insert_opens(before, before.len() as int, taker);
        assert(before.insert(before.len() as int, taker) =~= orders);
    }
}

proof fn lemma_open_for_nonneg(orders: Seq<Order>, id: u64)
    ensures
        open_for(orders, id) >= 0,
    decreases orders.len(),
{
    if orders.len() > 0 {
        lemma_open_for_nonneg(orders.drop_first(), id);
    }
}

pub(crate) proof fn lemma_open_for_unique(orders: Seq<Order>, n: int)
    requires
        0 <= n < orders.len(),
        forall|i: int|
            0 <= i < orders.len() && i != n ==> (#[trigger] orders[i]).id != orders[n].id,
    ensures
        open_for(orders, orders[n].id) == orders[n].remaining_qty,
    decreases orders.len(),
{
    let id = orders[n].id;
    let tail = orders.drop_first();
    if n == 0 {
        assert forall|i: int| 0 <= i < tail.len() implies (#[trigger] tail[i]).id != id by {
            assert(tail[i] == orders[i + 1]);
        }
        lemma_open_for_absent(tail, id);
    } else {
        assert(orders[0].id != id);
        assert forall|i: int| 0 <= i < tail.len() && i != n - 1 implies (#[trigger] tail[i]).id
            != tail[n - 1].id by {
            assert(tail[i] == orders[i + 1]);
        }
        lemma_open_for_unique(tail, n - 1);
    }
}

proof fn lemma_open_for_absent(orders: Seq<Order>, id: u64)
    requires
        forall|i: int| 0 <= i < orders.len() ==> (#[trigger] orders[i]).id != id,
    ensures
        open_for(orders, id) == 0,
    decreases orders.len(),
{
    if orders.len() > 0 {
        assert(orders[0].id != id);
        let tail = orders.drop_first();
        assert forall|i: int| 0 <= i < tail.len() implies (#[trigger] tail[i]).id != id by {
            assert(tail[i] == orders[i + 1]);
        }
        lemma_open_for_absent(tail, id);
    }
}

/// An order whose identifier no other order has is never traded beyond the
/// quantity it came with, over all fills of a history together.
pub proof fn no_order_is_overfilled(orders: Seq<Order>, n: int)
    requires
        0 <= n < orders.len(),
        forall|i: int|
            0 <= i < orders.len() && i != n ==> (#[trigger] orders[i]).id != orders[n].id,
    ensures
        filled_for(fills_of(orders), orders[n].id) <= orders[n].remaining_qty,
{
    let id = orders[n].id;
    history_accounts_for_each_order(orders, id);
    lemma_open_for_unique(orders, n);
    lemma_open_for_nonneg(book_after(orders).bids, id);
    lemma_open_for_nonneg(book_after(orders).asks, id);
}

/// Every history leads to a valid book: both queues in price-time priority,
/// every resting order open, and no bid at or above an ask.
pub proof fn every_history_leads_to_a_valid_book(orders: Seq<Order>)
    ensures
        book_after(orders).valid(),
    decreases orders.len(),
{
    if orders.len() > 0 {
        every_history_leads_to_a_valid_book(orders.drop_last());
        priority::submission_keeps_books_valid(book_after(orders.drop_last()), orders.last());
    }
}

// Priority.

proof fn lemma_fills_in_turn(queue: Seq<Order>, taker_id: u64, volume: int)
    requires
        priority::all_open(queue),
    ensures
        ({
            let fills = priority::fills_for(queue, taker_id, volume);
            &&& fills.len() <= queue.len()
            &&& forall|i: int|
                0 <= i < fills.len() ==> {
                    &&& (#[trigger] fills[i]).maker_order_id == queue[i].id
                    &&& fills[i].taker_order_id == taker_id
                    &&& fills[i].price == queue[i].price
                    &&& 0 < fills[i].qty <= queue[i].remaining_qty
                    &&& i < fills.len() - 1 ==> fills[i].qty == queue[i].remaining_qty
                }
        }),
    decreases queue.len(),
{
    if volume > 0 && queue.len() > 0 {
        let fills = priority::fills_for(queue, taker_id, volume);
        let tail = queue.drop_first();
        let left = volume - queue[0].remaining_qty;
        let rest = priority::fills_for(tail, taker_id, left);
        priority::lemma_all_open_tail(queue);
        lemma_fills_in_turn(tail, taker_id, left);
        assert forall|i: int| 0 <= i < fills.len() implies {
            &&& (#[trigger] fills[i]).maker_order_id == queue[i].id
            &&& fills[i].taker_order_id == taker_id
            &&& fills[i].price == queue[i].price
            &&& 0 < fills[i].qty <= queue[i].remaining_qty
            &&& i < fills.len() - 1 ==> fills[i].qty == queue[i].remaining_qty
        } by {
            if i > 0 {
                assert(fills[i] == rest[i - 1]);
                assert(tail[i - 1] == queue[i]);
            }
        }
    }
}

proof fn lemma_fills_within_reach(taker: Order, queue: Seq<Order>, volume: int)
    requires
        priority::queue_valid(taker.side.opposite(), queue),
        volume <= priority::reachable_qty(taker, queue),
    ensures
        forall|i: int|
            0 <= i < priority::fills_for(queue, taker.id, volume).len() ==> taker.accepts(
                (#[trigger] priority::fills_for(queue, taker.id, volume)[i]).price,
            ),
    decreases queue.len(),
{
    if volume > 0 && queue.len() > 0 {
        let fills = priority::fills_for(queue, taker.id, volume);
        let tail = queue.drop_first();
        let left = volume - queue[0].remaining_qty;
        let rest = priority::fills_for(tail, taker.id, left);
        priority::lemma_queue_tail_valid(taker.side.opposite(), queue);
        if !taker.accepts(queue[0].price) {
            priority::lemma_front_decides(taker, queue);
        }
        lemma_fills_within_reach(taker, tail, left);
        assert forall|i: int| 0 <= i < fills.len() implies taker.accepts(
            (#[trigger] fills[i]).price,
        ) by {
            if i > 0 {
                assert(fills[i] == rest[i - 1]);
            }
        }
    }
}

/// Price-time priority: the fills hit the opposite queue in its order, from the
/// front, each at the price of its maker and for a quantity of its own; only the
/// maker hit last can be left partly filled, and fills go from better prices to
/// worse ones.
pub proof fn fills_follow_priority(book: BookState, taker: Order)
    requires
        book.valid(),
    ensures
        ({
            let fills = book.fills(taker);
            let queue = book.opposite(taker);
            &&& fills.len() <= queue.len()
            &&& forall|i: int|
                0 <= i < fills.len() ==> {
                    &&& (#[trigger] fills[i]).maker_order_id == queue[i].id
                    &&& fills[i].taker_order_id == taker.id
                    &&& fills[i].price == queue[i].price
                    &&& 0 < fills[i].qty <= queue[i].remaining_qty
                    &&& i < fills.len() - 1 ==> fills[i].qty == queue[i].remaining_qty
                }
            &&& forall|i: int, j: int|
                0 <= i < j < fills.len() ==> !priority::outranks(
                    taker.side.opposite(),
                    (#[trigger] fills[j]).price,
                    (#[trigger] fills[i]).price,
                )
        }),
{
    let queue = book.opposite(taker);
    let fills = book.fills(taker);
    lemma_fills_in_turn(queue, taker.id, priority::matched_qty(taker, queue));
    assert forall|i: int, j: int| 0 <= i < j < fills.len() implies !priority::outranks(
        taker.side.opposite(),
        (#[trigger] fills[j]).price,
        (#[trigger] fills[i]).price,
    ) by {
        assert(!priority::outranks(taker.side.opposite(), queue[j].price, queue[i].price));
    }
}

/// A buyer never pays more than its limit, and a seller never gets less.
pub proof fn fills_respect_the_limit(book: BookState, taker: Order)
    requires
        book.valid(),
    ensures
        forall|i: int|
            0 <= i < book.fills(taker).len() ==> taker.accepts(
                (#[trigger] book.fills(taker)[i]).price,
            ),
{
    let queue = book.opposite(taker);
    lemma_fills_within_reach(taker, queue, priority::matched_qty(taker, queue));
}

/// A taker rests only where nothing is left that it could trade with.
pub proof fn takers_rest_only_when_out_of_reach(book: BookState, taker: Order)
    requires
        book.valid(),
        book.unmatched(taker).remaining_qty > 0,
    ensures
        forall|i: int|
            0 <= i < book.submitted(taker).opposite(taker).len() ==> !taker.accepts(
                (#[trigger] book.submitted(taker).opposite(taker)[i]).price,
            ),
{
    let queue = book.opposite(taker);
    priority::lemma_reachable_bounds(taker, queue);
    priority::lemma_reach_exhausts(taker, queue);
    assert(book.submitted(taker).opposite(taker) == priority::after_taking(
        queue,
        priority::reachable_qty(taker, queue),
    ));
}

/// Time priority: an order that comes to rest stands behind every order of its
/// price or better and ahead of every order of a worse price, and the orders
/// that were there keep their order.
pub proof fn newcomers_line_up_last_at_their_price(book: BookState, taker: Order)
    requires
        book.valid(),
        book.unmatched(taker).remaining_qty > 0,
    ensures
        ({
            let before = book.queue(taker.side);
            let after = book.submitted(taker).queue(taker.side);
            let at = priority::place_in(taker.side, before, taker.price);
            &&& 0 <= at <= before.len()
            &&& after.len() == before.len() + 1
            &&& after[at] == book.unmatched(taker)
            &&& after.remove(at) == before
            &&& forall|i: int|
                0 <= i < at ==> !priority::outranks(
                    taker.side,
                    taker.price,
                    (#[trigger] after[i]).price,
                )
            &&& forall|i: int|
                at < i < after.len() ==> priority::outranks(
                    taker.side,
                    taker.price,
                    (#[trigger] after[i]).price,
                )
        }),
{
    let before = book.queue(taker.side);
    let after = book.submitted(taker).queue(taker.side);
    let at = priority::place_in(taker.side, before, taker.price);
    priority::lemma_place(taker.side, before, taker.price);
    assert(after == before.insert(at, book.unmatched(taker)));
    assert(after.remove(at) =~= before);
    assert forall|i: int| at < i < after.len() implies priority::outranks(
        taker.side,
        taker.price,
        (#[trigger] after[i]).price,
    ) by {
        assert(after[i] == before[i - 1]);
    }
}

/// A taker that is filled whole leaves its own side of the book as it was.
pub proof fn filled_takers_leave_their_side_alone(book: BookState, taker: Order)
    requires
        book.unmatched(taker).remaining_qty == 0,
    ensures
        book.submitted(taker).queue(taker.side) == book.queue(taker.side),
{
}

/// Makers that are not exhausted stay, in their order, and all but the first of
/// them untouched; the first has lost open quantity at most.
pub proof fn makers_keep_their_turn(book: BookState, taker: Order)
    requires
        book.valid(),
    ensures
        ({
            let before = book.opposite(taker);
            let after = book.submitted(taker).opposite(taker);
            let gone = before.len() - after.len();
            &&& gone >= 0
            &&& forall|i: int| 0 < i < after.len() ==> #[trigger] after[i] == before[gone + i]
            &&& after.len() > 0 ==> {
                &&& after[0] == before[gone].with_remaining(after[0].remaining_qty as int)
                &&& 0 < after[0].remaining_qty <= before[gone].remaining_qty
            }
        }),
{
    let before = book.opposite(taker);
    let volume = priority::matched_qty(taker, before);
    priority::lemma_after_shape(before, volume);
    assert(book.submitted(taker).opposite(taker) == priority::after_taking(before, volume));
}

/// An order with nothing open does nothing.
pub proof fn empty_orders_change_nothing(book: BookState, taker: Order)
    requires
        taker.remaining_qty == 0,
    ensures
        book.fills(taker) == Seq::<Fill>::empty(),
        book.submitted(taker) == book,
{
    priority::lemma_reachable_bounds(taker, book.opposite(taker));
}

// Snapshots.

proof fn lemma_listed_nonempty(levels: Seq<BookLevel>)
    requires
        levels.len() > 0,
        levels[0].orders@.len() > 0,
    ensures
        snapshot::listed(levels).len() > 0,
        snapshot::listed(levels)[0] == levels[0].orders@[0],
{
}

/// The place in the list where the first level ends.
proof fn lemma_first_level_ends(side: Side, levels: Seq<BookLevel>)
    requires
        levels.len() > 0,
        snapshot::ladder(side, levels),
    ensures
        forall|i: int|
            0 <= i < levels[0].orders@.len() ==> (#[trigger] snapshot::listed(levels)[i]).price
                == levels[0].price,
        levels[0].orders@.len() < snapshot::listed(levels).len() ==> snapshot::listed(
            levels,
        )[levels[0].orders@.len() as int].price != levels[0].price,
{
    let first = levels[0].orders@;
    let tail = levels.drop_first();
    assert forall|i: int| 0 <= i < first.len() implies (#[trigger] snapshot::listed(
        levels,
    )[i]).price == levels[0].price by {
        assert(snapshot::listed(levels)[i] == levels[0].orders@[i]);
    }
    if tail.len() > 0 {
        assert(tail[0] == levels[1]);
        lemma_listed_nonempty(tail);
        assert(snapshot::listed(levels)[first.len() as int] == levels[1].orders@[0]);
        assert(levels[1].orders@[0].price == levels[1].price);
        assert(priority::outranks(side, levels[0].price, levels[1].price));
    } else {
        assert(snapshot::listed(tail) =~= Seq::<PublicOrder>::empty());
    }
}

proof fn lemma_ladder_tail(side: Side, levels: Seq<BookLevel>)
    requires
        levels.len() > 0,
        snapshot::ladder(side, levels),
    ensures
        snapshot::ladder(side, levels.drop_first()),
{
    let tail = levels.drop_first();
    assert forall|i: int| 0 <= i < tail.len() implies (#[trigger] tail[i]).orders@.len() > 0 by {
        assert(tail[i] == levels[i + 1]);
    }
    assert forall|i: int, k: int|
        0 <= i < tail.len() && 0 <= k < tail[i].orders@.len() implies (
    #[trigger] tail[i].orders@[k]).price == tail[i].price by {
        assert(tail[i] == levels[i + 1]);
        assert(levels[i + 1].orders@[k].price == levels[i + 1].price);
    }
    assert forall|i: int, j: int| 0 <= i < j < tail.len() implies priority::outranks(
        side,
        (#[trigger] tail[i]).price,
        (#[trigger] tail[j]).price,
    ) by {
        assert(tail[i] == levels[i + 1]);
        assert(tail[j] == levels[j + 1]);
    }
}

proof fn lemma_ladders_agree(side: Side, a: Seq<BookLevel>, b: Seq<BookLevel>)
    requires
        snapshot::ladder(side, a),
        snapshot::ladder(side, b),
        snapshot::listed(a) == snapshot::listed(b),
    ensures
        a.len() == b.len(),
        forall|i: int|
            0 <= i < a.len() ==> (#[trigger] a[i]).price == b[i].price && a[i].orders@
                == b[i].orders@,
    decreases a.len(),
{
    if a.len() == 0 || b.len() == 0 {
        if a.len() > 0 {
            lemma_listed_nonempty(a);
        }
        if b.len() > 0 {
            lemma_listed_nonempty(b);
        }
    } else {
        let list = snapshot::listed(a);
        let n = a[0].orders@.len() as int;
        let m = b[0].orders@.len() as int;
        lemma_listed_nonempty(a);
        lemma_listed_nonempty(b);
        lemma_first_level_ends(side, a);
        lemma_first_level_ends(side, b);
        assert(list[0].price == a[0].price);
        assert(list[0].price == b[0].price);
        if n < m {
            assert(list[n].price == b[0].price);
        }
        if m < n {
            assert(list[m].price == a[0].price);
        }
        assert(list.subrange(0, n) =~= a[0].orders@);
        assert(list.subrange(0, m) =~= b[0].orders@);
        assert(list.subrange(n, list.len() as int) =~= snapshot::listed(a.drop_first()));
        assert(list.subrange(m, list.len() as int) =~= snapshot::listed(b.drop_first()));
        lemma_ladder_tail(side, a);
        lemma_ladder_tail(side, b);
        lemma_ladders_agree(side, a.drop_first(), b.drop_first());
        assert forall|i: int| 0 <= i < a.len() implies (#[trigger] a[i]).price == b[i].price
            && a[i].orders@ == b[i].orders@ by {
            if i > 0 {
                assert(a.drop_first()[i - 1] == a[i]);
                assert(b.drop_first()[i - 1] == b[i]);
            }
        }
    }
}

/// A queue can be shown in one way only: its snapshots have the same levels,
/// with the same prices and the same orders.
pub proof fn snapshots_are_determined(
    side: Side,
    queue: Seq<Order>,
    a: Seq<BookLevel>,
    b: Seq<BookLevel>,
)
    requires
        snapshot::shows(side, queue, a),
        snapshot::shows(side, queue, b),
    ensures
        a.len() == b.len(),
        forall|i: int|
            0 <= i < a.len() ==> (#[trigger] a[i]).price == b[i].price && a[i].orders@
                == b[i].orders@,
{
    lemma_ladders_agree(side, a, b);
}

/// The quantity that a list of shown orders offers.
pub open spec fn offered_qty(orders: Seq<PublicOrder>) -> int
    decreases orders.len(),
{
    if orders.len() == 0 {
        0
    } else {
        orders[0].qty + offered_qty(orders.drop_first())
    }
}

proof fn lemma_offered(queue: Seq<Order>)
    ensures
        offered_qty(queue.map_values(|order: Order| snapshot::shown(order)))
            == priority::open_qty(queue),
    decreases queue.len(),
{
    let f = |order: Order| snapshot::shown(order);
    if queue.len() > 0 {
        lemma_offered(queue.drop_first());
        assert(queue.map_values(f).drop_first() =~= queue.drop_first().map_values(f));
    }
}

/// A snapshot offers what is open: on each side, the quantities it shows add up
/// to the open quantity of the queue.
pub proof fn snapshots_offer_what_is_open(side: Side, queue: Seq<Order>, levels: Seq<BookLevel>)
    requires
        snapshot::shows(side, queue, levels),
    ensures
        offered_qty(snapshot::listed(levels)) == priority::open_qty(queue),
{
    lemma_offered(queue);
}

} // verus!
