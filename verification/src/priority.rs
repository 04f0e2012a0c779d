//! The mathematical model of a book: each side is one queue of resting orders,
//! best price first and, at one price, oldest first. An incoming order eats
//! quantity off the front of the opposite queue and then joins its own.

use vstd::prelude::*;

use crate::order::{Fill, Order, Side};

verus! {

/// Whether price `p` has strict priority over price `q` among the resting
/// orders of `side`: the higher bid, the lower ask.
pub open spec fn outranks(side: Side, p: u64, q: u64) -> bool {
    match side {
        Side::Buy => p > q,
        Side::Sell => p < q,
    }
}

/// A queue holds open orders of one side, and no order stands behind one of
/// a worse price.
pub open spec fn queue_valid(side: Side, queue: Seq<Order>) -> bool {
    &&& forall|i: int|
        0 <= i < queue.len() ==> (#[trigger] queue[i]).side == side && queue[i].remaining_qty > 0
    &&& forall|i: int, j: int|
        0 <= i < j < queue.len() ==> !outranks(
            side,
            (#[trigger] queue[j]).price,
            (#[trigger] queue[i]).price,
        )
}

/// The open quantity of all orders of a queue together.
pub open spec fn open_qty(queue: Seq<Order>) -> int
    decreases queue.len(),
{
    if queue.len() == 0 {
        0
    } else {
        queue[0].remaining_qty + open_qty(queue.drop_first())
    }
}

/// The open quantity of the orders at whose prices `taker` accepts to trade.
pub open spec fn reachable_qty(taker: Order, queue: Seq<Order>) -> int
    decreases queue.len(),
{
    if queue.len() == 0 {
        0
    } else {
        (if taker.accepts(queue[0].price) {
            queue[0].remaining_qty as int
        } else {
            0
        }) + reachable_qty(taker, queue.drop_first())
    }
}

/// The quantity that `taker` trades against `queue`: what it wants, as far as
/// its limit lets it reach.
pub open spec fn matched_qty(taker: Order, queue: Seq<Order>) -> int {
    let reachable = reachable_qty(taker, queue);
    if taker.remaining_qty <= reachable {
        taker.remaining_qty as int
    } else {
        reachable
    }
}

/// The fills by which `volume` is taken off the front of `queue`: one for each
/// maker that is hit, at the maker's price.
pub open spec fn fills_for(queue: Seq<Order>, taker_id: u64, volume: int) -> Seq<Fill>
    decreases queue.len(),
{
    if volume <= 0 || queue.len() == 0 {
        Seq::empty()
    } else {
        let maker = queue[0];
        let traded = if volume <= maker.remaining_qty {
            volume as u64
        } else {
            maker.remaining_qty
        };
        seq![
            Fill {
                maker_order_id: maker.id,
                taker_order_id: taker_id,
                price: maker.price,
                qty: traded,
            },
        ] + fills_for(queue.drop_first(), taker_id, volume - maker.remaining_qty)
    }
}

/// What is left of `queue` once `volume` has been taken off its front:
/// exhausted makers are gone, and the one hit last may be partly filled.
pub open spec fn after_taking(queue: Seq<Order>, volume: int) -> Seq<Order>
    decreases queue.len(),
{
    if volume <= 0 || queue.len() == 0 {
        queue
    } else if volume < queue[0].remaining_qty {
        queue.update(0, queue[0].with_remaining(queue[0].remaining_qty - volume))
    } else {
        after_taking(queue.drop_first(), volume - queue[0].remaining_qty)
    }
}

/// How many orders of `queue` a newcomer at `price` lines up behind: those of a
/// better price, and those of the same price that came before it.
pub open spec fn place_in(side: Side, queue: Seq<Order>, price: u64) -> int
    decreases queue.len(),
{
    if queue.len() == 0 || outranks(side, price, queue[0].price) {
        0
    } else {
        1 + place_in(side, queue.drop_first(), price)
    }
}

/// `queue` with `order` lined up in its place.
pub open spec fn joined(queue: Seq<Order>, order: Order) -> Seq<Order> {
    queue.insert(place_in(order.side, queue, order.price), order)
}

/// The state of a whole book.
#[verifier::ext_equal]
pub struct BookState {
    pub bids: Seq<Order>,
    pub asks: Seq<Order>,
}

impl BookState {
    /// The book without orders.
    pub open spec fn empty() -> BookState {
        BookState { bids: Seq::empty(), asks: Seq::empty() }
    }

    /// The queue of resting orders of one side.
    pub open spec fn queue(self, side: Side) -> Seq<Order> {
        match side {
            Side::Buy => self.bids,
            Side::Sell => self.asks,
        }
    }

    /// The queue that `taker` trades against.
    pub open spec fn opposite(self, taker: Order) -> Seq<Order> {
        self.queue(taker.side.opposite())
    }

    /// No bid meets an ask: whatever could have traded has traded.
    pub open spec fn uncrossed(self) -> bool {
        forall|i: int, j: int|
            0 <= i < self.bids.len() && 0 <= j < self.asks.len() ==> (#[trigger] self.bids[i]).price
                < (#[trigger] self.asks[j]).price
    }

    /// What holds of every book that submissions lead to.
    pub open spec fn valid(self) -> bool {
        &&& queue_valid(Side::Buy, self.bids)
        &&& queue_valid(Side::Sell, self.asks)
        &&& self.uncrossed()
    }

    /// The fills that submitting `taker` gives.
    pub open spec fn fills(self, taker: Order) -> Seq<Fill> {
        let opposite = self.opposite(taker);
        fills_for(opposite, taker.id, matched_qty(taker, opposite))
    }

    /// What is left of `taker` once it has been matched against this book.
    pub open spec fn unmatched(self, taker: Order) -> Order {
        taker.with_remaining(taker.remaining_qty - matched_qty(taker, self.opposite(taker)))
    }

    /// This book once `taker` has been matched against it.
    pub open spec fn matched(self, taker: Order) -> BookState {
        let left = after_taking(self.opposite(taker), matched_qty(taker, self.opposite(taker)));
        match taker.side {
            Side::Buy => BookState { asks: left, ..self },
            Side::Sell => BookState { bids: left, ..self },
        }
    }

    /// This book once `order` has come to rest in it, without matching.
    pub open spec fn rested(self, order: Order) -> BookState {
        match order.side {
            Side::Buy => BookState { bids: joined(self.bids, order), ..self },
            Side::Sell => BookState { asks: joined(self.asks, order), ..self },
        }
    }

    /// This book once `taker` has been submitted to it: matched, and what is
    /// left of it, if anything, come to rest.
    pub open spec fn submitted(self, taker: Order) -> BookState {
        let rest = self.unmatched(taker);
        if rest.remaining_qty > 0 {
            self.matched(taker).rested(rest)
        } else {
            self.matched(taker)
        }
    }
}

// Open quantities are sums.

pub(crate) proof fn lemma_open_qty_nonneg(queue: Seq<Order>)
    ensures
        open_qty(queue) >= 0,
    decreases queue.len(),
{
    if queue.len() > 0 {
        lemma_open_qty_nonneg(queue.drop_first());
    }
}

pub(crate) proof fn lemma_reachable_bounds(taker: Order, queue: Seq<Order>)
    ensures
        0 <= reachable_qty(taker, queue) <= open_qty(queue),
    decreases queue.len(),
{
    if queue.len() > 0 {
        lemma_reachable_bounds(taker, queue.drop_first());
    }
}

pub(crate) proof fn lemma_reachable_concat(taker: Order, a: Seq<Order>, b: Seq<Order>)
    ensures
        reachable_qty(taker, a + b) == reachable_qty(taker, a) + reachable_qty(taker, b),
    decreases a.len(),
{
    if a.len() == 0 {
        assert(a + b == b);
    } else {
        assert((a + b).drop_first() == a.drop_first() + b);
        lemma_reachable_concat(taker, a.drop_first(), b);
    }
}

pub(crate) proof fn lemma_all_reachable(taker: Order, queue: Seq<Order>)
    requires
        forall|i: int| 0 <= i < queue.len() ==> taker.accepts((#[trigger] queue[i]).price),
    ensures
        reachable_qty(taker, queue) == open_qty(queue),
    decreases queue.len(),
{
    if queue.len() > 0 {
        assert(taker.accepts(queue[0].price));
        assert forall|i: int| 0 <= i < queue.drop_first().len() implies taker.accepts(
            (#[trigger] queue.drop_first()[i]).price,
        ) by {
            assert(queue.drop_first()[i] == queue[i + 1]);
        }
        lemma_all_reachable(taker, queue.drop_first());
    }
}

pub(crate) proof fn lemma_none_reachable(taker: Order, queue: Seq<Order>)
    requires
        forall|i: int| 0 <= i < queue.len() ==> !taker.accepts((#[trigger] queue[i]).price),
    ensures
        reachable_qty(taker, queue) == 0,
    decreases queue.len(),
{
    if queue.len() > 0 {
        assert(!taker.accepts(queue[0].price));
        assert forall|i: int| 0 <= i < queue.drop_first().len() implies !taker.accepts(
            (#[trigger] queue.drop_first()[i]).price,
        ) by {
            assert(queue.drop_first()[i] == queue[i + 1]);
        }
        lemma_none_reachable(taker, queue.drop_first());
    }
}

// Taking volume off the front of a queue that is made of two parts.

pub(crate) open spec fn all_open(queue: Seq<Order>) -> bool {
    forall|i: int| 0 <= i < queue.len() ==> (#[trigger] queue[i]).remaining_qty > 0
}

pub(crate) proof fn lemma_all_open_tail(queue: Seq<Order>)
    requires
        all_open(queue),
        queue.len() > 0,
    ensures
        all_open(queue.drop_first()),
        queue[0].remaining_qty > 0,
{
    assert forall|i: int| 0 <= i < queue.drop_first().len() implies (
    #[trigger] queue.drop_first()[i]).remaining_qty > 0 by {
        assert(queue.drop_first()[i] == queue[i + 1]);
    }
}

pub(crate) proof fn lemma_open_qty_positive(queue: Seq<Order>)
    requires
        all_open(queue),
        queue.len() > 0,
    ensures
        open_qty(queue) > 0,
{
    lemma_all_open_tail(queue);
    lemma_open_qty_nonneg(queue.drop_first());
}

pub(crate) proof fn lemma_fills_concat(a: Seq<Order>, b: Seq<Order>, taker_id: u64, volume: int)
    ensures
        fills_for(a + b, taker_id, volume) == fills_for(a, taker_id, volume) + fills_for(
            b,
            taker_id,
            volume - open_qty(a),
        ),
    decreases a.len(),
{
    lemma_open_qty_nonneg(a);
    if a.len() == 0 {
        assert(a + b == b);
        assert(fills_for(a, taker_id, volume) == Seq::<Fill>::empty());
        assert(fills_for(b, taker_id, volume) == Seq::<Fill>::empty() + fills_for(
            b,
            taker_id,
            volume,
        ));
    } else if volume > 0 {
        assert((a + b).drop_first() == a.drop_first() + b);
        lemma_fills_concat(a.drop_first(), b, taker_id, volume - a[0].remaining_qty);
        assert(fills_for(a + b, taker_id, volume) == fills_for(a, taker_id, volume) + fills_for(
            b,
            taker_id,
            volume - open_qty(a),
        ));
    }
}

pub(crate) proof fn lemma_fills_saturate(queue: Seq<Order>, taker_id: u64, volume: int)
    requires
        all_open(queue),
        volume >= open_qty(queue),
    ensures
        fills_for(queue, taker_id, volume) == fills_for(queue, taker_id, open_qty(queue)),
    decreases queue.len(),
{
    if queue.len() > 0 {
        lemma_all_open_tail(queue);
        lemma_open_qty_nonneg(queue.drop_first());
        lemma_fills_saturate(queue.drop_first(), taker_id, volume - queue[0].remaining_qty);
    }
}

pub(crate) proof fn lemma_after_concat(a: Seq<Order>, b: Seq<Order>, volume: int)
    requires
        all_open(a),
    ensures
        after_taking(a + b, volume) == if volume < open_qty(a) {
            after_taking(a, volume) + b
        } else {
            after_taking(b, volume - open_qty(a))
        },
    decreases a.len(),
{
    if a.len() == 0 {
        assert(a + b == b);
    } else {
        lemma_all_open_tail(a);
        lemma_open_qty_nonneg(a.drop_first());
        assert((a + b).drop_first() == a.drop_first() + b);
        if volume > 0 {
            if volume < a[0].remaining_qty {
                assert(after_taking(a + b, volume) == after_taking(a, volume) + b);
            } else {
                lemma_after_concat(a.drop_first(), b, volume - a[0].remaining_qty);
            }
        }
    }
}

// The shape of a queue after volume was taken off its front.

/// How many makers at the front of `queue` are exhausted once `volume` has been taken.
pub open spec fn exhausted(queue: Seq<Order>, volume: int) -> int
    decreases queue.len(),
{
    if volume <= 0 || queue.len() == 0 || volume < queue[0].remaining_qty {
        0
    } else {
        1 + exhausted(queue.drop_first(), volume - queue[0].remaining_qty)
    }
}

/// The orders left are those behind the exhausted ones, unchanged but for the
/// open quantity of the first.
pub(crate) proof fn lemma_after_shape(queue: Seq<Order>, volume: int)
    requires
        all_open(queue),
    ensures
        0 <= exhausted(queue, volume) <= queue.len(),
        after_taking(queue, volume).len() == queue.len() - exhausted(queue, volume),
        forall|i: int|
            0 < i < after_taking(queue, volume).len() ==> #[trigger] after_taking(queue, volume)[i]
                == queue[exhausted(queue, volume) + i],
        after_taking(queue, volume).len() > 0 ==> {
            let front = after_taking(queue, volume)[0];
            let was = queue[exhausted(queue, volume)];
            &&& front == was.with_remaining(front.remaining_qty as int)
            &&& 0 < front.remaining_qty <= was.remaining_qty
        },
    decreases queue.len(),
{
    if volume > 0 && queue.len() > 0 {
        lemma_all_open_tail(queue);
        if volume >= queue[0].remaining_qty {
            let tail = queue.drop_first();
            let left = volume - queue[0].remaining_qty;
            lemma_after_shape(tail, left);
            assert forall|i: int| 0 < i < after_taking(queue, volume).len() implies
            #[trigger] after_taking(queue, volume)[i] == queue[exhausted(queue, volume) + i] by {
                assert(after_taking(queue, volume)[i] == after_taking(tail, left)[i]);
                assert(tail[exhausted(tail, left) + i] == queue[exhausted(queue, volume) + i]);
            }
        }
    } else if queue.len() > 0 {
        assert(queue[0].remaining_qty > 0);
    }
}

pub(crate) proof fn lemma_after_valid(side: Side, queue: Seq<Order>, volume: int)
    requires
        queue_valid(side, queue),
    ensures
        queue_valid(side, after_taking(queue, volume)),
{
    lemma_after_shape(queue, volume);
    let after = after_taking(queue, volume);
    let gone = exhausted(queue, volume);
    assert forall|i: int| 0 <= i < after.len() implies {
        &&& (#[trigger] after[i]).side == side
        &&& after[i].remaining_qty > 0
        &&& after[i].price == queue[gone + i].price
    } by {
        assert(queue[gone + i].side == side);
    }
    assert forall|i: int, j: int| 0 <= i < j < after.len() implies !outranks(
        side,
        (#[trigger] after[j]).price,
        (#[trigger] after[i]).price,
    ) by {
        assert(!outranks(side, queue[gone + j].price, queue[gone + i].price));
    }
}

/// Taking less than all of a queue leaves something of it.
pub(crate) proof fn lemma_some_left(queue: Seq<Order>, volume: int)
    requires
        all_open(queue),
        0 <= volume < open_qty(queue),
    ensures
        after_taking(queue, volume).len() > 0,
    decreases queue.len(),
{
    if volume > 0 && queue.len() > 0 {
        lemma_all_open_tail(queue);
        if volume >= queue[0].remaining_qty {
            lemma_some_left(queue.drop_first(), volume - queue[0].remaining_qty);
        }
    }
}

pub(crate) proof fn lemma_queue_tail_valid(side: Side, queue: Seq<Order>)
    requires
        queue_valid(side, queue),
        queue.len() > 0,
    ensures
        queue_valid(side, queue.drop_first()),
{
    let tail = queue.drop_first();
    assert forall|i: int| 0 <= i < tail.len() implies (#[trigger] tail[i]).side == side
        && tail[i].remaining_qty > 0 by {
        assert(tail[i] == queue[i + 1]);
    }
    assert forall|i: int, j: int| 0 <= i < j < tail.len() implies !outranks(
        side,
        (#[trigger] tail[j]).price,
        (#[trigger] tail[i]).price,
    ) by {
        assert(tail[i] == queue[i + 1]);
        assert(tail[j] == queue[j + 1]);
    }
}

/// A limit that the front of a queue does not meet is met nowhere in it.
pub(crate) proof fn lemma_front_decides(taker: Order, queue: Seq<Order>)
    requires
        queue_valid(taker.side.opposite(), queue),
        queue.len() > 0,
        !taker.accepts(queue[0].price),
    ensures
        forall|i: int| 0 <= i < queue.len() ==> !taker.accepts((#[trigger] queue[i]).price),
        reachable_qty(taker, queue) == 0,
{
    assert forall|i: int| 0 <= i < queue.len() implies !taker.accepts(
        (#[trigger] queue[i]).price,
    ) by {
        if i > 0 {
            assert(!outranks(taker.side.opposite(), queue[i].price, queue[0].price));
        }
    }
    lemma_none_reachable(taker, queue);
}

/// A taker that takes all it can reach leaves nothing it could trade with.
pub(crate) proof fn lemma_reach_exhausts(taker: Order, queue: Seq<Order>)
    requires
        queue_valid(taker.side.opposite(), queue),
    ensures
        forall|i: int|
            0 <= i < after_taking(queue, reachable_qty(taker, queue)).len() ==> !taker.accepts(
                (#[trigger] after_taking(queue, reachable_qty(taker, queue))[i]).price,
            ),
    decreases queue.len(),
{
    if queue.len() > 0 {
        let tail = queue.drop_first();
        lemma_queue_tail_valid(taker.side.opposite(), queue);
        lemma_reachable_bounds(taker, tail);
        assert(queue[0].remaining_qty > 0);
        if taker.accepts(queue[0].price) {
            lemma_reach_exhausts(taker, tail);
            assert(reachable_qty(taker, queue) - queue[0].remaining_qty == reachable_qty(
                taker,
                tail,
            ));
        } else {
            lemma_front_decides(taker, queue);
        }
    }
}

// The place of a newcomer.

/// Ahead of a newcomer stand orders of its price or better, behind it orders of
/// a worse price.
pub(crate) proof fn lemma_place(side: Side, queue: Seq<Order>, price: u64)
    requires
        queue_valid(side, queue),
    ensures
        0 <= place_in(side, queue, price) <= queue.len(),
        forall|i: int|
            0 <= i < place_in(side, queue, price) ==> !outranks(
                side,
                price,
                (#[trigger] queue[i]).price,
            ),
        forall|i: int|
            place_in(side, queue, price) <= i < queue.len() ==> outranks(
                side,
                price,
                (#[trigger] queue[i]).price,
            ),
    decreases queue.len(),
{
    if queue.len() > 0 {
        let tail = queue.drop_first();
        if outranks(side, price, queue[0].price) {
            assert forall|i: int| 0 <= i < queue.len() implies outranks(
                side,
                price,
                (#[trigger] queue[i]).price,
            ) by {
                if i > 0 {
                    assert(!outranks(side, queue[i].price, queue[0].price));
                }
            }
        } else {
            lemma_queue_tail_valid(side, queue);
            lemma_place(side, tail, price);
            assert forall|i: int| 0 <= i < place_in(side, queue, price) implies !outranks(
                side,
                price,
                (#[trigger] queue[i]).price,
            ) by {
                if i > 0 {
                    assert(tail[i - 1] == queue[i]);
                }
            }
            assert forall|i: int| place_in(side, queue, price) <= i < queue.len() implies outranks(
                side,
                price,
                (#[trigger] queue[i]).price,
            ) by {
                assert(tail[i - 1] == queue[i]);
            }
        }
    }
}

pub(crate) proof fn lemma_joined_valid(side: Side, queue: Seq<Order>, order: Order)
    requires
        queue_valid(side, queue),
        order.side == side,
        order.remaining_qty > 0,
    ensures
        queue_valid(side, joined(queue, order)),
        forall|i: int|
            0 <= i < joined(queue, order).len() ==> #[trigger] joined(queue, order)[i] == order
                || queue.contains(joined(queue, order)[i]),
{
    lemma_place(side, queue, order.price);
    let at = place_in(side, queue, order.price);
    let after = joined(queue, order);
    assert forall|i: int| 0 <= i < after.len() implies {
        &&& (#[trigger] after[i]).side == side
        &&& after[i].remaining_qty > 0
        &&& after[i] == order || queue.contains(after[i])
    } by {
        if i < at {
            assert(after[i] == queue[i]);
        } else if i > at {
            assert(after[i] == queue[i - 1]);
        }
    }
    assert forall|i: int, j: int| 0 <= i < j < after.len() implies !outranks(
        side,
        (#[trigger] after[j]).price,
        (#[trigger] after[i]).price,
    ) by {
        let a = if i < at {
            queue[i]
        } else {
            queue[i - 1]
        };
        let b = if j < at {
            queue[j]
        } else {
            queue[j - 1]
        };
        assert(i != at ==> after[i] == a);
        assert(j != at ==> after[j] == b);
    }
}

/// Matching an order against a valid book leaves a valid book.
pub(crate) proof fn lemma_matched_valid(book: BookState, taker: Order)
    requires
        book.valid(),
    ensures
        book.matched(taker).valid(),
{
    let opposite = book.opposite(taker);
    let volume = matched_qty(taker, opposite);
    let left = after_taking(opposite, volume);
    let gone = exhausted(opposite, volume);
    lemma_after_valid(taker.side.opposite(), opposite, volume);
    lemma_after_shape(opposite, volume);
    assert forall|i: int| 0 <= i < left.len() implies (#[trigger] left[i]).price == opposite[gone
        + i].price by {}
}

/// Submitting an order to a valid book leaves a valid book.
pub proof fn submission_keeps_books_valid(book: BookState, taker: Order)
    requires
        book.valid(),
    ensures
        book.submitted(taker).valid(),
{
    let opposite = book.opposite(taker);
    let volume = matched_qty(taker, opposite);
    let rest = book.unmatched(taker);
    let left = after_taking(opposite, volume);
    let gone = exhausted(opposite, volume);
    lemma_reachable_bounds(taker, opposite);
    lemma_matched_valid(book, taker);
    lemma_after_shape(opposite, volume);
    if rest.remaining_qty > 0 {
        lemma_reach_exhausts(taker, opposite);
        lemma_joined_valid(taker.side, book.queue(taker.side), rest);
        let own = joined(book.queue(taker.side), rest);
        let after = book.submitted(taker);
        assert forall|i: int, j: int|
            0 <= i < after.bids.len() && 0 <= j < after.asks.len() implies (
        #[trigger] after.bids[i]).price < (#[trigger] after.asks[j]).price by {
            match taker.side {
                Side::Buy => {
                    assert(!taker.accepts(left[j].price));
                    if own[i] != rest {
                        let k = choose|k: int| 0 <= k < book.bids.len() && book.bids[k] == own[i];
                        assert(book.bids[k].price < opposite[gone + j].price);
                    }
                },
                Side::Sell => {
                    assert(!taker.accepts(left[i].price));
                    if own[j] != rest {
                        let k = choose|k: int| 0 <= k < book.asks.len() && book.asks[k] == own[j];
                        assert(opposite[gone + i].price < book.asks[k].price);
                    }
                },
            }
        }
    }
}

} // verus!
