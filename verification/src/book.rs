//! The order book: price levels of resting orders, and the matching of
//! incoming orders against them.

use std::collections::{BTreeMap, VecDeque};

use vstd::prelude::*;

use crate::levels;
use crate::order::{Fill, Order, Side};
use crate::priority;
use crate::priority::BookState;
use crate::snapshot;
use crate::snapshot::{BookLevel, OrderBookSnapshot, PublicOrder};

verus! {

/// The price levels of one side by key, each with its orders oldest first.
type Levels = BTreeMap<u64, VecDeque<Order>>;

/// The levels as sequences of orders.
spec fn level_seqs(levels: Map<u64, VecDeque<Order>>) -> Map<u64, Seq<Order>> {
    levels.map_values(|level: VecDeque<Order>| level@)
}

/// Two queues of resting orders, bids and asks, in price-time priority.
#[derive(Debug)]
pub struct OrderBook {
    bids: Levels,
    asks: Levels,
}

impl View for OrderBook {
    type V = BookState;

    closed spec fn view(&self) -> BookState {
        BookState {
            bids: levels::queue_of(level_seqs(self.bids@)),
            asks: levels::queue_of(level_seqs(self.asks@)),
        }
    }
}

impl Default for OrderBook {
    /// An empty book.
    fn default() -> (book: Self)
        ensures
            book@ == BookState::empty(),
    {
        let bids: Levels = BTreeMap::new();
        let asks: Levels = BTreeMap::new();
        proof {
            lemma_no_levels(bids@);
            lemma_no_levels(asks@);
        }
        OrderBook { bids, asks }
    }
}

proof fn lemma_no_levels(levels: Map<u64, VecDeque<Order>>)
    requires
        levels == Map::<u64, VecDeque<Order>>::empty(),
    ensures
        levels::queue_of(level_seqs(levels)) == Seq::<Order>::empty(),
        levels::levels_valid(Side::Buy, level_seqs(levels)),
        levels::levels_valid(Side::Sell, level_seqs(levels)),
{
    assert(level_seqs(levels) =~= Map::<u64, Seq<Order>>::empty());
    levels::lemma_queue_empty(level_seqs(levels));
}

/// The key of the best level, if there is a level.
fn best_level(levels: &Levels) -> (best: Option<u64>)
    ensures
        match best {
            Some(key) => levels::is_best(level_seqs(levels@), key),
            None => level_seqs(levels@).dom() == Set::<u64>::empty(),
        },
{
    let ghost seqs = level_seqs(levels@);
    assert(seqs.dom() =~= levels@.dom());
    for key in it: levels.keys()
        invariant
            it.index() == 0,
            seqs == level_seqs(levels@),
            seqs.dom() == levels@.dom(),
            it.seq() == vstd::std_specs::iter::IteratorSpec::remaining(
                &vstd::std_specs::btree::spec_keys_iter(levels),
            ),
    {
        proof {
            let refs = it.seq();
            let keys = refs.unref();
            lemma_keys_increase(refs);
            assert(keys[0] == *key);
            assert(keys.to_set().contains(*key));
            assert forall|k: u64| #[trigger] seqs.contains_key(k) implies *key <= k by {
                assert(keys.to_set().contains(k));
                let i = choose|i: int| 0 <= i < keys.len() && keys[i] == k;
                assert(*refs[i] == k);
            }
        }
        return Some(*key);
    }
    None
}

/// The keys of a `BTreeMap` come in increasing order.
proof fn lemma_keys_increase(keys: Seq<&u64>)
    requires
        vstd::std_specs::btree::increasing_seq(keys),
    ensures
        forall|i: int, j: int| 0 <= i < j < keys.len() ==> *(#[trigger] keys[i]) < *(
        #[trigger] keys[j]),
{
    broadcast use vstd::laws_cmp::group_laws_cmp;

    assert(vstd::laws_cmp::obeys_cmp::<u64>());
    assert(vstd::laws_cmp::obeys_cmp::<&u64>());
    assert forall|i: int, j: int| 0 <= i < j < keys.len() implies *(#[trigger] keys[i]) < *(
    #[trigger] keys[j]) by {
        assert(vstd::std_specs::cmp::OrdSpec::cmp_spec(&keys[i], &keys[j]) is Less);
    }
}

/// Whether `after` is `before` with `order` behind the orders of its level, every
/// other level as it was.
spec fn appended(
    before: Map<u64, VecDeque<Order>>,
    order: Order,
    after: Map<u64, VecDeque<Order>>,
) -> bool {
    let key = levels::key_of(order.side, order.price);
    level_seqs(after) == level_seqs(before).insert(
        key,
        levels::level_at(level_seqs(before), key).push(order),
    )
}

/// A well-formed book stands for a valid state.
pub(crate) proof fn lemma_book_valid(book: OrderBook)
    requires
        book.wf(),
    ensures
        book@.valid(),
{
    levels::lemma_queue_valid(Side::Buy, level_seqs(book.bids@));
    levels::lemma_queue_valid(Side::Sell, level_seqs(book.asks@));
}

/// How far a taker reaches depends on its side and limit alone.
proof fn lemma_same_reach(a: Order, b: Order, queue: Seq<Order>)
    requires
        a.side == b.side,
        a.price == b.price,
    ensures
        priority::reachable_qty(a, queue) == priority::reachable_qty(b, queue),
    decreases queue.len(),
{
    if queue.len() > 0 {
        lemma_same_reach(a, b, queue.drop_first());
    }
}

impl OrderBook {
    /// The levels of both sides are valid, and no bid meets an ask.
    #[verifier::type_invariant]
    pub(crate) closed spec fn wf(self) -> bool {
        &&& levels::levels_valid(Side::Buy, level_seqs(self.bids@))
        &&& levels::levels_valid(Side::Sell, level_seqs(self.asks@))
        &&& self@.uncrossed()
    }

    /// An empty book.
    pub fn new() -> (book: Self)
        ensures
            book@ == BookState::empty(),
    {
        Self::default()
    }

    /// Takes as much of the level of `key` as `taker` wants, oldest order first.
    fn consume_level(levels: &mut Levels, key: u64, taker: &mut Order, fills: &mut Vec<Fill>)
        requires
            old(levels)@.contains_key(key),
            priority::all_open(old(levels)@[key]@),
        ensures
            ({
                let level = old(levels)@[key]@;
                let total = priority::open_qty(level);
                let wanted = old(taker).remaining_qty;
                let volume = if wanted <= total { wanted as int } else { total };
                &&& *final(taker) == old(taker).with_remaining(wanted - volume)
                &&& final(fills)@ == old(fills)@ + priority::fills_for(
                    level,
                    old(taker).id,
                    volume,
                )
                &&& level_seqs(final(levels)@) == if volume < total {
                    level_seqs(old(levels)@).insert(
                        key,
                        priority::after_taking(level, volume),
                    )
                } else {
                    level_seqs(old(levels)@).remove(key)
                }
            }),
    {
        let ghost seqs = level_seqs(levels@);
        let ghost id = taker.id;
        let ghost first = levels@[key]@;
        let ghost wanted = taker.remaining_qty as int;
        let ghost total = priority::open_qty(first);
        let ghost volume = if wanted <= total { wanted } else { total };
        let ghost before = fills@;
        let mut level = levels.remove(&key).unwrap();
        assert(level@ == first);
        proof {
            priority::lemma_open_qty_nonneg(first);
            assert(before + Seq::<Fill>::empty() =~= before);
        }
        while taker.remaining_qty > 0 && level.len() > 0
            invariant
                priority::all_open(level@),
                *taker == old(taker).with_remaining(taker.remaining_qty as int),
                id == old(taker).id,
                ({
                    let total_now = priority::open_qty(level@);
                    let open = taker.remaining_qty as int;
                    let volume_now = if open <= total_now { open } else { total_now };
                    &&& wanted - volume == open - volume_now
                    &&& total - volume == total_now - volume_now
                    &&& before + priority::fills_for(first, id, volume) == fills@
                        + priority::fills_for(level@, id, volume_now)
                    &&& priority::after_taking(first, volume)
                        == priority::after_taking(level@, volume_now)
                }),
            decreases level@.len(), taker.remaining_qty,
        {
            let ghost queue = level@;
            let ghost open = taker.remaining_qty as int;
            let ghost done = fills@;
            proof {
                priority::lemma_all_open_tail(queue);
                priority::lemma_open_qty_nonneg(queue.drop_first());
            }
            let mut maker = level.pop_front().unwrap();
            assert(level@ =~= queue.drop_first());
            let trade_qty: u64 = if taker.remaining_qty < maker.remaining_qty {
                taker.remaining_qty
            } else {
                maker.remaining_qty
            };
            let fill = Fill {
                maker_order_id: maker.id,
                taker_order_id: taker.id,
                price: maker.price,
                qty: trade_qty,
            };
            fills.push(fill);
            maker.remaining_qty = maker.remaining_qty - trade_qty;
            taker.remaining_qty = taker.remaining_qty - trade_qty;
            if maker.remaining_qty > 0 {
                level.push_front(maker);
                proof {
                    let left = queue[0].with_remaining(queue[0].remaining_qty - open);
                    assert(level@ =~= queue.update(0, left));
                    assert(level@.drop_first() =~= queue.drop_first());
                    assert forall|i: int| 0 <= i < level@.len() implies (
                    #[trigger] level@[i]).remaining_qty > 0 by {
                        if i > 0 {
                            assert(level@[i] == queue[i]);
                        }
                    }
                    priority::lemma_open_qty_nonneg(level@);
                }
            }
            proof {
                let total_was = priority::open_qty(queue);
                let volume_was = if open <= total_was { open } else { total_was };
                let tail = priority::fills_for(
                    queue.drop_first(),
                    id,
                    volume_was - queue[0].remaining_qty,
                );
                assert(priority::fills_for(queue, id, volume_was) == seq![fill] + tail);
                assert(done + (seq![fill] + tail) =~= done.push(fill) + tail);
            }
        }
        proof {
            assert(fills@ + Seq::<Fill>::empty() =~= fills@);
        }
        if level.len() > 0 {
            levels.insert(key, level);
            proof {
                priority::lemma_open_qty_positive(level@);
                assert(level_seqs(levels@) =~= seqs.insert(key, level@));
            }
        } else {
            assert(level_seqs(levels@) =~= seqs.remove(key));
        }
    }

    /// Matches `taker` against the levels of the opposite side, best level
    /// first, until it is filled or its limit is reached.
    fn match_levels(levels: &mut Levels, taker: &mut Order, fills: &mut Vec<Fill>)
        requires
            levels::levels_valid(old(taker).side.opposite(), level_seqs(old(levels)@)),
        ensures
            levels::levels_valid(old(taker).side.opposite(), level_seqs(final(levels)@)),
            ({
                let queue = levels::queue_of(level_seqs(old(levels)@));
                let volume = priority::matched_qty(*old(taker), queue);
                &&& levels::queue_of(level_seqs(final(levels)@)) == priority::after_taking(
                    queue,
                    volume,
                )
                &&& *final(taker) == old(taker).with_remaining(old(taker).remaining_qty - volume)
                &&& final(fills)@ == old(fills)@ + priority::fills_for(
                    queue,
                    old(taker).id,
                    volume,
                )
            }),
    {
        let ghost asked = *taker;
        let ghost side = taker.side.opposite();
        let ghost first = levels::queue_of(level_seqs(levels@));
        let ghost volume = priority::matched_qty(asked, first);
        let ghost before = fills@;
        let resting_side = match taker.side {
            Side::Buy => Side::Sell,
            Side::Sell => Side::Buy,
        };
        let limit: u64 = levels::level_key(resting_side, taker.price);
        proof {
            priority::lemma_reachable_bounds(asked, first);
        }
        while taker.remaining_qty > 0
            invariant
                asked == *old(taker),
                side == asked.side.opposite(),
                limit == levels::key_of(side, asked.price),
                *taker == asked.with_remaining(taker.remaining_qty as int),
                levels::levels_valid(side, level_seqs(levels@)),
                ({
                    let queue = levels::queue_of(level_seqs(levels@));
                    let volume_now = priority::matched_qty(*taker, queue);
                    &&& priority::reachable_qty(*taker, queue) >= 0
                    &&& asked.remaining_qty - volume == taker.remaining_qty - volume_now
                    &&& before + priority::fills_for(first, asked.id, volume) == fills@
                        + priority::fills_for(queue, asked.id, volume_now)
                    &&& priority::after_taking(first, volume) == priority::after_taking(
                        queue,
                        volume_now,
                    )
                }),
            ensures
                priority::matched_qty(*taker, levels::queue_of(level_seqs(levels@))) == 0,
            decreases level_seqs(levels@).dom().len(), taker.remaining_qty,
        {
            let ghost seqs = level_seqs(levels@);
            let ghost queue = levels::queue_of(seqs);
            let ghost done = fills@;
            let ghost was = *taker;
            let best: u64 = match best_level(levels) {
                Some(key) => key,
                None => {
                    proof {
                        levels::lemma_queue_empty(seqs);
                    }
                    break;
                },
            };
            let ghost level = seqs[best];
            let ghost tail = levels::queue_of(seqs.remove(best));
            proof {
                levels::lemma_queue_valid(side, seqs);
                levels::lemma_queue_unfolds(seqs, best);
                assert(levels::level_valid(side, best, level));
                assert(level == levels@[best]@);
                assert(queue[0] == level[0]);
                levels::lemma_keys_rank(side, asked.price, level[0].price);
            }
            if best > limit {
                proof {
                    priority::lemma_front_decides(was, queue);
                }
                break;
            }
            proof {
                assert forall|i: int| 0 <= i < level.len() implies was.accepts(
                    (#[trigger] level[i]).price,
                ) by {
                    levels::lemma_keys_rank(side, asked.price, level[i].price);
                }
                priority::lemma_all_reachable(was, level);
                priority::lemma_reachable_concat(was, level, tail);
                priority::lemma_reachable_bounds(was, tail);
                priority::lemma_open_qty_positive(level);
            }
            Self::consume_level(levels, best, taker, fills);
            proof {
                let total = priority::open_qty(level);
                let volume_was = priority::matched_qty(was, queue);
                priority::lemma_fills_concat(level, tail, asked.id, volume_was);
                priority::lemma_after_concat(level, tail, volume_was);
                levels::lemma_removed_valid(side, seqs, best);
                if was.remaining_qty < total {
                    let left = priority::after_taking(level, was.remaining_qty as int);
                    levels::lemma_level_replaced(seqs, best, left);
                    priority::lemma_some_left(level, was.remaining_qty as int);
                    priority::lemma_after_shape(level, was.remaining_qty as int);
                    let gone = priority::exhausted(level, was.remaining_qty as int);
                    assert forall|i: int| 0 <= i < left.len() implies {
                        &&& (#[trigger] left[i]).side == side
                        &&& levels::key_of(side, left[i].price) == best
                        &&& left[i].remaining_qty > 0
                    } by {
                        assert(level[gone + i].side == side);
                    }
                    levels::lemma_inserted_valid(side, seqs, best, left);
                    priority::lemma_reachable_bounds(*taker, left + tail);
                    let none = priority::fills_for(tail, asked.id, volume_was - total);
                    assert(none == Seq::<Fill>::empty());
                    assert(fills@ + Seq::<Fill>::empty() =~= done + priority::fills_for(
                        queue,
                        asked.id,
                        volume_was,
                    ));
                    assert(level_seqs(levels@).dom() =~= seqs.dom());
                } else {
                    priority::lemma_fills_saturate(level, asked.id, volume_was);
                    lemma_same_reach(was, *taker, tail);
                    let rest = priority::fills_for(tail, asked.id, volume_was - total);
                    assert(fills@ + rest =~= done + priority::fills_for(
                        queue,
                        asked.id,
                        volume_was,
                    ));
                }
            }
        }
        assert(fills@ + Seq::<Fill>::empty() =~= fills@);
    }

    /// Matches an incoming buy order against the asks.
    fn match_buy(&mut self, taker: &mut Order, fills: &mut Vec<Fill>)
        requires
            old(taker).side == Side::Buy,
        ensures
            final(self)@ == old(self)@.matched(*old(taker)),
            *final(taker) == old(self)@.unmatched(*old(taker)),
            final(fills)@ == old(fills)@ + old(self)@.fills(*old(taker)),
    {
        proof {
            use_type_invariant(&*self);
            lemma_book_valid(*self);
            priority::lemma_matched_valid(self@, *taker);
        }
        let mut asks: Levels = BTreeMap::new();
        proof {
            lemma_no_levels(asks@);
        }
        std::mem::swap(&mut self.asks, &mut asks);
        Self::match_levels(&mut asks, taker, fills);
        self.asks = asks;
    }

    /// Matches an incoming sell order against the bids.
    fn match_sell(&mut self, taker: &mut Order, fills: &mut Vec<Fill>)
        requires
            old(taker).side == Side::Sell,
        ensures
            final(self)@ == old(self)@.matched(*old(taker)),
            *final(taker) == old(self)@.unmatched(*old(taker)),
            final(fills)@ == old(fills)@ + old(self)@.fills(*old(taker)),
    {
        proof {
            use_type_invariant(&*self);
            lemma_book_valid(*self);
            priority::lemma_matched_valid(self@, *taker);
        }
        let mut bids: Levels = BTreeMap::new();
        proof {
            lemma_no_levels(bids@);
        }
        std::mem::swap(&mut self.bids, &mut bids);
        Self::match_levels(&mut bids, taker, fills);
        self.bids = bids;
    }

    /// Appends `order` to the level of its price, which is made if need be.
    fn rest_in(levels: &mut Levels, order: Order)
        ensures
            appended(old(levels)@, order, final(levels)@),
    {
        let ghost seqs = level_seqs(levels@);
        let key: u64 = levels::level_key(order.side, order.price);
        let mut level: VecDeque<Order> = match levels.remove(&key) {
            Some(level) => level,
            None => VecDeque::new(),
        };
        assert(level@ == levels::level_at(seqs, key));
        level.push_back(order);
        let ghost after = seqs.insert(key, level@);
        levels.insert(key, level);
        assert(level_seqs(levels@) =~= after);
    }

    /// Lets `order`, whatever it is, rest on its side of the book; the other side
    /// is not looked at.
    fn rest(bids: &mut Levels, asks: &mut Levels, order: Order)
        ensures
            match order.side {
                Side::Buy => appended(old(bids)@, order, final(bids)@) && *final(asks) == *old(asks),
                Side::Sell => appended(old(asks)@, order, final(asks)@) && *final(bids) == *old(
                    bids,
                ),
            },
    {
        match order.side {
            Side::Buy => Self::rest_in(bids, order),
            Side::Sell => Self::rest_in(asks, order),
        }
    }

    /// Submits an order: it is matched against the opposite side, and what is
    /// left of it comes to rest. Returns the fills in the order they happened.
    pub fn submit(&mut self, taker: Order) -> (fills: Vec<Fill>)
        ensures
            old(self)@.valid(),
            final(self)@ == old(self)@.submitted(taker),
            final(self)@.valid(),
            fills@ == old(self)@.fills(taker),
    {
        let ghost asked = taker;
        let mut taker = taker;
        let mut fills: Vec<Fill> = Vec::new();
        proof {
            use_type_invariant(&*self);
            lemma_book_valid(*self);
            priority::submission_keeps_books_valid(self@, taker);
        }
        match taker.side {
            Side::Buy => self.match_buy(&mut taker, &mut fills),
            Side::Sell => self.match_sell(&mut taker, &mut fills),
        }
        assert(fills@ =~= old(self)@.fills(asked));
        if taker.remaining_qty > 0 {
            proof {
                use_type_invariant(&*self);
            }
            let mut bids: Levels = BTreeMap::new();
            let mut asks: Levels = BTreeMap::new();
            proof {
                lemma_no_levels(bids@);
                lemma_no_levels(asks@);
            }
            std::mem::swap(&mut self.bids, &mut bids);
            std::mem::swap(&mut self.asks, &mut asks);
            proof {
                let own = match taker.side {
                    Side::Buy => level_seqs(bids@),
                    Side::Sell => level_seqs(asks@),
                };
                levels::lemma_order_joins(taker.side, own, taker);
            }
            Self::rest(&mut bids, &mut asks, taker);
            self.bids = bids;
            self.asks = asks;
        }
        fills
    }

    /// Shows the levels of one side, best first.
    fn show_levels(side: Side, levels: &Levels) -> (shown: Vec<BookLevel>)
        requires
            levels::levels_valid(side, level_seqs(levels@)),
        ensures
            snapshot::shows(side, levels::queue_of(level_seqs(levels@)), shown@),
    {
        let ghost seqs = level_seqs(levels@);
        assert(seqs.dom() =~= levels@.dom());
        let mut shown: Vec<BookLevel> = Vec::new();
        let ghost mut keys: Seq<u64> = Seq::empty();
        for key in it: levels.keys()
            invariant
                seqs == level_seqs(levels@),
                seqs.dom() == levels@.dom(),
                levels::levels_valid(side, seqs),
                it.seq() == vstd::std_specs::iter::IteratorSpec::remaining(
                    &vstd::std_specs::btree::spec_keys_iter(levels),
                ),
                keys == it.seq().unref().take(it.index()),
                shown@.len() == keys.len(),
                forall|i: int|
                    0 <= i < keys.len() ==> shows_level(
                        side,
                        #[trigger] keys[i],
                        seqs[keys[i]],
                        shown@[i],
                    ),
        {
            proof {
                let all = it.seq().unref();
                assert(all[it.index()] == *key);
                assert(all.to_set().contains(*key));
                assert(seqs.contains_key(*key));
            }
            let level = levels.get(key).unwrap();
            let mut orders: Vec<PublicOrder> = Vec::new();
            for order in orders_it: level.iter()
                invariant
                    orders_it.seq() == level@.as_ref(),
                    orders@ =~= level@.take(orders_it.index()).map_values(
                        |order: Order| snapshot::shown(order),
                    ),
            {
                orders.push(snapshot::public_resting_order(order));
            }
            assert(level@.take(level@.len() as int) =~= level@);
            shown.push(BookLevel { price: levels::level_key(side, *key), orders });
            proof {
                let all = it.seq().unref();
                keys = keys.push(*key);
                assert(keys =~= all.take(it.index() + 1));
            }
        }
        proof {
            let refs = vstd::std_specs::iter::IteratorSpec::remaining(
                &vstd::std_specs::btree::spec_keys_iter(levels),
            );
            lemma_keys_increase(refs);
            assert(keys =~= refs.unref());
            assert forall|i: int, j: int| 0 <= i < j < keys.len() implies (#[trigger] keys[i]) < (
            #[trigger] keys[j]) by {
                assert(*refs[i] == keys[i]);
                assert(*refs[j] == keys[j]);
            }
            levels::lemma_queue_by_keys(seqs, keys);
            lemma_levels_listed(side, seqs, keys, shown@);
            lemma_levels_shown(side, seqs, keys, shown@);
        }
        shown
    }

    /// A snapshot of the book: bids from the highest price down, asks from the
    /// lowest price up.
    pub fn snapshot_levels(&self) -> (snapshot: OrderBookSnapshot)
        ensures
            snapshot.is_of(self@),
            self@.valid(),
    {
        proof {
            use_type_invariant(self);
            lemma_book_valid(*self);
        }
        OrderBookSnapshot {
            bids: Self::show_levels(Side::Buy, &self.bids),
            asks: Self::show_levels(Side::Sell, &self.asks),
        }
    }
}

/// Whether `shown` shows the orders of one level.
spec fn shows_level(side: Side, key: u64, level: Seq<Order>, shown: BookLevel) -> bool {
    &&& shown.price == levels::key_of(side, key)
    &&& shown.orders@ == level.map_values(|order: Order| snapshot::shown(order))
}

proof fn lemma_levels_listed(
    side: Side,
    seqs: Map<u64, Seq<Order>>,
    keys: Seq<u64>,
    shown: Seq<BookLevel>,
)
    requires
        shown.len() == keys.len(),
        forall|i: int|
            0 <= i < keys.len() ==> shows_level(side, #[trigger] keys[i], seqs[keys[i]], shown[i]),
    ensures
        snapshot::listed(shown) == levels::orders_at(seqs, keys).map_values(
            |order: Order| snapshot::shown(order),
        ),
    decreases keys.len(),
{
    let f = |order: Order| snapshot::shown(order);
    if keys.len() > 0 {
        let tail = keys.drop_first();
        assert forall|i: int| 0 <= i < tail.len() implies shows_level(
            side,
            #[trigger] tail[i],
            seqs[tail[i]],
            shown.drop_first()[i],
        ) by {
            assert(tail[i] == keys[i + 1]);
        }
        lemma_levels_listed(side, seqs, tail, shown.drop_first());
        assert(shows_level(side, keys[0], seqs[keys[0]], shown[0]));
        assert((seqs[keys[0]] + levels::orders_at(seqs, tail)).map_values(f)
            =~= seqs[keys[0]].map_values(f) + levels::orders_at(seqs, tail).map_values(f));
    } else {
        assert(snapshot::listed(shown) =~= levels::orders_at(seqs, keys).map_values(f));
    }
}

proof fn lemma_levels_shown(
    side: Side,
    seqs: Map<u64, Seq<Order>>,
    keys: Seq<u64>,
    shown: Seq<BookLevel>,
)
    requires
        levels::levels_valid(side, seqs),
        keys.to_set() == seqs.dom(),
        shown.len() == keys.len(),
        forall|i: int|
            0 <= i < keys.len() ==> shows_level(side, #[trigger] keys[i], seqs[keys[i]], shown[i]),
        forall|i: int, j: int|
            0 <= i < j < keys.len() ==> (#[trigger] keys[i]) < (#[trigger] keys[j]),
    ensures
        snapshot::ladder(side, shown),
{
    assert forall|i: int| 0 <= i < shown.len() implies (#[trigger] shown[i]).orders@.len() > 0 by {
        assert(keys.to_set().contains(keys[i]));
        assert(levels::level_valid(side, keys[i], seqs[keys[i]]));
    }
    assert forall|i: int, k: int|
        0 <= i < shown.len() && 0 <= k < shown[i].orders@.len() implies (
    #[trigger] shown[i].orders@[k]).price == shown[i].price by {
        assert(keys.to_set().contains(keys[i]));
        assert(levels::level_valid(side, keys[i], seqs[keys[i]]));
        assert(levels::key_of(side, seqs[keys[i]][k].price) == keys[i]);
    }
    assert forall|i: int, j: int| 0 <= i < j < shown.len() implies priority::outranks(
        side,
        (#[trigger] shown[i]).price,
        (#[trigger] shown[j]).price,
    ) by {
        assert(keys[i] < keys[j]);
    }
}

} // verus!
