//! Price levels, keyed so that the best level has the smallest key, and the
//! queue that they stand for.

use vstd::prelude::*;

use crate::order::{Order, Side};
use crate::priority;

verus! {

/// The key of the level of `price`: the better the price, the smaller the key.
pub open spec fn key_of(side: Side, price: u64) -> u64 {
    match side {
        Side::Buy => (u64::MAX - price) as u64,
        Side::Sell => price,
    }
}

/// Computes the key of a level.
pub fn level_key(side: Side, price: u64) -> (key: u64)
    ensures
        key == key_of(side, price),
{
    match side {
        Side::Buy => u64::MAX - price,
        Side::Sell => price,
    }
}

/// Whether `key` is the key of the best level.
pub open spec fn is_best(levels: Map<u64, Seq<Order>>, key: u64) -> bool {
    &&& levels.contains_key(key)
    &&& forall|k: u64| #[trigger] levels.contains_key(k) ==> key <= k
}

/// The key of the best level.
pub open spec fn best_key(levels: Map<u64, Seq<Order>>) -> u64 {
    choose|key: u64| is_best(levels, key)
}

/// All orders of all levels, best level first, in the order they have there.
pub open spec fn queue_of(levels: Map<u64, Seq<Order>>) -> Seq<Order>
    decreases levels.dom().len(),
{
    let best = best_key(levels);
    if levels.dom().finite() && levels.contains_key(best) {
        levels[best] + queue_of(levels.remove(best))
    } else {
        Seq::empty()
    }
}

/// Levels are finite in number and never empty, and hold open orders of one
/// side, each at the level of its price.
pub open spec fn levels_valid(side: Side, levels: Map<u64, Seq<Order>>) -> bool {
    &&& levels.dom().finite()
    &&& forall|k: u64| #[trigger] levels.contains_key(k) ==> level_valid(side, k, levels[k])
}

/// A level holds open orders of one side and one price.
pub open spec fn level_valid(side: Side, key: u64, level: Seq<Order>) -> bool {
    &&& level.len() > 0
    &&& forall|i: int|
        0 <= i < level.len() ==> {
            &&& (#[trigger] level[i]).side == side
            &&& key_of(side, level[i].price) == key
            &&& level[i].remaining_qty > 0
        }
}

pub(crate) proof fn lemma_best_exists(levels: Map<u64, Seq<Order>>)
    requires
        levels.dom().finite(),
        levels.dom().len() > 0,
    ensures
        is_best(levels, best_key(levels)),
    decreases levels.dom().len(),
{
    let k = levels.dom().choose();
    let rest = levels.remove(k);
    assert(levels.contains_key(k));
    if rest.dom().len() == 0 {
        assert forall|j: u64| #[trigger] levels.contains_key(j) implies k <= j by {
            if j != k {
                assert(rest.dom().contains(j));
            }
        }
        assert(is_best(levels, k));
    } else {
        lemma_best_exists(rest);
        let b = best_key(rest);
        let best = if k <= b {
            k
        } else {
            b
        };
        assert(levels.contains_key(best));
        assert forall|j: u64| #[trigger] levels.contains_key(j) implies best <= j by {
            if j != k {
                assert(rest.contains_key(j));
            }
        }
        assert(is_best(levels, best));
    }
}

pub(crate) proof fn lemma_queue_unfolds(levels: Map<u64, Seq<Order>>, key: u64)
    requires
        levels.dom().finite(),
        is_best(levels, key),
    ensures
        queue_of(levels) == levels[key] + queue_of(levels.remove(key)),
{
    assert(is_best(levels, best_key(levels)));
    assert(levels.contains_key(best_key(levels)));
    assert(best_key(levels) == key);
}

pub(crate) proof fn lemma_queue_empty(levels: Map<u64, Seq<Order>>)
    requires
        levels.dom().finite(),
        levels.dom().len() == 0,
    ensures
        queue_of(levels) == Seq::<Order>::empty(),
{
}

/// Keys order levels as their prices rank.
pub(crate) proof fn lemma_keys_rank(side: Side, p: u64, q: u64)
    ensures
        priority::outranks(side, p, q) <==> key_of(side, p) < key_of(side, q),
        key_of(side, p) == key_of(side, q) <==> p == q,
{
}

pub(crate) proof fn lemma_level_replaced(
    levels: Map<u64, Seq<Order>>,
    key: u64,
    level: Seq<Order>,
)
    requires
        levels.dom().finite(),
        is_best(levels, key),
    ensures
        queue_of(levels.insert(key, level)) == level + queue_of(levels.remove(key)),
{
    let after = levels.insert(key, level);
    assert forall|k: u64| #[trigger] after.contains_key(k) implies key <= k by {
        assert(levels.contains_key(k));
    }
    assert(is_best(after, key));
    lemma_queue_unfolds(after, key);
    assert(after.remove(key) =~= levels.remove(key));
}

pub(crate) proof fn lemma_removed_valid(side: Side, levels: Map<u64, Seq<Order>>, key: u64)
    requires
        levels_valid(side, levels),
    ensures
        levels_valid(side, levels.remove(key)),
{
    assert forall|k: u64| #[trigger]
        levels.remove(key).contains_key(k) implies level_valid(side, k, levels.remove(key)[k]) by {
        assert(levels.contains_key(k));
    }
}

pub(crate) proof fn lemma_inserted_valid(
    side: Side,
    levels: Map<u64, Seq<Order>>,
    key: u64,
    level: Seq<Order>,
)
    requires
        levels_valid(side, levels),
        level_valid(side, key, level),
    ensures
        levels_valid(side, levels.insert(key, level)),
{
    let after = levels.insert(key, level);
    assert forall|k: u64| #[trigger] after.contains_key(k) implies level_valid(
        side,
        k,
        after[k],
    ) by {
        if k != key {
            assert(levels.contains_key(k));
        }
    }
}

/// The queue of valid levels is valid, and every order in it comes from a level.
pub(crate) proof fn lemma_queue_valid(side: Side, levels: Map<u64, Seq<Order>>)
    requires
        levels_valid(side, levels),
    ensures
        priority::queue_valid(side, queue_of(levels)),
        forall|i: int|
            0 <= i < queue_of(levels).len() ==> levels.contains_key(
                key_of(side, (#[trigger] queue_of(levels)[i]).price),
            ),
    decreases levels.dom().len(),
{
    if levels.dom().len() == 0 {
        lemma_queue_empty(levels);
    } else {
        lemma_best_exists(levels);
        let best = best_key(levels);
        let rest = levels.remove(best);
        let head = levels[best];
        let tail = queue_of(rest);
        let queue = queue_of(levels);
        lemma_queue_unfolds(levels, best);
        lemma_removed_valid(side, levels, best);
        lemma_queue_valid(side, rest);
        assert(level_valid(side, best, head));
        assert forall|i: int| 0 <= i < queue.len() implies {
            &&& (#[trigger] queue[i]).side == side
            &&& queue[i].remaining_qty > 0
            &&& levels.contains_key(key_of(side, queue[i].price))
        } by {
            if i < head.len() {
                assert(queue[i] == head[i]);
            } else {
                assert(queue[i] == tail[i - head.len()]);
                assert(rest.contains_key(key_of(side, tail[i - head.len()].price)));
            }
        }
        assert forall|i: int, j: int| 0 <= i < j < queue.len() implies !priority::outranks(
            side,
            (#[trigger] queue[j]).price,
            (#[trigger] queue[i]).price,
        ) by {
            lemma_keys_rank(side, queue[j].price, queue[i].price);
            if i < head.len() {
                assert(queue[i] == head[i]);
                assert(levels.contains_key(key_of(side, queue[j].price)));
            } else {
                assert(queue[i] == tail[i - head.len()]);
                assert(queue[j] == tail[j - head.len()]);
            }
        }
    }
}

proof fn lemma_place_skips(side: Side, a: Seq<Order>, b: Seq<Order>, price: u64)
    requires
        forall|i: int|
            0 <= i < a.len() ==> !priority::outranks(side, price, (#[trigger] a[i]).price),
    ensures
        priority::place_in(side, a + b, price) == a.len() + priority::place_in(side, b, price),
    decreases a.len(),
{
    if a.len() == 0 {
        assert(a + b == b);
    } else {
        assert(!priority::outranks(side, price, a[0].price));
        assert((a + b).drop_first() == a.drop_first() + b);
        assert forall|i: int| 0 <= i < a.drop_first().len() implies !priority::outranks(
            side,
            price,
            (#[trigger] a.drop_first()[i]).price,
        ) by {
            assert(a.drop_first()[i] == a[i + 1]);
        }
        lemma_place_skips(side, a.drop_first(), b, price);
    }
}

pub(crate) proof fn lemma_place_bounds(side: Side, queue: Seq<Order>, price: u64)
    ensures
        0 <= priority::place_in(side, queue, price) <= queue.len(),
    decreases queue.len(),
{
    if queue.len() > 0 {
        lemma_place_bounds(side, queue.drop_first(), price);
    }
}

/// The orders of the level of `key`, none if there is no such level.
pub open spec fn level_at(levels: Map<u64, Seq<Order>>, key: u64) -> Seq<Order> {
    if levels.contains_key(key) {
        levels[key]
    } else {
        Seq::empty()
    }
}

/// An order that is appended to the level of its price has its place in the queue.
pub(crate) proof fn lemma_order_joins(side: Side, levels: Map<u64, Seq<Order>>, order: Order)
    requires
        levels_valid(side, levels),
        order.side == side,
        order.remaining_qty > 0,
    ensures
        ({
            let key = key_of(side, order.price);
            let after = levels.insert(key, level_at(levels, key).push(order));
            &&& levels_valid(side, after)
            &&& queue_of(after) == priority::joined(queue_of(levels), order)
        }),
    decreases levels.dom().len(),
{
    let key = key_of(side, order.price);
    let level = level_at(levels, key).push(order);
    let after = levels.insert(key, level);
    let queue = queue_of(levels);
    assert(level_valid(side, key, level)) by {
        if levels.contains_key(key) {
            assert(level_valid(side, key, levels[key]));
        }
    }
    lemma_inserted_valid(side, levels, key, level);
    lemma_queue_valid(side, levels);
    lemma_place_bounds(side, queue, order.price);
    if levels.dom().len() > 0 {
        lemma_best_exists(levels);
    }
    if levels.dom().len() == 0 || key < best_key(levels) {
        assert forall|k: u64| #[trigger] after.contains_key(k) implies key <= k by {
            if k != key {
                assert(levels.contains_key(k));
                assert(levels.dom().contains(k));
            }
        }
        assert(!levels.contains_key(key));
        assert(is_best(after, key));
        lemma_queue_unfolds(after, key);
        assert(after.remove(key) =~= levels);
        assert(level =~= seq![order]);
        if queue.len() > 0 {
            assert(levels.contains_key(key_of(side, queue[0].price)));
            lemma_keys_rank(side, order.price, queue[0].price);
            if levels.dom().len() == 0 {
                lemma_queue_empty(levels);
            }
        }
        assert(priority::place_in(side, queue, order.price) == 0);
        assert(seq![order] + queue =~= queue.insert(0, order));
    } else {
        let best = best_key(levels);
        let rest = levels.remove(best);
        let head = levels[best];
        let tail = queue_of(rest);
        assert(level_valid(side, best, head));
        lemma_queue_unfolds(levels, best);
        lemma_removed_valid(side, levels, best);
        assert forall|i: int| 0 <= i < head.len() implies !priority::outranks(
            side,
            order.price,
            (#[trigger] head[i]).price,
        ) by {
            lemma_keys_rank(side, order.price, head[i].price);
        }
        lemma_place_skips(side, head, tail, order.price);
        if key == best {
            lemma_level_replaced(levels, key, level);
            lemma_queue_valid(side, rest);
            if tail.len() > 0 {
                assert(rest.contains_key(key_of(side, tail[0].price)));
                lemma_keys_rank(side, order.price, tail[0].price);
            }
            assert(priority::place_in(side, tail, order.price) == 0);
            assert(head.push(order) + tail =~= (head + tail).insert(head.len() as int, order));
        } else {
            lemma_order_joins(side, rest, order);
            lemma_place_bounds(side, tail, order.price);
            assert(level_at(rest, key) == level_at(levels, key));
            assert forall|k: u64| #[trigger] after.contains_key(k) implies best <= k by {
                if k != key {
                    assert(levels.contains_key(k));
                }
            }
            assert(is_best(after, best));
            lemma_queue_unfolds(after, best);
            assert(after.remove(best) =~= rest.insert(key, level));
            let at = priority::place_in(side, tail, order.price);
            assert(head + tail.insert(at, order) =~= (head + tail).insert(head.len() + at, order));
        }
    }
}

/// The orders of the levels of `keys`, one level after the other.
pub open spec fn orders_at(levels: Map<u64, Seq<Order>>, keys: Seq<u64>) -> Seq<Order>
    decreases keys.len(),
{
    if keys.len() == 0 {
        Seq::empty()
    } else {
        levels[keys[0]] + orders_at(levels, keys.drop_first())
    }
}

proof fn lemma_orders_elsewhere(levels: Map<u64, Seq<Order>>, keys: Seq<u64>, gone: u64)
    requires
        !keys.contains(gone),
    ensures
        orders_at(levels.remove(gone), keys) == orders_at(levels, keys),
    decreases keys.len(),
{
    if keys.len() > 0 {
        assert(keys.contains(keys[0]));
        assert forall|k: u64| #[trigger] keys.drop_first().contains(k) implies keys.contains(k) by {
            let i = choose|i: int| 0 <= i < keys.drop_first().len() && keys.drop_first()[i] == k;
            assert(keys[i + 1] == k);
        }
        lemma_orders_elsewhere(levels, keys.drop_first(), gone);
    }
}

/// Walking the levels by increasing key gives the queue.
pub(crate) proof fn lemma_queue_by_keys(levels: Map<u64, Seq<Order>>, keys: Seq<u64>)
    requires
        levels.dom().finite(),
        levels.dom() == keys.to_set(),
        forall|i: int, j: int|
            0 <= i < j < keys.len() ==> (#[trigger] keys[i]) < (#[trigger] keys[j]),
    ensures
        queue_of(levels) == orders_at(levels, keys),
    decreases keys.len(),
{
    if keys.len() == 0 {
        assert(levels.dom() =~= Set::<u64>::empty());
        lemma_queue_empty(levels);
    } else {
        let first = keys[0];
        let tail = keys.drop_first();
        let rest = levels.remove(first);
        assert(keys.to_set().contains(first));
        assert forall|k: u64| #[trigger] levels.contains_key(k) implies first <= k by {
            assert(keys.to_set().contains(k));
            let i = choose|i: int| 0 <= i < keys.len() && keys[i] == k;
            assert(first <= keys[i]);
        }
        assert(is_best(levels, first));
        lemma_queue_unfolds(levels, first);
        if tail.contains(first) {
            let i = choose|i: int| 0 <= i < tail.len() && tail[i] == first;
            assert(keys[i + 1] == first);
        }
        assert forall|k: u64| #[trigger] rest.dom().contains(k) <==> tail.to_set().contains(k) by {
            if rest.dom().contains(k) {
                assert(keys.to_set().contains(k));
                let i = choose|i: int| 0 <= i < keys.len() && keys[i] == k;
                assert(tail[i - 1] == k);
                assert(tail.contains(k));
            }
            if tail.to_set().contains(k) {
                let i = choose|i: int| 0 <= i < tail.len() && tail[i] == k;
                assert(keys[i + 1] == k);
                assert(keys.contains(k));
                assert(keys.to_set().contains(k));
            }
        }
        assert(rest.dom() =~= tail.to_set());
        lemma_queue_by_keys(rest, tail);
        lemma_orders_elsewhere(levels, tail, first);
    }
}

/// Of two levels of a side the one with the better price has the smaller key: the
/// higher bid, the lower ask. A key of a key is the price again.
pub proof fn better_levels_have_smaller_keys(side: Side, p: u64, q: u64, p_key: u64, q_key: u64)
    requires
        call_ensures(level_key, (side, p), p_key),
        call_ensures(level_key, (side, q), q_key),
    ensures
        side == Side::Buy ==> (p > q <==> p_key < q_key),
        side == Side::Sell ==> (p < q <==> p_key < q_key),
        q == p_key ==> q_key == p,
{
}

} // verus!
