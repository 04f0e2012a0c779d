use prediction_core::{BookLevel, Fill, Order, OrderBook, Side};

#[test]
fn price_time_priority_partial() {
    let mut book = OrderBook::new();
    let _ = book.submit(Order::new(1, Side::Sell, 100, 10));
    let _ = book.submit(Order::new(2, Side::Sell, 100, 5));
    let fills = book.submit(Order::new(3, Side::Buy, 100, 8));
    assert_eq!(fills.len(), 1);
    assert_eq!(fills[0].qty, 8);
    assert_eq!(fills[0].maker_order_id, 1);
    let snap = book.snapshot_levels();
    let ask100 = snap.asks.iter().find(|l| l.price == 100).unwrap();
    assert_eq!(ask100.orders.len(), 2);
    assert_eq!(ask100.orders[0].id, 1);
    assert_eq!(ask100.orders[0].qty, 2);
    assert_eq!(ask100.orders[1].id, 2);
    assert_eq!(ask100.orders[1].qty, 5);
}

#[test]
fn sell_matches_highest_bid() {
    let mut book = OrderBook::new();
    let _ = book.submit(Order::new(1, Side::Buy, 101, 3));
    let _ = book.submit(Order::new(2, Side::Buy, 100, 5));
    let fills = book.submit(Order::new(3, Side::Sell, 99, 4));
    assert_eq!(fills.len(), 2);
    assert_eq!(fills[0].price, 101);
    assert_eq!(fills[0].qty, 3);
    assert_eq!(fills[1].price, 100);
    assert_eq!(fills[1].qty, 1);
    let snap = book.snapshot_levels();
    let bid100 = snap.bids.iter().find(|l| l.price == 100).unwrap();
    assert_eq!(bid100.orders[0].qty, 4);
}

fn prices(levels: &[BookLevel]) -> Vec<u64> {
    levels.iter().map(|level| level.price).collect()
}

fn open_ids(levels: &[BookLevel]) -> Vec<(u64, u64)> {
    levels
        .iter()
        .flat_map(|level| level.orders.iter().map(|order| (order.id, order.qty)))
        .collect()
}

fn fill(maker: u64, taker: u64, price: u64, qty: u64) -> Fill {
    Fill {
        maker_order_id: maker,
        taker_order_id: taker,
        price,
        qty,
    }
}

#[test]
fn new_order_is_wholly_open() {
    let order = Order::new(7, Side::Buy, 42, 9);
    assert_eq!(order.id, 7);
    assert_eq!(order.side, Side::Buy);
    assert_eq!(order.price, 42);
    assert_eq!(order.qty, 9);
    assert_eq!(order.remaining_qty, 9);
}

#[test]
fn new_book_is_empty() {
    let snap = OrderBook::new().snapshot_levels();
    assert!(snap.bids.is_empty());
    assert!(snap.asks.is_empty());
    let snap = OrderBook::default().snapshot_levels();
    assert!(snap.bids.is_empty() && snap.asks.is_empty());
}

#[test]
fn snapshot_lists_bids_down_and_asks_up() {
    let mut book = OrderBook::new();
    for (id, price) in [(1, 50), (2, 52), (3, 51), (4, 52)] {
        assert!(book.submit(Order::new(id, Side::Buy, price, 10 + id)).is_empty());
    }
    for (id, price) in [(5, 60), (6, 58), (7, 59), (8, 58)] {
        assert!(book.submit(Order::new(id, Side::Sell, price, 10 + id)).is_empty());
    }
    let snap = book.snapshot_levels();
    assert_eq!(prices(&snap.bids), vec![52, 51, 50]);
    assert_eq!(prices(&snap.asks), vec![58, 59, 60]);
    assert_eq!(open_ids(&snap.bids), vec![(2, 12), (4, 14), (3, 13), (1, 11)]);
    assert_eq!(open_ids(&snap.asks), vec![(6, 16), (8, 18), (7, 17), (5, 15)]);
    assert_eq!(snap.bids[0].orders[0].side, Side::Buy);
    assert_eq!(snap.asks[0].orders[0].side, Side::Sell);
    assert_eq!(snap.asks[0].orders[0].price, 58);
}

#[test]
fn buyer_sweeps_levels_at_maker_prices() {
    let mut book = OrderBook::new();
    book.submit(Order::new(1, Side::Sell, 102, 4));
    book.submit(Order::new(2, Side::Sell, 100, 3));
    book.submit(Order::new(3, Side::Sell, 100, 2));
    book.submit(Order::new(4, Side::Sell, 105, 9));
    let fills = book.submit(Order::new(5, Side::Buy, 103, 12));
    assert_eq!(
        fills,
        vec![fill(2, 5, 100, 3), fill(3, 5, 100, 2), fill(1, 5, 102, 4)]
    );
    let snap = book.snapshot_levels();
    assert_eq!(open_ids(&snap.asks), vec![(4, 9)]);
    assert_eq!(prices(&snap.bids), vec![103]);
    assert_eq!(open_ids(&snap.bids), vec![(5, 3)]);
}

#[test]
fn quantity_is_neither_made_nor_lost() {
    let mut book = OrderBook::new();
    book.submit(Order::new(1, Side::Buy, 10, 5));
    book.submit(Order::new(2, Side::Buy, 9, 7));
    let fills = book.submit(Order::new(3, Side::Sell, 9, 8));
    let traded: u64 = fills.iter().map(|f| f.qty).sum();
    assert_eq!(traded, 8);
    let left: u64 = book.snapshot_levels().bids.iter().flat_map(|l| &l.orders).map(|o| o.qty).sum();
    assert_eq!(left, 12 - 8);
}

#[test]
fn no_quantity_is_matched_twice() {
    let mut book = OrderBook::new();
    book.submit(Order::new(1, Side::Sell, 20, 10));
    let mut traded = 0;
    for id in 2..7 {
        for f in book.submit(Order::new(id, Side::Buy, 20, 3)) {
            assert_eq!(f.maker_order_id, 1);
            traded += f.qty;
        }
    }
    assert_eq!(traded, 10);
    let snap = book.snapshot_levels();
    assert!(snap.asks.is_empty());
    assert_eq!(open_ids(&snap.bids), vec![(5, 2), (6, 3)]);
}

#[test]
fn book_is_never_crossed() {
    let mut book = OrderBook::new();
    let orders = [
        (Side::Buy, 10, 5),
        (Side::Sell, 12, 5),
        (Side::Buy, 13, 7),
        (Side::Sell, 9, 4),
        (Side::Sell, 13, 1),
        (Side::Buy, 12, 2),
    ];
    for (n, (side, price, qty)) in orders.into_iter().enumerate() {
        book.submit(Order::new(n as u64 + 1, side, price, qty));
        let snap = book.snapshot_levels();
        if let (Some(bid), Some(ask)) = (snap.bids.first(), snap.asks.first()) {
            assert!(bid.price < ask.price);
        }
    }
}

#[test]
fn seller_that_reaches_nothing_rests() {
    let mut book = OrderBook::new();
    book.submit(Order::new(1, Side::Buy, 10, 5));
    assert!(book.submit(Order::new(2, Side::Sell, 11, 5)).is_empty());
    let snap = book.snapshot_levels();
    assert_eq!(open_ids(&snap.bids), vec![(1, 5)]);
    assert_eq!(open_ids(&snap.asks), vec![(2, 5)]);
}

#[test]
fn partly_filled_maker_keeps_its_turn() {
    let mut book = OrderBook::new();
    book.submit(Order::new(1, Side::Buy, 10, 5));
    book.submit(Order::new(2, Side::Buy, 10, 5));
    assert_eq!(book.submit(Order::new(3, Side::Sell, 10, 2)), vec![fill(1, 3, 10, 2)]);
    book.submit(Order::new(4, Side::Buy, 10, 5));
    assert_eq!(
        book.submit(Order::new(5, Side::Sell, 10, 9)),
        vec![fill(1, 5, 10, 3), fill(2, 5, 10, 5), fill(4, 5, 10, 1)]
    );
    assert_eq!(open_ids(&book.snapshot_levels().bids), vec![(4, 4)]);
}

#[test]
fn filled_taker_leaves_its_own_side_alone() {
    let mut book = OrderBook::new();
    book.submit(Order::new(1, Side::Buy, 8, 1));
    book.submit(Order::new(2, Side::Sell, 10, 5));
    assert_eq!(book.submit(Order::new(3, Side::Buy, 11, 5)), vec![fill(2, 3, 10, 5)]);
    let snap = book.snapshot_levels();
    assert_eq!(open_ids(&snap.bids), vec![(1, 1)]);
    assert!(snap.asks.is_empty());
}

#[test]
fn order_with_nothing_open_changes_nothing() {
    let mut book = OrderBook::new();
    book.submit(Order::new(1, Side::Sell, 10, 5));
    let spent = Order {
        id: 2,
        side: Side::Buy,
        price: 10,
        qty: 4,
        remaining_qty: 0,
    };
    assert!(book.submit(spent).is_empty());
    let snap = book.snapshot_levels();
    assert!(snap.bids.is_empty());
    assert_eq!(open_ids(&snap.asks), vec![(1, 5)]);
}

#[test]
fn extreme_prices_and_quantities_match() {
    let mut book = OrderBook::new();
    book.submit(Order::new(1, Side::Buy, u64::MAX, u64::MAX));
    book.submit(Order::new(2, Side::Buy, 0, u64::MAX));
    assert_eq!(prices(&book.snapshot_levels().bids), vec![u64::MAX, 0]);
    let fills = book.submit(Order::new(3, Side::Sell, 0, u64::MAX));
    assert_eq!(fills, vec![fill(1, 3, u64::MAX, u64::MAX)]);
    assert_eq!(prices(&book.snapshot_levels().bids), vec![0]);
}
