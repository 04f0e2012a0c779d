use prediction_core::{MatchingEngine, OrderRequest, Side, SubmitError};

fn request(side: Side, price: u64, qty: u64) -> OrderRequest {
    OrderRequest { side, price, qty }
}

#[test]
fn orders_are_numbered_from_one() {
    let mut engine = MatchingEngine::new();
    for expected in 1..5 {
        let accepted = engine.submit(request(Side::Buy, 10, 1)).unwrap();
        assert_eq!(accepted.id, expected);
    }
}

#[test]
fn order_for_nothing_is_turned_down() {
    let mut engine = MatchingEngine::new();
    engine.submit(request(Side::Sell, 10, 5)).unwrap();
    let error = engine.submit(request(Side::Buy, 10, 0)).unwrap_err();
    assert_eq!(error, SubmitError::QtyNotPositive);
    assert_eq!(error.message(), "qty must be positive");
    let book = engine.snapshot();
    assert!(book.bids.is_empty());
    assert_eq!(book.asks[0].orders[0].qty, 5);
    assert_eq!(engine.submit(request(Side::Buy, 1, 1)).unwrap().id, 2);
}

#[test]
fn fills_name_both_orders() {
    let mut engine = MatchingEngine::new();
    assert!(engine.submit(request(Side::Sell, 10, 5)).unwrap().fills.is_empty());
    let accepted = engine.submit(request(Side::Buy, 12, 7)).unwrap();
    assert_eq!(accepted.fills.len(), 1);
    assert_eq!(accepted.fills[0].maker_order_id, 1);
    assert_eq!(accepted.fills[0].taker_order_id, accepted.id);
    assert_eq!(accepted.fills[0].price, 10);
    assert_eq!(accepted.fills[0].qty, 5);
    let book = engine.snapshot();
    assert!(book.asks.is_empty());
    assert_eq!(book.bids[0].price, 12);
    assert_eq!(book.bids[0].orders[0].qty, 2);
}

#[test]
fn no_placed_order_trades_beyond_its_quantity() {
    let mut engine = MatchingEngine::new();
    let placed = [
        (Side::Sell, 5, 8),
        (Side::Buy, 6, 3),
        (Side::Buy, 5, 3),
        (Side::Buy, 7, 3),
        (Side::Sell, 6, 2),
    ];
    let mut traded = [0; 6];
    for (side, price, qty) in placed {
        for fill in engine.submit(request(side, price, qty)).unwrap().fills {
            traded[fill.maker_order_id as usize] += fill.qty;
            traded[fill.taker_order_id as usize] += fill.qty;
        }
    }
    assert_eq!(traded, [0, 8, 3, 3, 3, 1]);
}

#[test]
fn quantity_is_conserved() {
    let mut engine = MatchingEngine::new();
    let mut fills = 0;
    for (side, price, qty) in [(Side::Sell, 5, 8), (Side::Buy, 6, 3), (Side::Buy, 4, 6)] {
        for fill in engine.submit(request(side, price, qty)).unwrap().fills {
            fills += fill.qty;
        }
    }
    let book = engine.snapshot();
    let open: u64 = book
        .bids
        .iter()
        .chain(book.asks.iter())
        .flat_map(|level| level.orders.iter())
        .map(|order| order.qty)
        .sum();
    assert_eq!((fills, open), (3, 11));
    assert_eq!(2 * fills + open, 17);
}
