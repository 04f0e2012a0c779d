use prediction_core::endpoints::{
    get_orderbook, post_order, GetOrderbookEvent, PostOrderEvent, ReplyBody, SnapshotRequest, Step,
};
use prediction_core::feed::{
    relay, serve_client, ClientAction, ClientEvent, RelayAction, RelayEvent,
};
use prediction_core::proxy;
use prediction_core::proxy::{forward, post_orders, upstream_url, Method, ProxyBody, Upstream};
use prediction_core::{MatchingEngine, OrderRequest, Side, SubmitError};

fn error_of<C>(step: Step<C>) -> (u16, String) {
    match step {
        Step::Respond(reply) => match reply.body {
            ReplyBody::Error(text) => (reply.status, text),
            other => panic!("no error: {other:?}"),
        },
        Step::Enqueue(_) => panic!("not answered"),
    }
}

#[test]
fn post_order_screens_the_quantity() {
    let request = OrderRequest { side: Side::Sell, price: 7, qty: 1 };
    match post_order(PostOrderEvent::Received(request)) {
        Step::Enqueue(command) => assert_eq!(command, request),
        Step::Respond(reply) => panic!("{reply:?}"),
    }
    let nothing = OrderRequest { side: Side::Sell, price: 7, qty: 0 };
    assert_eq!(
        error_of(post_order(PostOrderEvent::Received(nothing))),
        (400, "qty must be positive".to_string())
    );
}

#[test]
fn post_order_answers_with_the_number() {
    match post_order(PostOrderEvent::Answered(Ok(17))) {
        Step::Respond(reply) => {
            assert_eq!(reply.status, 201);
            assert!(matches!(reply.body, ReplyBody::Id(17)));
        }
        Step::Enqueue(_) => panic!("not answered"),
    }
}

#[test]
fn post_order_failures() {
    assert_eq!(
        error_of(post_order(PostOrderEvent::QueueClosed)),
        (503, "matcher unavailable".to_string())
    );
    assert_eq!(
        error_of(post_order(PostOrderEvent::Answered(Err(SubmitError::QtyNotPositive)))),
        (400, "qty must be positive".to_string())
    );
    assert_eq!(
        error_of(post_order(PostOrderEvent::AnswerLost)),
        (500, "internal".to_string())
    );
}

#[test]
fn get_orderbook_shows_the_book() {
    let mut engine = MatchingEngine::new();
    engine.submit(OrderRequest { side: Side::Buy, price: 3, qty: 4 }).unwrap();
    assert!(matches!(
        get_orderbook(GetOrderbookEvent::Received),
        Step::Enqueue(SnapshotRequest)
    ));
    match get_orderbook(GetOrderbookEvent::Answered(engine.snapshot())) {
        Step::Respond(reply) => {
            assert_eq!(reply.status, 200);
            match reply.body {
                ReplyBody::Book(book) => assert_eq!(book.bids[0].orders[0].qty, 4),
                other => panic!("no book: {other:?}"),
            }
        }
        Step::Enqueue(_) => panic!("not answered"),
    }
}

#[test]
fn get_orderbook_failures() {
    assert_eq!(
        error_of(get_orderbook(GetOrderbookEvent::QueueClosed)),
        (503, "matcher unavailable".to_string())
    );
    assert_eq!(
        error_of(get_orderbook(GetOrderbookEvent::AnswerLost)),
        (500, "internal".to_string())
    );
}

#[test]
fn upstream_urls_have_one_slash() {
    assert_eq!(upstream_url("http://m:3001", "/orders"), "http://m:3001/orders");
    assert_eq!(upstream_url("http://m:3001///", "/orderbook"), "http://m:3001/orderbook");
    assert_eq!(upstream_url("http://m/a/b/", "/orders"), "http://m/a/b/orders");
    assert_eq!(upstream_url("//", "/orders"), "/orders");
    assert_eq!(upstream_url("", "/orders"), "/orders");
}

#[test]
fn proxy_hands_requests_on() {
    let request = post_orders("http://m:3001/", b"{}".to_vec());
    assert_eq!(request.method, Method::Post);
    assert_eq!(request.url, "http://m:3001/orders");
    let content = request.content.unwrap();
    assert_eq!(content.content_type, "application/json");
    assert_eq!(content.body, b"{}".to_vec());

    let request = proxy::get_orderbook("http://m:3001");
    assert_eq!(request.method, Method::Get);
    assert_eq!(request.url, "http://m:3001/orderbook");
    assert!(request.content.is_none());
}

#[test]
fn proxy_forwards_answers() {
    let reply = forward(Upstream::Answered { status: 201, body: b"{\"id\":1}".to_vec() });
    assert_eq!(reply.status, 201);
    assert_eq!(reply.content_type, "application/json");
    match reply.body {
        ProxyBody::Forwarded(body) => assert_eq!(body, b"{\"id\":1}".to_vec()),
        ProxyBody::Error(error) => panic!("{error}"),
    }
    for (given, passed) in [(99, 502), (100, 100), (999, 999), (1000, 502)] {
        let reply = forward(Upstream::Answered { status: given, body: vec![] });
        assert_eq!(reply.status, passed);
    }
}

#[test]
fn proxy_failures_are_gateway_errors() {
    for (upstream, text) in [
        (Upstream::SendFailed("refused".to_string()), "matcher request failed: refused"),
        (Upstream::BodyFailed("reset".to_string()), "read body: reset"),
    ] {
        let reply = forward(upstream);
        assert_eq!(reply.status, 502);
        assert_eq!(reply.content_type, "application/json");
        match reply.body {
            ProxyBody::Error(error) => assert_eq!(error, text),
            ProxyBody::Forwarded(_) => panic!("forwarded"),
        }
    }
}

#[test]
fn clients_get_fills_and_pongs() {
    match serve_client(ClientEvent::Fill("{}".to_string())) {
        ClientAction::Send(text) => assert_eq!(text, "{}"),
        other => panic!("{other:?}"),
    }
    match serve_client(ClientEvent::Ping(vec![1, 2])) {
        ClientAction::Pong(payload) => assert_eq!(payload, vec![1, 2]),
        other => panic!("{other:?}"),
    }
    assert!(matches!(serve_client(ClientEvent::OtherFrame), ClientAction::Wait));
    assert!(matches!(serve_client(ClientEvent::Lagged(3)), ClientAction::Wait));
    for event in [
        ClientEvent::Closed,
        ClientEvent::ReadFailed,
        ClientEvent::FeedClosed,
        ClientEvent::SendFailed,
    ] {
        assert!(matches!(serve_client(event), ClientAction::Stop));
    }
}

#[test]
fn relay_hands_texts_on_and_reconnects() {
    assert!(matches!(relay(RelayEvent::Idle), RelayAction::Connect));
    assert!(matches!(relay(RelayEvent::Connected), RelayAction::Read));
    assert!(matches!(relay(RelayEvent::OtherFrame), RelayAction::Read));
    match relay(RelayEvent::Text("{\"qty\":1}".to_string())) {
        RelayAction::Broadcast(text) => assert_eq!(text, "{\"qty\":1}"),
        other => panic!("{other:?}"),
    }
    for event in [RelayEvent::ConnectFailed, RelayEvent::Closed, RelayEvent::ReadFailed] {
        assert!(matches!(relay(event), RelayAction::Pause(1)));
    }
}
