use matching_engine::api::types::{CreateOrderRequest, OrderLevel, SyncMessage};
use matching_engine::api::ws::{
    apply_sync_message, book_from_levels, next_sync_action, sync_url, update_level, SyncAction,
    SyncEvent, RECONNECT_SECONDS,
};
use matching_engine::api::{
    forward_target, forward_url, can_submit, orderbook_response, orderbook_state, parse_side,
    snapshot_message, submit_order, sync_messages, validate_order, BAD_GATEWAY, BAD_REQUEST,
    INTERNAL_SERVER_ERROR,
};
use matching_engine::engine::{process_order, OrderBookDelta};
use matching_engine::models::{Fill, Order, Side};
use matching_engine::orderbook::OrderBook;
use matching_engine::state::{Config, Engine};

fn config() -> Config {
    Config {
        is_primary: true,
        primary_url: Some("http://localhost:3000/".to_string()),
        symbols: vec!["BTC".to_string(), "ETH".to_string()],
    }
}

fn request(symbol: &str, side: &str, price: u64, qty: u64) -> CreateOrderRequest {
    CreateOrderRequest { symbol: symbol.to_string(), side: side.to_string(), price, qty }
}

fn order(id: u64, side: Side, price: u64, qty: u64) -> Order {
    Order { id, side, price, qty }
}

#[test]
fn parse_side_ignores_case() {
    assert_eq!(parse_side("BUY"), Some(Side::Buy));
    assert_eq!(parse_side("buy"), Some(Side::Buy));
    assert_eq!(parse_side("Sell"), Some(Side::Sell));
    assert_eq!(parse_side("hold"), None);
}

#[test]
fn validate_order_accepts_good_request() {
    let r = validate_order(&config(), &request("BTC", "Buy", 100, 5));
    assert_eq!(r.ok(), Some(Side::Buy));
}

#[test]
fn validate_order_rejects_side_first() {
    let e = validate_order(&config(), &request("DOGE", "hold", 0, 0)).err().unwrap();
    assert_eq!(e.status, BAD_REQUEST);
    assert_eq!(e.body.error, "invalid side");
}

#[test]
fn validate_order_rejects_unknown_symbol() {
    let e = validate_order(&config(), &request("DOGE", "sell", 100, 5)).err().unwrap();
    assert_eq!(e.status, BAD_REQUEST);
    assert_eq!(e.body.error, "invalid symbol: DOGE. Valid symbols: [\"BTC\", \"ETH\"]");
}

#[test]
fn validate_order_rejects_zero_price_or_qty() {
    let e = validate_order(&config(), &request("BTC", "sell", 0, 5)).err().unwrap();
    assert_eq!(e.status, BAD_REQUEST);
    assert_eq!(e.body.error, "price and qty must be > 0");
    let e = validate_order(&config(), &request("BTC", "sell", 5, 0)).err().unwrap();
    assert_eq!(e.body.error, "price and qty must be > 0");
}

#[test]
fn submit_order_matches_on_the_symbol_book() {
    let mut engine = Engine::new(&config().symbols);
    assert!(can_submit(&engine, "BTC", &order(0, Side::Sell, 100, 10)));
    let r = submit_order(&mut engine, "BTC", order(0, Side::Sell, 100, 10)).ok().unwrap();
    assert!(r.fills.is_empty());
    let r = submit_order(&mut engine, "BTC", order(1, Side::Buy, 101, 4)).ok().unwrap();
    assert_eq!(r.fills.len(), 1);
    assert_eq!(r.fills[0], Fill { maker_order_id: 0, taker_order_id: 1, price: 100, qty: 4 });
    assert_eq!(r.deltas, vec![OrderBookDelta { side: Side::Sell, price: 100, qty: 6 }]);
    assert!(engine.get_orderbook("ETH").unwrap().asks.is_empty());
}

#[test]
fn submit_order_without_book_is_internal_error() {
    let mut engine = Engine::new(&config().symbols);
    let e = submit_order(&mut engine, "DOGE", order(0, Side::Sell, 100, 10)).err().unwrap();
    assert_eq!(e.status, INTERNAL_SERVER_ERROR);
    assert_eq!(e.body.error, "orderbook not found");
}

#[test]
fn can_submit_rejects_level_overflow() {
    let mut engine = Engine::new(&config().symbols);
    submit_order(&mut engine, "BTC", order(0, Side::Buy, 100, u64::MAX - 1)).ok().unwrap();
    assert!(can_submit(&engine, "BTC", &order(1, Side::Buy, 100, 1)));
    assert!(!can_submit(&engine, "BTC", &order(1, Side::Buy, 100, 2)));
    assert!(can_submit(&engine, "DOGE", &order(1, Side::Buy, 100, 2)));
}

#[test]
fn can_submit_counts_only_what_rests() {
    let mut engine = Engine::new(&config().symbols);
    submit_order(&mut engine, "BTC", order(0, Side::Buy, 100, u64::MAX - 1)).ok().unwrap();
    engine.get_orderbook_mut("BTC").unwrap().add_order(order(1, Side::Sell, 100, 5)).unwrap();
    assert!(can_submit(&engine, "BTC", &order(2, Side::Buy, 100, 6)));
    assert!(!can_submit(&engine, "BTC", &order(2, Side::Buy, 100, 7)));
    let r = submit_order(&mut engine, "BTC", order(2, Side::Buy, 100, 6)).ok().unwrap();
    assert_eq!(r.fills.len(), 1);
    assert_eq!(engine.get_orderbook("BTC").unwrap().bids.get(&100).unwrap().back().unwrap().qty, 1);
}

#[test]
fn sync_messages_lists_fills_then_updates() {
    let mut book = OrderBook::new();
    book.add_order(order(7, Side::Sell, 100, 5)).unwrap();
    let result = process_order(order(8, Side::Buy, 100, 8), &mut book);
    let msgs = sync_messages(&"BTC".to_string(), &result);
    assert_eq!(msgs.len(), 3);
    match &msgs[0] {
        SyncMessage::Fill { symbol, data } => {
            assert_eq!(symbol, "BTC");
            assert_eq!(data.maker_order_id, 7);
            assert_eq!(data.qty, 5);
        },
        _ => panic!("expected a fill"),
    }
    match &msgs[1] {
        SyncMessage::AskUpdate { symbol, price, qty } => {
            assert_eq!(symbol, "BTC");
            assert_eq!((*price, *qty), (100, 0));
        },
        _ => panic!("expected an ask update"),
    }
    match &msgs[2] {
        SyncMessage::BidUpdate { symbol, price, qty } => {
            assert_eq!(symbol, "BTC");
            assert_eq!((*price, *qty), (100, 3));
        },
        _ => panic!("expected a bid update"),
    }
}

#[test]
fn orderbook_state_orders_levels() {
    let mut book = OrderBook::new();
    book.add_order(order(1, Side::Buy, 99, 5)).unwrap();
    book.add_order(order(2, Side::Buy, 101, 3)).unwrap();
    book.add_order(order(3, Side::Buy, 101, 4)).unwrap();
    book.add_order(order(4, Side::Sell, 110, 1)).unwrap();
    book.add_order(order(5, Side::Sell, 105, 2)).unwrap();
    let (bids, asks) = orderbook_state(&book).unwrap();
    assert_eq!(bids, vec![OrderLevel { price: 101, qty: 7 }, OrderLevel { price: 99, qty: 5 }]);
    assert_eq!(asks, vec![OrderLevel { price: 105, qty: 2 }, OrderLevel { price: 110, qty: 1 }]);
}

#[test]
fn orderbook_state_detects_overflowing_level() {
    let mut book = OrderBook::new();
    book.add_order(order(1, Side::Sell, 99, u64::MAX)).unwrap();
    book.add_order(order(2, Side::Sell, 99, 1)).unwrap();
    assert!(orderbook_state(&book).is_none());
}

#[test]
fn orderbook_response_answers_each_case() {
    let cfg = config();
    let mut engine = Engine::new(&vec!["BTC".to_string()]);
    submit_order(&mut engine, "BTC", order(0, Side::Buy, 100, 10)).ok().unwrap();
    let resp = orderbook_response(&cfg, &engine, &"BTC".to_string()).unwrap().ok().unwrap();
    assert_eq!(resp.symbol, "BTC");
    assert_eq!(resp.bids, vec![OrderLevel { price: 100, qty: 10 }]);
    assert!(resp.asks.is_empty());
    let e = orderbook_response(&cfg, &engine, &"DOGE".to_string()).unwrap().err().unwrap();
    assert_eq!(e.status, BAD_REQUEST);
    let e = orderbook_response(&cfg, &engine, &"ETH".to_string()).unwrap().err().unwrap();
    assert_eq!(e.status, INTERNAL_SERVER_ERROR);
    assert_eq!(e.body.error, "orderbook for symbol 'ETH' not found");
}

#[test]
fn forward_and_sync_urls() {
    assert_eq!(forward_url("http://localhost:3000//"), "http://localhost:3000/orders");
    assert_eq!(forward_url("http://p"), "http://p/orders");
    assert_eq!(sync_url("http://localhost:3000"), "ws://localhost:3000/internal/sync");
    assert_eq!(sync_url("https://primary"), "wss://primary/internal/sync");
    assert_eq!(forward_target(&config()).ok().unwrap(), "http://localhost:3000/orders");
    let mut cfg = config();
    cfg.primary_url = None;
    let e = forward_target(&cfg).err().unwrap();
    assert_eq!(e.status, BAD_GATEWAY);
    assert_eq!(e.body.error, "no primary configured");
}

#[test]
fn update_level_sets_or_removes() {
    let mut book = OrderBook::new();
    book.add_order(order(1, Side::Buy, 100, 3)).unwrap();
    book.add_order(order(2, Side::Buy, 100, 4)).unwrap();
    update_level(&mut book, Side::Buy, 100, 9);
    let level = book.bids.get(&100).unwrap();
    assert_eq!(level.len(), 1);
    assert_eq!(level.front().unwrap().qty, 9);
    assert_eq!(level.front().unwrap().id, 0);
    update_level(&mut book, Side::Buy, 100, 0);
    assert!(book.bids.is_empty());
    update_level(&mut book, Side::Sell, 120, 2);
    assert_eq!(book.asks.get(&120).unwrap().front().unwrap().qty, 2);
}

#[test]
fn book_from_levels_reports_first_bad_level() {
    let good = vec![OrderLevel { price: 100, qty: 2 }];
    let zero_qty = vec![OrderLevel { price: 100, qty: 0 }];
    let zero_price = vec![OrderLevel { price: 0, qty: 3 }];
    let book = book_from_levels(&good, &good).ok().unwrap();
    assert_eq!(book.bids.get(&100).unwrap().front().unwrap().qty, 2);
    assert_eq!(book.asks.get(&100).unwrap().front().unwrap().qty, 2);
    assert_eq!(book_from_levels(&zero_price, &zero_qty).err().unwrap(), "Zero price order");
    assert_eq!(book_from_levels(&good, &zero_qty).err().unwrap(), "Zero quantity order");
}

#[test]
fn apply_sync_message_on_replica() {
    let mut engine = Engine::new(&vec!["BTC".to_string()]);
    let fill = Fill { maker_order_id: 1, taker_order_id: 2, price: 100, qty: 3 };
    let r = apply_sync_message(&mut engine, &SyncMessage::Fill { symbol: "BTC".to_string(), data: fill });
    assert_eq!(r, Ok(Some(fill)));
    let r = apply_sync_message(
        &mut engine,
        &SyncMessage::BidUpdate { symbol: "BTC".to_string(), price: 100, qty: 7 },
    );
    assert_eq!(r, Ok(None));
    assert_eq!(engine.get_orderbook("BTC").unwrap().bids.get(&100).unwrap().front().unwrap().qty, 7);
    let r = apply_sync_message(
        &mut engine,
        &SyncMessage::AskUpdate { symbol: "DOGE".to_string(), price: 100, qty: 7 },
    );
    assert_eq!(r, Ok(None));
    let snap = SyncMessage::Snapshot {
        symbol: "BTC".to_string(),
        bids: vec![OrderLevel { price: 90, qty: 1 }],
        asks: vec![OrderLevel { price: 95, qty: 2 }],
    };
    assert_eq!(apply_sync_message(&mut engine, &snap), Ok(None));
    let book = engine.get_orderbook("BTC").unwrap();
    assert!(book.bids.get(&100).is_none());
    assert_eq!(book.bids.get(&90).unwrap().front().unwrap().qty, 1);
    assert_eq!(book.asks.get(&95).unwrap().front().unwrap().qty, 2);
    let bad = SyncMessage::Snapshot {
        symbol: "BTC".to_string(),
        bids: vec![OrderLevel { price: 90, qty: 0 }],
        asks: vec![],
    };
    assert_eq!(apply_sync_message(&mut engine, &bad), Err("Zero quantity order".to_string()));
    assert!(engine.get_orderbook("BTC").unwrap().bids.get(&90).is_some());
}

#[test]
fn replica_follows_primary_through_deltas() {
    let mut primary = OrderBook::new();
    let mut replica = OrderBook::new();
    let orders = vec![
        order(1, Side::Sell, 101, 5),
        order(2, Side::Sell, 102, 5),
        order(3, Side::Buy, 99, 4),
        order(4, Side::Buy, 102, 7),
        order(5, Side::Sell, 98, 6),
        order(6, Side::Sell, 99, 1),
    ];
    for o in orders {
        let result = process_order(o, &mut primary);
        for d in &result.deltas {
            update_level(&mut replica, d.side, d.price, d.qty);
        }
        assert_eq!(orderbook_state(&primary).unwrap(), orderbook_state(&replica).unwrap());
    }
}

#[test]
fn snapshot_reproduces_level_totals() {
    let mut primary = OrderBook::new();
    primary.add_order(order(1, Side::Buy, 99, 5)).unwrap();
    primary.add_order(order(2, Side::Buy, 99, 6)).unwrap();
    primary.add_order(order(3, Side::Sell, 120, 2)).unwrap();
    let snap = snapshot_message(&"BTC".to_string(), &primary).unwrap();
    let mut replica = Engine::new(&vec!["BTC".to_string()]);
    assert_eq!(apply_sync_message(&mut replica, &snap), Ok(None));
    assert_eq!(
        orderbook_state(replica.get_orderbook("BTC").unwrap()).unwrap(),
        orderbook_state(&primary).unwrap()
    );
}

#[test]
fn next_sync_action_connects_then_retries() {
    let cfg = config();
    match next_sync_action(&cfg, SyncEvent::Started) {
        SyncAction::Connect { url, delay_seconds } => {
            assert_eq!(url, "ws://localhost:3000//internal/sync");
            assert_eq!(delay_seconds, 0);
        }
        SyncAction::Stop => panic!("a configured primary is followed"),
    }
    match next_sync_action(&cfg, SyncEvent::ConnectionEnded) {
        SyncAction::Connect { delay_seconds, .. } => assert_eq!(delay_seconds, RECONNECT_SECONDS),
        SyncAction::Stop => panic!("a configured primary is followed"),
    }
    assert_eq!(RECONNECT_SECONDS, 5);
    let none = Config { is_primary: false, primary_url: None, symbols: cfg.symbols.clone() };
    assert!(matches!(next_sync_action(&none, SyncEvent::Started), SyncAction::Stop));
}

#[test]
fn orderbook_response_lists_what_orderbook_state_lists() {
    let cfg = config();
    let mut engine = Engine::new(&cfg.symbols);
    submit_order(&mut engine, "BTC", order(0, Side::Buy, 99, 3)).ok().unwrap();
    submit_order(&mut engine, "BTC", order(1, Side::Buy, 98, 2)).ok().unwrap();
    submit_order(&mut engine, "BTC", order(2, Side::Sell, 101, 4)).ok().unwrap();
    submit_order(&mut engine, "BTC", order(3, Side::Sell, 102, 1)).ok().unwrap();
    let resp = orderbook_response(&cfg, &engine, &"BTC".to_string()).unwrap().ok().unwrap();
    let (bids, asks) = orderbook_state(engine.get_orderbook("BTC").unwrap()).unwrap();
    assert_eq!(resp.bids, bids);
    assert_eq!(resp.asks, asks);
    assert_eq!(bids, vec![OrderLevel { price: 99, qty: 3 }, OrderLevel { price: 98, qty: 2 }]);
}
