use matching_engine::api::orderbook_state;
use matching_engine::api::ws::update_level;
use matching_engine::engine::process_order;
use matching_engine::models::{Order, Side};
use matching_engine::orderbook::OrderBook;

fn order(id: u64, side: Side, price: u64, qty: u64) -> Order {
    Order { id, side, price, qty }
}

fn book() -> OrderBook {
    let mut b = OrderBook::new();
    b.add_order(order(1, Side::Sell, 101, 3)).unwrap();
    b.add_order(order(2, Side::Sell, 101, 4)).unwrap();
    b.add_order(order(3, Side::Sell, 103, 5)).unwrap();
    b.add_order(order(4, Side::Buy, 99, 2)).unwrap();
    b
}

#[test]
fn fills_and_rest_add_up_to_the_order() {
    let mut b = book();
    let result = process_order(order(9, Side::Buy, 102, 10), &mut b);
    let filled: u64 = result.fills.iter().map(|f| f.qty).sum();
    assert_eq!(filled, 7);
    let rest = b.bids.get(&102).unwrap().back().unwrap();
    assert_eq!((rest.id, rest.qty), (9, 3));
    assert!(result.fills.iter().all(|f| f.price <= 102 && f.taker_order_id == 9));
}

#[test]
fn first_fill_is_earliest_order_at_best_price() {
    let mut b = book();
    let result = process_order(order(9, Side::Buy, 200, 2), &mut b);
    assert_eq!(result.fills[0].maker_order_id, 1);
    assert_eq!(result.fills[0].price, 101);
}

#[test]
fn book_stays_uncrossed() {
    let mut b = book();
    process_order(order(9, Side::Buy, 102, 10), &mut b);
    process_order(order(10, Side::Sell, 98, 4), &mut b);
    let best_bid = b.bids.keys().next_back().copied();
    let best_ask = b.asks.keys().next().copied();
    if let (Some(bid), Some(ask)) = (best_bid, best_ask) {
        assert!(bid < ask);
    }
}

#[test]
fn deltas_report_new_level_totals() {
    let mut b = book();
    let result = process_order(order(9, Side::Buy, 101, 5), &mut b);
    let (bids, asks) = orderbook_state(&b).unwrap();
    for d in &result.deltas {
        let levels = if d.side == Side::Buy { &bids } else { &asks };
        let total = levels.iter().find(|l| l.price == d.price).map(|l| l.qty).unwrap_or(0);
        assert_eq!(total, d.qty);
    }
    assert_eq!(result.deltas.len(), 1);
    assert_eq!(result.deltas[0].qty, 2);
}

#[test]
fn zero_quantity_changes_nothing() {
    let mut b = book();
    let before = orderbook_state(&b).unwrap();
    let result = process_order(order(9, Side::Sell, 1, 0), &mut b);
    assert!(result.fills.is_empty());
    assert!(result.deltas.is_empty());
    assert_eq!(orderbook_state(&b).unwrap(), before);
}

#[test]
fn fills_follow_price_priority() {
    let mut b = book();
    let result = process_order(order(9, Side::Buy, 103, 9), &mut b);
    let prices: Vec<u64> = result.fills.iter().map(|f| f.price).collect();
    assert_eq!(prices, vec![101, 101, 103]);
    let best_ask_left = *b.asks.keys().next().unwrap();
    assert!(result.fills.iter().all(|f| f.price <= best_ask_left));

    let mut s = book();
    s.add_order(order(5, Side::Buy, 100, 1)).unwrap();
    let result = process_order(order(10, Side::Sell, 99, 3), &mut s);
    let prices: Vec<u64> = result.fills.iter().map(|f| f.price).collect();
    assert_eq!(prices, vec![100, 99]);
}

#[test]
fn fills_follow_time_priority() {
    let mut b = book();
    b.add_order(order(5, Side::Sell, 101, 1)).unwrap();
    let result = process_order(order(9, Side::Buy, 101, 8), &mut b);
    let makers: Vec<u64> = result.fills.iter().map(|f| f.maker_order_id).collect();
    assert_eq!(makers, vec![1, 2, 5]);
    let qtys: Vec<u64> = result.fills.iter().map(|f| f.qty).collect();
    assert_eq!(qtys, vec![3, 4, 1]);
}

#[test]
fn replica_with_equal_level_totals_stays_in_step() {
    let mut primary = book();
    let mut replica = OrderBook::new();
    update_level(&mut replica, Side::Sell, 101, 7);
    update_level(&mut replica, Side::Sell, 103, 5);
    update_level(&mut replica, Side::Buy, 99, 2);
    assert_eq!(orderbook_state(&replica), orderbook_state(&primary));
    let result = process_order(order(9, Side::Buy, 101, 5), &mut primary);
    for d in &result.deltas {
        update_level(&mut replica, d.side, d.price, d.qty);
    }
    assert_eq!(orderbook_state(&replica), orderbook_state(&primary));
}

#[test]
fn processing_keeps_the_book_valid() {
    let mut b = book();
    process_order(order(9, Side::Buy, 103, 9), &mut b);
    process_order(order(10, Side::Sell, 99, 1), &mut b);
    for (side, levels) in [(Side::Buy, &b.bids), (Side::Sell, &b.asks)] {
        for (p, q) in levels.iter() {
            assert!(*p > 0 && !q.is_empty());
            assert!(q.iter().all(|o| o.side == side && o.price == *p && o.qty > 0));
        }
    }
    let best_bid = *b.bids.keys().next_back().unwrap();
    let best_ask = *b.asks.keys().next().unwrap();
    assert!(best_bid < best_ask);
}
