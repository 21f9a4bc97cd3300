use matching_engine::engine::{can_process_order, process_order};
use matching_engine::models::{Order, Side};
use matching_engine::orderbook::OrderBook;

fn create_order(id: u64, side: Side, price: u64, qty: u64) -> Order {
    Order {
        id,
        side,
        price,
        qty,
    }
}

#[test]
fn buy_order_no_asks() {
    let mut book = OrderBook::new();
    let order = create_order(0, Side::Buy, 100, 10);
    let result = process_order(order, &mut book);

    assert!(result.fills.is_empty());
    assert_eq!(result.deltas.len(), 1);
    assert_eq!(result.deltas[0].side, Side::Buy);
    assert_eq!(result.deltas[0].price, 100);
    assert_eq!(result.deltas[0].qty, 10);
    assert_eq!(book.bids.len(), 1);
    assert_eq!(book.bids.get(&100).unwrap().front().unwrap().qty, 10);
}

#[test]
fn buy_order_full_match_single_ask() {
    let mut book = OrderBook::new();
    book.add_order(create_order(100, Side::Sell, 100, 10))
        .unwrap();

    let order = create_order(0, Side::Buy, 100, 10);
    let result = process_order(order, &mut book);

    assert_eq!(result.fills.len(), 1);
    assert_eq!(result.fills[0].maker_order_id, 100);
    assert_eq!(result.fills[0].taker_order_id, 0);
    assert_eq!(result.fills[0].price, 100);
    assert_eq!(result.fills[0].qty, 10);
    assert!(book.asks.is_empty());

    assert_eq!(result.deltas.len(), 1);
    assert_eq!(result.deltas[0].side, Side::Sell);
    assert_eq!(result.deltas[0].price, 100);
    assert_eq!(result.deltas[0].qty, 0);
}

#[test]
fn buy_order_partial_match_single_ask() {
    let mut book = OrderBook::new();
    book.add_order(create_order(100, Side::Sell, 100, 20))
        .unwrap();

    let order = create_order(0, Side::Buy, 100, 10);
    let result = process_order(order, &mut book);

    assert_eq!(result.fills.len(), 1);
    assert_eq!(result.fills[0].qty, 10);
    assert_eq!(book.asks.len(), 1);
    assert_eq!(book.asks.get(&100).unwrap().front().unwrap().qty, 10);

    assert_eq!(result.deltas.len(), 1);
    assert_eq!(result.deltas[0].side, Side::Sell);
    assert_eq!(result.deltas[0].price, 100);
    assert_eq!(result.deltas[0].qty, 10);
}

#[test]
fn buy_order_matches_multiple_asks_same_price() {
    let mut book = OrderBook::new();
    book.add_order(create_order(100, Side::Sell, 100, 5))
        .unwrap();
    book.add_order(create_order(101, Side::Sell, 100, 10))
        .unwrap();

    let order = create_order(1, Side::Buy, 100, 15);
    let result = process_order(order, &mut book);

    assert_eq!(result.fills.len(), 2);
    assert_eq!(result.fills[0].maker_order_id, 100);
    assert_eq!(result.fills[0].qty, 5);
    assert_eq!(result.fills[1].maker_order_id, 101);
    assert_eq!(result.fills[1].qty, 10);
    assert!(book.asks.is_empty());

    assert_eq!(result.deltas.len(), 1);
    assert_eq!(result.deltas[0].side, Side::Sell);
    assert_eq!(result.deltas[0].price, 100);
    assert_eq!(result.deltas[0].qty, 0);
}

#[test]
fn buy_order_matchers_multiple_asks_different_prices() {
    let mut book = OrderBook::new();
    book.add_order(create_order(100, Side::Sell, 95, 5))
        .unwrap();
    book.add_order(create_order(101, Side::Sell, 100, 10))
        .unwrap();

    let order = create_order(1, Side::Buy, 100, 15);
    let result = process_order(order, &mut book);

    assert_eq!(result.fills.len(), 2);
    assert_eq!(result.fills[0].maker_order_id, 100);
    assert_eq!(result.fills[0].price, 95);
    assert_eq!(result.fills[0].qty, 5);
    assert_eq!(result.fills[1].maker_order_id, 101);
    assert_eq!(result.fills[1].price, 100);
    assert_eq!(result.fills[1].qty, 10);
    assert!(book.asks.is_empty());

    assert_eq!(result.deltas.len(), 2);
    assert!(
        result
            .deltas
            .iter()
            .any(|d| d.side == Side::Sell && d.price == 95 && d.qty == 0)
    );
    assert!(
        result
            .deltas
            .iter()
            .any(|d| d.side == Side::Sell && d.price == 100 && d.qty == 0)
    );
}

#[test]
fn buy_order_no_match_price_too_low() {
    let mut book = OrderBook::new();
    book.add_order(create_order(100, Side::Sell, 100, 10))
        .unwrap();

    let order = create_order(1, Side::Buy, 90, 10);
    let result = process_order(order, &mut book);

    assert!(result.fills.is_empty());
    assert_eq!(book.asks.len(), 1);
    assert_eq!(book.bids.len(), 1);
    assert_eq!(book.bids.get(&90).unwrap().front().unwrap().qty, 10);

    assert_eq!(result.deltas.len(), 1);
    assert_eq!(result.deltas[0].side, Side::Buy);
    assert_eq!(result.deltas[0].price, 90);
    assert_eq!(result.deltas[0].qty, 10);
}

#[test]
fn buy_order_better_price_gets_better_fill() {
    let mut book = OrderBook::new();
    book.add_order(create_order(100, Side::Sell, 100, 10))
        .unwrap();

    let order = create_order(1, Side::Buy, 110, 10);
    let result = process_order(order, &mut book);

    assert_eq!(result.fills.len(), 1);
    assert_eq!(result.fills[0].price, 100);
    assert!(book.asks.is_empty());

    assert_eq!(result.deltas.len(), 1);
    assert_eq!(result.deltas[0].side, Side::Sell);
    assert_eq!(result.deltas[0].price, 100);
    assert_eq!(result.deltas[0].qty, 0);
}

#[test]
fn buy_order_partial_then_rests() {
    let mut book = OrderBook::new();
    book.add_order(create_order(100, Side::Sell, 100, 5))
        .unwrap();

    let order = create_order(1, Side::Buy, 100, 10);
    let result = process_order(order, &mut book);

    assert_eq!(result.fills.len(), 1);
    assert_eq!(result.fills[0].qty, 5);
    assert_eq!(book.bids.len(), 1);
    assert_eq!(book.bids.get(&100).unwrap().front().unwrap().qty, 5);

    assert_eq!(result.deltas.len(), 2);
    assert!(
        result
            .deltas
            .iter()
            .any(|d| d.side == Side::Sell && d.price == 100 && d.qty == 0)
    );
    assert!(
        result
            .deltas
            .iter()
            .any(|d| d.side == Side::Buy && d.price == 100 && d.qty == 5)
    );
}

#[test]
fn sell_order_no_bids() {
    let mut book = OrderBook::new();
    let order = create_order(1, Side::Sell, 100, 10);
    let result = process_order(order, &mut book);

    assert!(result.fills.is_empty());
    assert_eq!(result.deltas.len(), 1);
    assert_eq!(result.deltas[0].side, Side::Sell);
    assert_eq!(result.deltas[0].price, 100);
    assert_eq!(result.deltas[0].qty, 10);
    assert_eq!(book.asks.len(), 1);
    assert_eq!(book.asks.get(&100).unwrap().front().unwrap().qty, 10);
}

#[test]
fn sell_order_full_match_single_bid() {
    let mut book = OrderBook::new();
    book.add_order(create_order(100, Side::Buy, 100, 10))
        .unwrap();

    let order = create_order(1, Side::Sell, 100, 10);
    let result = process_order(order, &mut book);

    assert_eq!(result.fills.len(), 1);
    assert_eq!(result.fills[0].maker_order_id, 100);
    assert_eq!(result.fills[0].taker_order_id, 1);
    assert_eq!(result.fills[0].price, 100);
    assert_eq!(result.fills[0].qty, 10);
    assert!(book.bids.is_empty());

    assert_eq!(result.deltas.len(), 1);
    assert_eq!(result.deltas[0].side, Side::Buy);
    assert_eq!(result.deltas[0].price, 100);
    assert_eq!(result.deltas[0].qty, 0);
}

#[test]
fn sell_order_partial_match_single_bid() {
    let mut book = OrderBook::new();
    book.add_order(create_order(100, Side::Buy, 100, 20))
        .unwrap();

    let order = create_order(1, Side::Sell, 100, 10);
    let result = process_order(order, &mut book);

    assert_eq!(result.fills.len(), 1);
    assert_eq!(result.fills[0].qty, 10);
    assert_eq!(book.bids.len(), 1);
    assert_eq!(book.bids.get(&100).unwrap().front().unwrap().qty, 10);

    assert_eq!(result.deltas.len(), 1);
    assert_eq!(result.deltas[0].side, Side::Buy);
    assert_eq!(result.deltas[0].price, 100);
    assert_eq!(result.deltas[0].qty, 10);
}

#[test]
fn sell_order_multiple_bids_same_price() {
    let mut book = OrderBook::new();
    book.add_order(create_order(100, Side::Buy, 100, 5))
        .unwrap();
    book.add_order(create_order(101, Side::Buy, 100, 10))
        .unwrap();

    let order = create_order(1, Side::Sell, 100, 15);
    let result = process_order(order, &mut book);

    assert_eq!(result.fills.len(), 2);
    assert_eq!(result.fills[0].maker_order_id, 100);
    assert_eq!(result.fills[0].qty, 5);
    assert_eq!(result.fills[1].maker_order_id, 101);
    assert_eq!(result.fills[1].qty, 10);
    assert!(book.bids.is_empty());

    assert_eq!(result.deltas.len(), 1);
    assert_eq!(result.deltas[0].side, Side::Buy);
    assert_eq!(result.deltas[0].price, 100);
    assert_eq!(result.deltas[0].qty, 0);
}

#[test]
fn sell_order_multiple_bids_different_prices() {
    let mut book = OrderBook::new();
    book.add_order(create_order(100, Side::Buy, 100, 5))
        .unwrap();
    book.add_order(create_order(101, Side::Buy, 105, 10))
        .unwrap();

    let order = create_order(1, Side::Sell, 100, 15);
    let result = process_order(order, &mut book);

    assert_eq!(result.fills.len(), 2);
    assert_eq!(result.fills[0].maker_order_id, 101);
    assert_eq!(result.fills[0].price, 105);
    assert_eq!(result.fills[0].qty, 10);
    assert_eq!(result.fills[1].maker_order_id, 100);
    assert_eq!(result.fills[1].price, 100);
    assert_eq!(result.fills[1].qty, 5);
    assert!(book.bids.is_empty());

    assert_eq!(result.deltas.len(), 2);
    assert!(
        result
            .deltas
            .iter()
            .any(|d| d.side == Side::Buy && d.price == 100 && d.qty == 0)
    );
    assert!(
        result
            .deltas
            .iter()
            .any(|d| d.side == Side::Buy && d.price == 105 && d.qty == 0)
    );
}

#[test]
fn sell_order_no_match_price_too_high() {
    let mut book = OrderBook::new();
    book.add_order(create_order(100, Side::Buy, 100, 10))
        .unwrap();

    let order = create_order(1, Side::Sell, 110, 10);
    let result = process_order(order, &mut book);

    assert!(result.fills.is_empty());
    assert_eq!(book.bids.len(), 1);
    assert_eq!(book.asks.len(), 1);
    assert_eq!(book.asks.get(&110).unwrap().front().unwrap().qty, 10);

    assert_eq!(result.deltas.len(), 1);
    assert_eq!(result.deltas[0].side, Side::Sell);
    assert_eq!(result.deltas[0].price, 110);
    assert_eq!(result.deltas[0].qty, 10);
}

#[test]
fn sell_order_lower_price_gets_better_fill() {
    let mut book = OrderBook::new();
    book.add_order(create_order(100, Side::Buy, 100, 10))
        .unwrap();

    let order = create_order(1, Side::Sell, 90, 10);
    let result = process_order(order, &mut book);

    assert_eq!(result.fills.len(), 1);
    assert_eq!(result.fills[0].price, 100);
    assert!(book.bids.is_empty());

    assert_eq!(result.deltas.len(), 1);
    assert_eq!(result.deltas[0].side, Side::Buy);
    assert_eq!(result.deltas[0].price, 100);
    assert_eq!(result.deltas[0].qty, 0);
}

#[test]
fn engine_zero_quantity_order() {
    let mut book = OrderBook::new();
    book.add_order(create_order(100, Side::Sell, 100, 10))
        .unwrap();

    let order = create_order(1, Side::Buy, 100, 0);
    let result = process_order(order, &mut book);

    assert!(result.fills.is_empty());
    assert_eq!(book.asks.len(), 1);
    assert!(book.bids.is_empty());
}

#[test]
fn crossed_book_sell() {
    let mut book = OrderBook::new();
    book.add_order(create_order(100, Side::Buy, 105, 10))
        .unwrap();

    let order = create_order(1, Side::Sell, 100, 10);
    let result = process_order(order, &mut book);

    assert_eq!(result.fills.len(), 1);
    assert_eq!(result.fills[0].price, 105);
    assert!(book.bids.is_empty());

    assert_eq!(result.deltas.len(), 1);
    assert_eq!(result.deltas[0].side, Side::Buy);
    assert_eq!(result.deltas[0].price, 105);
    assert_eq!(result.deltas[0].qty, 0);
}

#[test]
fn can_process_order_follows_what_is_left_to_rest() {
    let mut book = OrderBook::new();
    book.add_order(create_order(1, Side::Sell, 101, 4)).unwrap();
    book.add_order(create_order(2, Side::Buy, 99, u64::MAX - 3)).unwrap();
    assert!(can_process_order(&book, create_order(3, Side::Sell, 99, u64::MAX)));
    assert!(can_process_order(&book, create_order(3, Side::Buy, 99, 3)));
    assert!(!can_process_order(&book, create_order(3, Side::Buy, 99, 4)));
    assert!(can_process_order(&book, create_order(3, Side::Buy, 200, 4)));
    assert!(!can_process_order(&book, create_order(3, Side::Buy, 0, 4)));
    assert!(can_process_order(&book, create_order(3, Side::Buy, 0, 0)));
}

#[test]
fn can_process_order_refuses_a_level_whose_total_overflows() {
    let mut book = OrderBook::new();
    book.add_order(create_order(1, Side::Sell, 100, u64::MAX)).unwrap();
    book.add_order(create_order(2, Side::Sell, 100, 1)).unwrap();
    assert!(!can_process_order(&book, create_order(3, Side::Buy, 100, 1)));
    assert!(can_process_order(&book, create_order(3, Side::Buy, 99, 1)));
    assert!(!can_process_order(&book, create_order(3, Side::Sell, 100, 1)));
    assert!(can_process_order(&book, create_order(3, Side::Sell, 101, 1)));
}
