use vstd::prelude::*;

use crate::models::Fill;

verus! {

/// A request to place an order.
#[derive(Clone)]
pub struct CreateOrderRequest {
    pub symbol: String,
    pub side: String,
    pub price: u64,
    pub qty: u64,
}

/// The id given to a placed order and the fills it produced.
#[derive(Clone)]
pub struct CreateOrderResponse {
    pub order_id: u64,
    pub fills: Vec<Fill>,
}

/// One price level of a book and its total quantity.
#[derive(Clone, Copy, Debug, PartialEq, Eq, Structural)]
pub struct OrderLevel {
    pub price: u64,
    pub qty: u64,
}

/// The levels of a symbol's book: bids best (highest) first, asks best (lowest) first.
pub struct OrderBookResponse {
    pub symbol: String,
    pub bids: Vec<OrderLevel>,
    pub asks: Vec<OrderLevel>,
}

/// The body of an error answer.
pub struct ErrorResponse {
    pub error: String,
}

/// What a primary streams to its replicas.
#[derive(Clone)]
pub enum SyncMessage {
    Snapshot { symbol: String, bids: Vec<OrderLevel>, asks: Vec<OrderLevel> },
    BidUpdate { symbol: String, price: u64, qty: u64 },
    AskUpdate { symbol: String, price: u64, qty: u64 },
    Fill { symbol: String, data: Fill },
}

/// The query of a book request.
pub struct SymbolQuery {
    pub symbol: String,
}

} // verus!
