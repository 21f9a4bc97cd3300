use vstd::prelude::*;

use crate::engine::{with_side_levels, OrderBookDelta};
use crate::models::{Order, Side};
use crate::orderbook::{level_qty, BookView};

verus! {

/// The total quantity of each level of one side.
pub open spec fn level_totals(levels: Map<u64, Seq<Order>>) -> Map<u64, nat> {
    levels.map_values(|q: Seq<Order>| level_qty(q))
}

/// The total quantity of each level of both sides: what a replica keeps.
pub struct BookTotals {
    pub bids: Map<u64, nat>,
    pub asks: Map<u64, nat>,
}

/// The level totals of a book.
pub open spec fn book_totals(book: BookView) -> BookTotals {
    BookTotals { bids: level_totals(book.bids), asks: level_totals(book.asks) }
}

/// The total at `price` set to `qty`; a total of 0 removes the level.
pub open spec fn set_total(totals: Map<u64, nat>, price: u64, qty: u64) -> Map<u64, nat> {
    if qty == 0 {
        totals.remove(price)
    } else {
        totals.insert(price, qty as nat)
    }
}

/// The totals with one level change applied on its side.
pub open spec fn apply_delta(totals: BookTotals, delta: OrderBookDelta) -> BookTotals {
    match delta.side {
        Side::Buy => BookTotals {
            bids: set_total(totals.bids, delta.price, delta.qty),
            asks: totals.asks,
        },
        Side::Sell => BookTotals {
            bids: totals.bids,
            asks: set_total(totals.asks, delta.price, delta.qty),
        },
    }
}

/// The totals with level changes applied in order.
pub open spec fn apply_deltas(totals: BookTotals, deltas: Seq<OrderBookDelta>) -> BookTotals
    decreases deltas.len(),
{
    if deltas.len() == 0 {
        totals
    } else {
        apply_deltas(apply_delta(totals, deltas[0]), deltas.drop_first())
    }
}

/// The totals of one side with level changes applied in order, whatever
/// side they name.
pub open spec fn replay(totals: Map<u64, nat>, deltas: Seq<OrderBookDelta>) -> Map<u64, nat>
    decreases deltas.len(),
{
    if deltas.len() == 0 {
        totals
    } else {
        replay(set_total(totals, deltas[0].price, deltas[0].qty), deltas.drop_first())
    }
}

/// The levels of `side` with the level at `price` replaced by a single order
/// of quantity `qty`, or removed when `qty` is 0.
pub open spec fn set_level(levels: Map<u64, Seq<Order>>, side: Side, price: u64, qty: u64) -> Map<
    u64,
    Seq<Order>,
> {
    if qty == 0 {
        levels.remove(price)
    } else {
        levels.insert(price, seq![Order { id: 0, side, price, qty }])
    }
}

/// A book with one level change applied as a replica applies it.
pub open spec fn updated_book(book: BookView, side: Side, price: u64, qty: u64) -> BookView {
    with_side_levels(book, side, set_level(book.side_levels(side), side, price, qty))
}

/// A book with level changes applied in order as a replica applies them.
pub open spec fn apply_updates(book: BookView, deltas: Seq<OrderBookDelta>) -> BookView
    decreases deltas.len(),
{
    if deltas.len() == 0 {
        book
    } else {
        apply_updates(
            updated_book(book, deltas[0].side, deltas[0].price, deltas[0].qty),
            deltas.drop_first(),
        )
    }
}

} // verus!
