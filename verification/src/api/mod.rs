pub mod types;
pub mod ws;

use std::collections::{BTreeMap, VecDeque};
use vstd::prelude::*;
use vstd::std_specs::btree::spec_keys_iter;
use vstd::std_specs::iter::IteratorSpec;

use crate::engine::{
    can_process, can_process_order, process_order, process_outcome, OrderBookDelta, ProcessResult,
};
use crate::key_order::lemma_increasing_keys;
use crate::models::{Fill, Order, Side};
use crate::orderbook::{level_qty, levels_view, queue_qty_checked, BookView, OrderBook};
use crate::state::{lists_symbol, Config, Engine};
use crate::text::{
    debug_strings, debug_text_of_strings, lowercase_of, strings_view, to_lowercase,
    trim_end_slashes, trim_trailing_slashes,
};
use types::{CreateOrderRequest, ErrorResponse, OrderBookResponse, OrderLevel, SyncMessage};

verus! {

/// Every level of `levels` has a total quantity that fits a `u64`.
pub open spec fn totals_fit(levels: Map<u64, Seq<Order>>) -> bool {
    forall|p: u64| #[trigger] levels.contains_key(p) ==> level_qty(levels[p]) <= u64::MAX
}

/// `list` lists every level of `levels` once, with its total quantity, in
/// increasing price order when `ascending` holds and decreasing otherwise.
pub open spec fn lists_levels(levels: Map<u64, Seq<Order>>, list: Seq<OrderLevel>, ascending: bool) -> bool {
    &&& list.len() == levels.dom().len()
    &&& forall|i: int|
        0 <= i < list.len() ==> levels.contains_key((#[trigger] list[i]).price) && list[i].qty
            == level_qty(levels[list[i].price])
    &&& forall|p: u64|
        #[trigger] levels.contains_key(p) ==> exists|i: int| 0 <= i < list.len() && list[i].price == p
    &&& forall|i: int, j: int|
        0 <= i < j < list.len() ==> if ascending {
            list[i].price < list[j].price
        } else {
            list[i].price > list[j].price
        }
}

/// The levels of one side with their totals, lowest price first; `None`
/// where some level total does not fit a `u64`.
fn levels_ascending(levels: &BTreeMap<u64, VecDeque<Order>>) -> (r: Option<Vec<OrderLevel>>)
    ensures
        match r {
            Some(list) => totals_fit(levels_view(levels@)) && lists_levels(levels_view(levels@), list@, true),
            None => !totals_fit(levels_view(levels@)),
        },
{
    let ghost lv = levels_view(levels@);
    let ghost ks = spec_keys_iter(levels).remaining();
    proof {
        crate::orderbook::lemma_levels_view_dom(levels@);
    }
    let mut out: Vec<OrderLevel> = Vec::new();
    for p in it: levels.keys()
        invariant
            it.seq() == ks,
            lv == levels_view(levels@),
            ks.unref().to_set() == lv.dom(),
            out@.len() == it.index(),
            forall|j: int|
                0 <= j < out@.len() ==> (#[trigger] out@[j]).price == *ks[j] && out@[j].qty
                    == level_qty(lv[*ks[j]]),
    {
        let ghost k = *p;
        assert(ks.unref()[it.index() as int] == k);
        assert(ks.unref().to_set().contains(k));
        let queue = levels.get(p).unwrap();
        let qty = match queue_qty_checked(queue) {
            Some(q) => q,
            None => {
                return None;
            },
        };
        out.push(OrderLevel { price: *p, qty });
    }
    proof {
        lemma_increasing_keys(ks);
        assert forall|i: int| 0 <= i < out@.len() implies lv.contains_key((#[trigger] out@[i]).price)
            && out@[i].qty == level_qty(lv[out@[i].price]) by {
            assert(ks.unref()[i] == *ks[i]);
            assert(ks.unref().to_set().contains(ks.unref()[i]));
        }
        assert forall|p: u64| #[trigger] lv.contains_key(p) implies exists|i: int|
            0 <= i < out@.len() && out@[i].price == p by {
            assert(ks.unref().to_set().contains(p));
            let i = choose|i: int| 0 <= i < ks.unref().len() && ks.unref()[i] == p;
            assert(out@[i].price == p);
        }
        assert forall|p: u64| #[trigger] lv.contains_key(p) implies level_qty(lv[p]) <= u64::MAX by {
            assert(ks.unref().to_set().contains(p));
            let i = choose|i: int| 0 <= i < ks.unref().len() && ks.unref()[i] == p;
            assert(out@[i].price == p);
        }
    }
    Some(out)
}

/// The same levels in the opposite order.
fn reversed(list: &Vec<OrderLevel>) -> (r: Vec<OrderLevel>)
    ensures
        r@ == list@.reverse(),
{
    let mut out: Vec<OrderLevel> = Vec::new();
    let mut i = list.len();
    while i > 0
        invariant
            i <= list@.len(),
            out@.len() == list@.len() - i,
            forall|j: int| 0 <= j < out@.len() ==> out@[j] == list@[list@.len() - 1 - j],
        decreases i,
    {
        i = i - 1;
        out.push(list[i]);
    }
    assert(out@ =~= list@.reverse());
    out
}

/// The levels of a book with their totals: bids highest price first, asks
/// lowest price first; `None` where some level total does not fit a `u64`.
pub fn orderbook_state(book: &OrderBook) -> (r: Option<(Vec<OrderLevel>, Vec<OrderLevel>)>)
    ensures
        match r {
            Some((bids, asks)) => {
                &&& totals_fit(book@.bids) && totals_fit(book@.asks)
                &&& lists_levels(book@.bids, bids@, false)
                &&& lists_levels(book@.asks, asks@, true)
            },
            None => !(totals_fit(book@.bids) && totals_fit(book@.asks)),
        },
{
    let bids_up = match levels_ascending(&book.bids) {
        Some(l) => l,
        None => {
            return None;
        },
    };
    let asks = match levels_ascending(&book.asks) {
        Some(l) => l,
        None => {
            return None;
        },
    };
    let bids = reversed(&bids_up);
    proof {
        let n = bids_up@.len();
        assert forall|i: int| 0 <= i < bids@.len() implies book@.bids.contains_key(
            (#[trigger] bids@[i]).price,
        ) && bids@[i].qty == level_qty(book@.bids[bids@[i].price]) by {
            assert(bids@[i] == bids_up@[n - 1 - i]);
        }
        assert forall|p: u64| #[trigger] book@.bids.contains_key(p) implies exists|i: int|
            0 <= i < bids@.len() && bids@[i].price == p by {
            let k = choose|k: int| 0 <= k < n && bids_up@[k].price == p;
            assert(bids@[n - 1 - k] == bids_up@[k]);
        }
        assert forall|i: int, j: int| 0 <= i < j < bids@.len() implies bids@[i].price
            > bids@[j].price by {
            assert(bids@[i] == bids_up@[n - 1 - i]);
            assert(bids@[j] == bids_up@[n - 1 - j]);
        }
    }
    Some((bids, asks))
}

/// A refused request: the HTTP status to answer with and the error body.
pub struct ApiError {
    pub status: u16,
    pub body: ErrorResponse,
}

/// The status of a malformed request.
pub const BAD_REQUEST: u16 = 400;

/// The status of a failure on the server's side.
pub const INTERNAL_SERVER_ERROR: u16 = 500;

/// The status of a failure to reach the primary.
pub const BAD_GATEWAY: u16 = 502;

/// An error answer with `status` and text `message`.
pub open spec fn is_error(e: ApiError, status: u16, message: Seq<char>) -> bool {
    e.status == status && e.body.error@ == message
}

/// The side named by a request, compared in lower case: "buy" or "sell".
pub open spec fn side_named(text: Seq<char>) -> Option<Side> {
    if lowercase_of(text) == "buy"@ {
        Some(Side::Buy)
    } else if lowercase_of(text) == "sell"@ {
        Some(Side::Sell)
    } else {
        None
    }
}

/// The side a request names, in any case.
pub fn parse_side(text: &str) -> (r: Option<Side>)
    ensures
        r == side_named(text@),
        (r == Some(Side::Buy)) == (lowercase_of(text@) == "buy"@),
        (r == Some(Side::Sell)) == (lowercase_of(text@) == "sell"@),
        (r is None) == (lowercase_of(text@) != "buy"@ && lowercase_of(text@) != "sell"@),
{
    proof {
        reveal_strlit("buy");
        reveal_strlit("sell");
        assert("buy"@ != "sell"@) by {
            assert("buy"@[0] != "sell"@[0]);
        }
    }
    let lower = to_lowercase(text);
    if lower == "buy".to_owned() {
        Some(Side::Buy)
    } else if lower == "sell".to_owned() {
        Some(Side::Sell)
    } else {
        None
    }
}

/// The text of the answer to a request for an unknown symbol.
pub open spec fn invalid_symbol_text(symbol: Seq<char>, symbols: Seq<String>) -> Seq<char> {
    "invalid symbol: "@ + symbol + ". Valid symbols: "@ + debug_text_of_strings(strings_view(symbols))
}

/// The error answer to a request for a symbol that is not configured.
fn invalid_symbol(symbol: &str, symbols: &Vec<String>) -> (e: ApiError)
    ensures
        is_error(e, BAD_REQUEST, invalid_symbol_text(symbol@, symbols@)),
{
    let listed = debug_strings(symbols);
    let text = "invalid symbol: ".to_owned().concat(symbol).concat(". Valid symbols: ").concat(
        listed.as_str(),
    );
    ApiError { status: BAD_REQUEST, body: ErrorResponse { error: text } }
}

/// Checks a request to place an order, in this order: its side must be "buy"
/// or "sell" in any case, its symbol one of the configured symbols, and its
/// price and quantity positive. Answers with the side it names, or with the
/// error of the first check that fails.
pub fn validate_order(config: &Config, request: &CreateOrderRequest) -> (r: Result<Side, ApiError>)
    ensures
        match side_named(request.side@) {
            None => r matches Err(e) && is_error(e, BAD_REQUEST, "invalid side"@),
            Some(side) => if !lists_symbol(config.symbols@, request.symbol@) {
                r matches Err(e) && is_error(
                    e,
                    BAD_REQUEST,
                    invalid_symbol_text(request.symbol@, config.symbols@),
                )
            } else if request.price == 0 || request.qty == 0 {
                r matches Err(e) && is_error(e, BAD_REQUEST, "price and qty must be > 0"@)
            } else {
                r == Ok::<Side, ApiError>(side)
            },
        },
{
    let side = match parse_side(request.side.as_str()) {
        Some(s) => s,
        None => {
            return Err(
                ApiError {
                    status: BAD_REQUEST,
                    body: ErrorResponse { error: "invalid side".to_owned() },
                },
            );
        },
    };
    if !config.is_valid_symbol(request.symbol.as_str()) {
        return Err(invalid_symbol(request.symbol.as_str(), &config.symbols));
    }
    if request.price == 0 || request.qty == 0 {
        return Err(
            ApiError {
                status: BAD_REQUEST,
                body: ErrorResponse { error: "price and qty must be > 0".to_owned() },
            },
        );
    }
    Ok(side)
}

/// Every book of the engine is well formed.
pub open spec fn engine_ready(engine: Map<Seq<char>, BookView>) -> bool {
    forall|s: Seq<char>| #[trigger] engine.contains_key(s) ==> engine[s].well_formed()
}

/// Processes `order` on the book of `symbol`: answers with 500 "orderbook not
/// found" where the engine has no such book, and otherwise with what
/// `process_order` reports, leaving the other books as they are. An engine
/// whose books are all well formed stays so.
pub fn submit_order(engine: &mut Engine, symbol: &str, order: Order) -> (r: Result<ProcessResult, ApiError>)
    requires
        old(engine)@.contains_key(symbol@) ==> can_process(old(engine)@[symbol@], order),
    ensures
        engine_ready(old(engine)@) ==> engine_ready(final(engine)@),
        !old(engine)@.contains_key(symbol@) ==> {
            &&& r matches Err(e) && is_error(e, INTERNAL_SERVER_ERROR, "orderbook not found"@)
            &&& final(engine)@ == old(engine)@
        },
        old(engine)@.contains_key(symbol@) ==> {
            let out = process_outcome(old(engine)@[symbol@], order);
            &&& r matches Ok(res) && res.fills@ == out.fills && res.deltas@ == out.deltas
            &&& final(engine)@ == old(engine)@.insert(symbol@, out.book)
        },
{
    match engine.get_orderbook_mut(symbol) {
        Some(book) => {
            proof {
                if engine_ready(old(engine)@) {
                    crate::laws::law_well_formed_book_stays_well_formed((*book)@, order);
                }
            }
            let result = process_order(order, book);
            Ok(result)
        },
        None => Err(
            ApiError {
                status: INTERNAL_SERVER_ERROR,
                body: ErrorResponse { error: "orderbook not found".to_owned() },
            },
        ),
    }
}

/// Whether `order` can be submitted on the book of `symbol`: there is no
/// such book, or processing the order on it runs to its end (`can_process`:
/// what is left of it after matching, if anything, has a positive price and
/// fits on top of the total resting at its price). Exactly when it holds may
/// `submit_order` be called.
pub fn can_submit(engine: &Engine, symbol: &str, order: &Order) -> (r: bool)
    ensures
        r == (engine@.contains_key(symbol@) ==> can_process(engine@[symbol@], *order)),
{
    match engine.get_orderbook(symbol) {
        None => true,
        Some(book) => can_process_order(book, *order),
    }
}

/// The message that streams one level change to replicas.
pub open spec fn update_message(symbol: String, delta: OrderBookDelta) -> SyncMessage {
    match delta.side {
        Side::Buy => SyncMessage::BidUpdate { symbol, price: delta.price, qty: delta.qty },
        Side::Sell => SyncMessage::AskUpdate { symbol, price: delta.price, qty: delta.qty },
    }
}

/// What processing an order streams to replicas: one `Fill` message per fill,
/// in order, then one level update per level change, in order.
pub fn sync_messages(symbol: &String, result: &ProcessResult) -> (r: Vec<SyncMessage>)
    ensures
        r@.len() == result.fills@.len() + result.deltas@.len(),
        forall|i: int|
            0 <= i < result.fills@.len() ==> r@[i] == (SyncMessage::Fill {
                symbol: *symbol,
                data: #[trigger] result.fills@[i],
            }),
        forall|j: int|
            0 <= j < result.deltas@.len() ==> r@[result.fills@.len() + j] == update_message(
                *symbol,
                #[trigger] result.deltas@[j],
            ),
        forall|j: int|
            0 <= j < result.deltas@.len() ==> {
                let d = #[trigger] result.deltas@[j];
                let m = r@[result.fills@.len() + j];
                match d.side {
                    Side::Buy => m matches SyncMessage::BidUpdate { symbol: s, price, qty } && s
                        == *symbol && price == d.price && qty == d.qty,
                    Side::Sell => m matches SyncMessage::AskUpdate { symbol: s, price, qty } && s
                        == *symbol && price == d.price && qty == d.qty,
                }
            },
{
    let mut out: Vec<SyncMessage> = Vec::new();
    let nf = result.fills.len();
    for i in 0..nf
        invariant
            nf == result.fills@.len(),
            out@.len() == i,
            forall|k: int|
                0 <= k < i ==> out@[k] == (SyncMessage::Fill {
                    symbol: *symbol,
                    data: #[trigger] result.fills@[k],
                }),
    {
        out.push(SyncMessage::Fill { symbol: symbol.clone(), data: result.fills[i] });
    }
    let nd = result.deltas.len();
    for j in 0..nd
        invariant
            nf == result.fills@.len(),
            nd == result.deltas@.len(),
            out@.len() == nf + j,
            forall|k: int|
                0 <= k < nf ==> out@[k] == (SyncMessage::Fill {
                    symbol: *symbol,
                    data: #[trigger] result.fills@[k],
                }),
            forall|k: int|
                0 <= k < j ==> out@[nf + k] == update_message(*symbol, #[trigger] result.deltas@[k]),
    {
        let d = result.deltas[j];
        let msg = match d.side {
            Side::Buy => SyncMessage::BidUpdate { symbol: symbol.clone(), price: d.price, qty: d.qty },
            Side::Sell => SyncMessage::AskUpdate { symbol: symbol.clone(), price: d.price, qty: d.qty },
        };
        out.push(msg);
    }
    out
}

/// Where a replica forwards orders: the primary's URL without trailing '/'
/// characters, then "/orders".
pub fn forward_url(primary_url: &str) -> (r: String)
    ensures
        r@ == trim_trailing_slashes(primary_url@) + "/orders"@,
{
    trim_end_slashes(primary_url).to_owned().concat("/orders")
}

/// Where a replica forwards orders, or 502 "no primary configured" where the
/// configuration names no primary.
pub fn forward_target(config: &Config) -> (r: Result<String, ApiError>)
    ensures
        match config.primary_url {
            Some(url) => r matches Ok(u) && u@ == trim_trailing_slashes(url@) + "/orders"@,
            None => r matches Err(e) && is_error(e, BAD_GATEWAY, "no primary configured"@),
        },
{
    match &config.primary_url {
        Some(url) => Ok(forward_url(url.as_str())),
        None => Err(
            ApiError {
                status: BAD_GATEWAY,
                body: ErrorResponse { error: "no primary configured".to_owned() },
            },
        ),
    }
}

/// The text of the answer to a request for a configured symbol without a book.
pub open spec fn missing_book_text(symbol: Seq<char>) -> Seq<char> {
    "orderbook for symbol '"@ + symbol + "' not found"@
}

/// Answers a request for the book of `symbol`: 400 with the list of valid
/// symbols where the symbol is not configured, 500 where the engine has no
/// book for it, and otherwise its levels (bids highest first, asks lowest
/// first). `None` where a level total of that book does not fit a `u64`.
pub fn orderbook_response(config: &Config, engine: &Engine, symbol: &String) -> (r: Option<
    Result<OrderBookResponse, ApiError>,
>)
    ensures
        !lists_symbol(config.symbols@, symbol@) ==> (r matches Some(Err(e)) && is_error(
            e,
            BAD_REQUEST,
            invalid_symbol_text(symbol@, config.symbols@),
        )),
        lists_symbol(config.symbols@, symbol@) && !engine@.contains_key(symbol@) ==> (r matches Some(
            Err(e),
        ) && is_error(e, INTERNAL_SERVER_ERROR, missing_book_text(symbol@))),
        lists_symbol(config.symbols@, symbol@) && engine@.contains_key(symbol@) ==> {
            let book = engine@[symbol@];
            if totals_fit(book.bids) && totals_fit(book.asks) {
                r matches Some(Ok(resp)) && resp.symbol == *symbol && lists_levels(
                    book.bids,
                    resp.bids@,
                    false,
                ) && lists_levels(book.asks, resp.asks@, true)
            } else {
                r is None
            }
        },
{
    if !config.is_valid_symbol(symbol.as_str()) {
        return Some(Err(invalid_symbol(symbol.as_str(), &config.symbols)));
    }
    match engine.get_orderbook(symbol.as_str()) {
        None => {
            let text = "orderbook for symbol '".to_owned().concat(symbol.as_str()).concat(
                "' not found",
            );
            Some(Err(ApiError { status: INTERNAL_SERVER_ERROR, body: ErrorResponse { error: text } }))
        },
        Some(book) => match orderbook_state(book) {
            None => None,
            Some((bids, asks)) => Some(
                Ok(OrderBookResponse { symbol: symbol.clone(), bids, asks }),
            ),
        },
    }
}

/// The snapshot of a book that a replica receives when it connects; `None`
/// where a level total does not fit a `u64`.
pub fn snapshot_message(symbol: &String, book: &OrderBook) -> (r: Option<SyncMessage>)
    ensures
        match r {
            Some(msg) => msg matches SyncMessage::Snapshot { symbol: s, bids, asks } && s == *symbol
                && lists_levels(book@.bids, bids@, false) && lists_levels(book@.asks, asks@, true),
            None => !(totals_fit(book@.bids) && totals_fit(book@.asks)),
        },
{
    match orderbook_state(book) {
        None => None,
        Some((bids, asks)) => Some(SyncMessage::Snapshot { symbol: symbol.clone(), bids, asks }),
    }
}

} // verus!
