use vstd::prelude::*;

use crate::api::types::{OrderLevel, SyncMessage};
use crate::models::{Fill, Order, Side};
use crate::orderbook::{push_to_level, rest_order, BookView, OrderBook};
use crate::replica::updated_book;
use crate::state::{empty_book, Config, Engine};
use crate::text::{replace_all, replace_text};

verus! {

/// Sets the level at `price` on `side` to a single order of quantity `qty`,
/// or removes the level when `qty` is 0.
pub fn update_level(ob: &mut OrderBook, side: Side, price: u64, qty: u64)
    ensures
        final(ob)@ == updated_book(old(ob)@, side, price, qty),
{
    let ghost before = ob@;
    if qty == 0 {
        match side {
            Side::Buy => {
                ob.bids.remove(&price);
            },
            Side::Sell => {
                ob.asks.remove(&price);
            },
        }
    } else {
        let order = Order { id: 0, side, price, qty };
        match side {
            Side::Buy => {
                ob.bids.remove(&price);
                push_to_level(&mut ob.bids, order);
            },
            Side::Sell => {
                ob.asks.remove(&price);
                push_to_level(&mut ob.asks, order);
            },
        }
    }
    proof {
        let lv = before.side_levels(side);
        assert(Seq::<Order>::empty().push(Order { id: 0, side, price, qty }) =~= seq![
            Order { id: 0, side, price, qty },
        ]);
        assert(ob@.bids =~= updated_book(before, side, price, qty).bids);
        assert(ob@.asks =~= updated_book(before, side, price, qty).asks);
    }
}

/// The order that stands for a level in a replica's book: id 0, the whole
/// level total at the level price.
pub open spec fn level_order(level: OrderLevel, side: Side) -> Order {
    Order { id: 0, side, price: level.price, qty: level.qty }
}

/// `book` with each level of `levels` rested in turn on `side`.
pub open spec fn rest_levels(book: BookView, levels: Seq<OrderLevel>, side: Side) -> BookView
    decreases levels.len(),
{
    if levels.len() == 0 {
        book
    } else {
        rest_levels(rest_order(book, level_order(levels[0], side)), levels.drop_first(), side)
    }
}

/// The book a replica builds from a snapshot: the bid levels, then the ask
/// levels, rested in turn on an empty book.
pub open spec fn snapshot_book(bids: Seq<OrderLevel>, asks: Seq<OrderLevel>) -> BookView {
    rest_levels(rest_levels(empty_book(), bids, Side::Buy), asks, Side::Sell)
}

/// The error `add_order` gives for a level with zero quantity or zero price.
pub open spec fn level_error(level: OrderLevel) -> Option<Seq<char>> {
    if level.qty == 0 {
        Some("Zero quantity order"@)
    } else if level.price == 0 {
        Some("Zero price order"@)
    } else {
        None
    }
}

/// The error of the first level of `levels` that cannot rest, if any.
pub open spec fn first_level_error(levels: Seq<OrderLevel>) -> Option<Seq<char>>
    decreases levels.len(),
{
    if levels.len() == 0 {
        None
    } else if level_error(levels[0]) is Some {
        level_error(levels[0])
    } else {
        first_level_error(levels.drop_first())
    }
}

/// The error of the first level of a snapshot that cannot rest, bids first.
pub open spec fn snapshot_error(bids: Seq<OrderLevel>, asks: Seq<OrderLevel>) -> Option<Seq<char>> {
    if first_level_error(bids) is Some {
        first_level_error(bids)
    } else {
        first_level_error(asks)
    }
}

/// Rests each level of `levels` on `side` of `book`, in order, stopping at the
/// first that cannot rest.
fn rest_each(book: &mut OrderBook, levels: &Vec<OrderLevel>, side: Side) -> (r: Result<(), String>)
    ensures
        match first_level_error(levels@) {
            None => r is Ok && final(book)@ == rest_levels(old(book)@, levels@, side),
            Some(e) => r matches Err(msg) && msg@ == e,
        },
{
    let ghost start = book@;
    let n = levels.len();
    assert(levels@.skip(0) =~= levels@);
    for i in 0..n
        invariant
            n == levels@.len(),
            rest_levels(start, levels@, side) == rest_levels(book@, levels@.skip(i as int), side),
            first_level_error(levels@) == first_level_error(levels@.skip(i as int)),
    {
        let ghost rest = levels@.skip(i as int);
        assert(rest[0] == levels@[i as int]);
        assert(rest.drop_first() =~= levels@.skip(i + 1));
        let level = levels[i];
        let order = Order { id: 0, side, price: level.price, qty: level.qty };
        match book.add_order(order) {
            Ok(()) => {},
            Err(e) => {
                return Err(e);
            },
        }
    }
    assert(levels@.skip(n as int) =~= Seq::<OrderLevel>::empty());
    Ok(())
}

/// The book a replica builds from a snapshot, or the error of the first level
/// that cannot rest (bids first).
pub fn book_from_levels(bids: &Vec<OrderLevel>, asks: &Vec<OrderLevel>) -> (r: Result<OrderBook, String>)
    ensures
        match snapshot_error(bids@, asks@) {
            None => r matches Ok(book) && book@ == snapshot_book(bids@, asks@),
            Some(e) => r matches Err(msg) && msg@ == e,
        },
{
    let mut book = OrderBook::new();
    assert(book@ == empty_book());
    rest_each(&mut book, bids, Side::Buy)?;
    rest_each(&mut book, asks, Side::Sell)?;
    Ok(book)
}

/// The books of a replica after it applies `msg` from its primary: a fill
/// changes nothing; a level update replaces that level of its symbol's book;
/// a snapshot without a bad level replaces its symbol's book; a message for a
/// symbol the replica does not keep changes nothing.
pub open spec fn replica_after(engine: Map<Seq<char>, BookView>, msg: SyncMessage) -> Map<Seq<char>, BookView> {
    match msg {
        SyncMessage::Fill { .. } => engine,
        SyncMessage::BidUpdate { symbol, price, qty } => if engine.contains_key(symbol@) {
            engine.insert(symbol@, updated_book(engine[symbol@], Side::Buy, price, qty))
        } else {
            engine
        },
        SyncMessage::AskUpdate { symbol, price, qty } => if engine.contains_key(symbol@) {
            engine.insert(symbol@, updated_book(engine[symbol@], Side::Sell, price, qty))
        } else {
            engine
        },
        SyncMessage::Snapshot { symbol, bids, asks } => if snapshot_error(bids@, asks@) is None
            && engine.contains_key(symbol@) {
            engine.insert(symbol@, snapshot_book(bids@, asks@))
        } else {
            engine
        },
    }
}

/// The books of a replica after it applies `msgs` in order.
pub open spec fn replica_after_all(engine: Map<Seq<char>, BookView>, msgs: Seq<SyncMessage>) -> Map<
    Seq<char>,
    BookView,
>
    decreases msgs.len(),
{
    if msgs.len() == 0 {
        engine
    } else {
        replica_after_all(replica_after(engine, msgs[0]), msgs.drop_first())
    }
}

/// What a replica does with a message from its primary: a fill is handed back
/// to be passed on to local clients; a level update or a snapshot replaces a
/// level or the whole book of its symbol, where the engine has that symbol. A
/// snapshot with a level that cannot rest is refused with that level's error
/// and changes nothing.
pub fn apply_sync_message(engine: &mut Engine, msg: &SyncMessage) -> (r: Result<Option<Fill>, String>)
    ensures
        final(engine)@ == replica_after(old(engine)@, *msg),
        match *msg {
            SyncMessage::Fill { symbol, data } => r == Ok::<Option<Fill>, String>(Some(data))
                && final(engine)@ == old(engine)@,
            SyncMessage::BidUpdate { symbol, price, qty } => r == Ok::<Option<Fill>, String>(None)
                && final(engine)@ == if old(engine)@.contains_key(symbol@) {
                old(engine)@.insert(symbol@, updated_book(old(engine)@[symbol@], Side::Buy, price, qty))
            } else {
                old(engine)@
            },
            SyncMessage::AskUpdate { symbol, price, qty } => r == Ok::<Option<Fill>, String>(None)
                && final(engine)@ == if old(engine)@.contains_key(symbol@) {
                old(engine)@.insert(symbol@, updated_book(old(engine)@[symbol@], Side::Sell, price, qty))
            } else {
                old(engine)@
            },
            SyncMessage::Snapshot { symbol, bids, asks } => match snapshot_error(bids@, asks@) {
                Some(e) => (r matches Err(m) && m@ == e) && final(engine)@ == old(engine)@,
                None => r == Ok::<Option<Fill>, String>(None) && final(engine)@ == if old(
                    engine,
                )@.contains_key(symbol@) {
                    old(engine)@.insert(symbol@, snapshot_book(bids@, asks@))
                } else {
                    old(engine)@
                },
            },
        },
{
    match msg {
        SyncMessage::Fill { symbol: _, data } => Ok(Some(*data)),
        SyncMessage::BidUpdate { symbol, price, qty } => {
            if let Some(book) = engine.get_orderbook_mut(symbol.as_str()) {
                update_level(book, Side::Buy, *price, *qty);
            }
            Ok(None)
        },
        SyncMessage::AskUpdate { symbol, price, qty } => {
            if let Some(book) = engine.get_orderbook_mut(symbol.as_str()) {
                update_level(book, Side::Sell, *price, *qty);
            }
            Ok(None)
        },
        SyncMessage::Snapshot { symbol, bids, asks } => {
            let rebuilt = book_from_levels(bids, asks)?;
            if let Some(book) = engine.get_orderbook_mut(symbol.as_str()) {
                *book = rebuilt;
            }
            Ok(None)
        },
    }
}

/// The URL of a primary's stream for replicas: the primary's URL with
/// "http://" turned into "ws://" and then "https://" into "wss://", followed by
/// "/internal/sync".
pub open spec fn sync_url_of(primary_url: Seq<char>) -> Seq<char> {
    replace_all(replace_all(primary_url, "http://"@, "ws://"@), "https://"@, "wss://"@)
        + "/internal/sync"@
}

/// Where a replica subscribes to its primary's stream: the primary's URL with
/// "http://" turned into "ws://" and then "https://" into "wss://", followed by
/// "/internal/sync".
pub fn sync_url(primary_url: &str) -> (r: String)
    ensures
        r@ == sync_url_of(primary_url@),
{
    proof {
        reveal_strlit("http://");
        reveal_strlit("https://");
    }
    let plain = replace_text(primary_url, "http://", "ws://");
    let secure = replace_text(plain.as_str(), "https://", "wss://");
    secure.concat("/internal/sync")
}


/// What happened to a replica's subscription to its primary.
pub enum SyncEvent {
    /// The replica has just started.
    Started,
    /// The connection failed or was closed.
    ConnectionEnded,
}

/// What a replica does next about its subscription.
pub enum SyncAction {
    /// No primary is configured: there is nothing to follow.
    Stop,
    /// Wait `delay_seconds`, then connect to the stream at `url`.
    Connect { url: String, delay_seconds: u64 },
}

/// How long a replica waits before it connects again to its primary.
pub const RECONNECT_SECONDS: u64 = 5;

/// The next step of a replica following its primary: stop where no primary
/// is configured; otherwise connect to the primary's stream, at once on start
/// and after `RECONNECT_SECONDS` whenever a connection has ended.
pub fn next_sync_action(config: &Config, event: SyncEvent) -> (r: SyncAction)
    ensures
        match config.primary_url {
            None => r is Stop,
            Some(u) => r matches SyncAction::Connect { url, delay_seconds } && url@ == sync_url_of(u@)
                && delay_seconds == (if event is Started {
                0u64
            } else {
                RECONNECT_SECONDS
            }),
        },
{
    match &config.primary_url {
        None => SyncAction::Stop,
        Some(u) => {
            let delay_seconds = match event {
                SyncEvent::Started => 0,
                SyncEvent::ConnectionEnded => RECONNECT_SECONDS,
            };
            SyncAction::Connect { url: sync_url(u.as_str()), delay_seconds }
        },
    }
}

} // verus!
