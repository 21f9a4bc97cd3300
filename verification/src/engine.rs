use std::collections::{BTreeMap, VecDeque};
use vstd::prelude::*;

use crate::models::{opposite, Fill, Order, Side};
use crate::key_order::lemma_increasing_keys;
use crate::orderbook::{
    first_key, highest, is_highest, is_lowest, last_key, lemma_level_qty_first,
    lemma_levels_view_dom, level_at, level_qty, levels_view, lowest,
    queue_qty, queue_qty_checked, rest_order, BookView, OrderBook,
};
use vstd::std_specs::btree::spec_keys_iter;
use vstd::std_specs::iter::IteratorSpec;

verus! {

/// The new total quantity of one price level on one side, after an order was processed.
#[derive(Debug, Clone, Copy, PartialEq, Eq, Structural)]
pub struct OrderBookDelta {
    pub side: Side,
    pub price: u64,
    pub qty: u64,
}

/// What processing an order produced: its fills and the level changes, in order.
pub struct ProcessResult {
    pub fills: Vec<Fill>,
    pub deltas: Vec<OrderBookDelta>,
}

/// What is left of a queue after a taker traded against it.
pub struct LevelOutcome {
    pub queue: Seq<Order>,
    pub fills: Seq<Fill>,
    pub remaining: nat,
}

/// A taker with `qty` left trades against the queue at `price`, front first:
/// each trade is for the smaller of the two quantities, at the level price.
/// A maker that is not used up stays at the front; a taker that is used up stops.
pub open spec fn fill_level(queue: Seq<Order>, taker_id: u64, qty: nat, price: u64) -> LevelOutcome
    decreases queue.len(),
{
    if queue.len() == 0 {
        LevelOutcome { queue, fills: Seq::empty(), remaining: qty }
    } else {
        let maker = queue[0];
        let traded: nat = if qty <= maker.qty {
            qty
        } else {
            maker.qty as nat
        };
        let fill = Fill {
            maker_order_id: maker.id,
            taker_order_id: taker_id,
            price,
            qty: traded as u64,
        };
        let left = (maker.qty - traded) as u64;
        let remaining = (qty - traded) as nat;
        if left > 0 {
            LevelOutcome {
                queue: seq![Order { id: maker.id, side: maker.side, price: maker.price, qty: left }]
                    + queue.drop_first(),
                fills: seq![fill],
                remaining,
            }
        } else if remaining == 0 {
            LevelOutcome { queue: queue.drop_first(), fills: seq![fill], remaining: 0 }
        } else {
            let rest = fill_level(queue.drop_first(), taker_id, remaining, price);
            LevelOutcome {
                queue: rest.queue,
                fills: seq![fill] + rest.fills,
                remaining: rest.remaining,
            }
        }
    }
}

/// Trades against a queue as `fill_level` says, appending the fills to `fills`.
fn fill_from_queue(
    queue: &mut VecDeque<Order>,
    taker_id: u64,
    qty: u64,
    price: u64,
    fills: &mut Vec<Fill>,
) -> (remaining: u64)
    ensures
        ({
            let o = fill_level(old(queue)@, taker_id, qty as nat, price);
            &&& final(queue)@ == o.queue
            &&& final(fills)@ == old(fills)@ + o.fills
            &&& remaining == o.remaining
        }),
{
    let ghost goal = fill_level(queue@, taker_id, qty as nat, price);
    let ghost start = fills@;
    let mut qty = qty;
    loop
        invariant_except_break
            ({
                let cur = fill_level(queue@, taker_id, qty as nat, price);
                &&& cur.queue == goal.queue
                &&& cur.remaining == goal.remaining
                &&& fills@ + cur.fills == start + goal.fills
            }),
        ensures
            queue@ == goal.queue,
            fills@ == start + goal.fills,
            qty == goal.remaining,
        decreases queue@.len(),
    {
        let ghost before = queue@;
        let ghost fills_before = fills@;
        match queue.pop_front() {
            None => {
                assert(fills_before + Seq::<Fill>::empty() =~= fills_before);
                break;
            },
            Some(maker) => {
                assert(before[0] == maker);
                assert(before.drop_first() =~= queue@);
                let traded = if qty <= maker.qty {
                    qty
                } else {
                    maker.qty
                };
                let fill = Fill {
                    maker_order_id: maker.id,
                    taker_order_id: taker_id,
                    price,
                    qty: traded,
                };
                fills.push(fill);
                qty = qty - traded;
                let left = maker.qty - traded;
                if left > 0 {
                    queue.push_front(Order { id: maker.id, side: maker.side, price: maker.price, qty: left });
                    assert(fills_before + seq![fill] =~= fills@);
                    break;
                }
                if qty == 0 {
                    assert(fills_before + seq![fill] =~= fills@);
                    break;
                }
                proof {
                    let rest = fill_level(queue@, taker_id, qty as nat, price);
                    assert(fills@ + rest.fills =~= fills_before + (seq![fill] + rest.fills));
                }
            },
        }
    }
    qty
}

/// What is left of one side of the book after a taker traded against it.
pub struct MatchOutcome {
    pub levels: Map<u64, Seq<Order>>,
    pub fills: Seq<Fill>,
    pub deltas: Seq<OrderBookDelta>,
    pub remaining: nat,
    /// Every level that was traded against had a total quantity that fits a `u64`.
    pub sums_fit: bool,
}

/// The best price of a side for a taker: the lowest ask, or the highest bid.
pub open spec fn best_price(levels: Map<u64, Seq<Order>>, maker_side: Side) -> u64 {
    match maker_side {
        Side::Sell => lowest(levels.dom()),
        Side::Buy => highest(levels.dom()),
    }
}

/// A taker with limit `limit` may trade with makers of `maker_side` at `price`:
/// a buyer at or above an ask, a seller at or below a bid.
pub open spec fn crosses(maker_side: Side, limit: u64, price: u64) -> bool {
    match maker_side {
        Side::Sell => price <= limit,
        Side::Buy => limit <= price,
    }
}

/// A taker trades against the levels of `maker_side`, best price first, while
/// it has quantity left and the best level crosses its limit. A level that is
/// emptied is removed and reported with quantity 0; a level that is left with
/// orders is reported with its new total quantity, where that changed.
pub open spec fn match_levels(
    levels: Map<u64, Seq<Order>>,
    maker_side: Side,
    taker_id: u64,
    limit: u64,
    qty: nat,
) -> MatchOutcome
    decreases levels.dom().len(),
    when levels.dom().finite()
{
    let p = best_price(levels, maker_side);
    if qty == 0 || !levels.contains_key(p) || !crosses(maker_side, limit, p) {
        MatchOutcome { levels, fills: Seq::empty(), deltas: Seq::empty(), remaining: qty, sums_fit: true }
    } else {
        let lvl = fill_level(levels[p], taker_id, qty, p);
        let fits = level_qty(levels[p]) <= u64::MAX;
        if lvl.queue.len() == 0 {
            let d = OrderBookDelta { side: maker_side, price: p, qty: 0 };
            let rest = match_levels(levels.remove(p), maker_side, taker_id, limit, lvl.remaining);
            MatchOutcome {
                levels: rest.levels,
                fills: lvl.fills + rest.fills,
                deltas: seq![d] + rest.deltas,
                remaining: rest.remaining,
                sums_fit: fits && rest.sums_fit,
            }
        } else {
            let new_qty = level_qty(lvl.queue);
            MatchOutcome {
                levels: levels.insert(p, lvl.queue),
                fills: lvl.fills,
                deltas: if new_qty != level_qty(levels[p]) {
                    seq![OrderBookDelta { side: maker_side, price: p, qty: new_qty as u64 }]
                } else {
                    Seq::empty()
                },
                remaining: lvl.remaining,
                sums_fit: fits,
            }
        }
    }
}

/// A queue that is not used up leaves the taker with nothing; the quantity
/// taken from the queue is the quantity the taker traded.
pub proof fn lemma_fill_level(queue: Seq<Order>, taker_id: u64, qty: nat, price: u64)
    ensures
        ({
            let o = fill_level(queue, taker_id, qty, price);
            &&& o.remaining <= qty
            &&& o.queue.len() > 0 ==> o.remaining == 0
            &&& level_qty(queue) + o.remaining == level_qty(o.queue) + qty
        }),
    decreases queue.len(),
{
    if queue.len() > 0 {
        let maker = queue[0];
        let traded: nat = if qty <= maker.qty {
            qty
        } else {
            maker.qty as nat
        };
        let left = (maker.qty - traded) as u64;
        let remaining = (qty - traded) as nat;
        lemma_level_qty_first(queue);
        if left > 0 {
            let o = fill_level(queue, taker_id, qty, price);
            lemma_level_qty_first(o.queue);
            assert(o.queue.drop_first() =~= queue.drop_first());
        } else if remaining == 0 {
        } else {
            lemma_fill_level(queue.drop_first(), taker_id, remaining, price);
        }
    }
}

/// The best level of `maker_side`, if there is one.
fn best_level(levels: &BTreeMap<u64, VecDeque<Order>>, maker_side: Side) -> (r: Option<u64>)
    ensures
        ({
            let lv = levels_view(levels@);
            match r {
                Some(p) => lv.contains_key(p) && p == best_price(lv, maker_side),
                None => !lv.contains_key(best_price(lv, maker_side)),
            }
        }),
{
    proof {
        lemma_levels_view_dom(levels@);
    }
    let r = match maker_side {
        Side::Sell => first_key(levels),
        Side::Buy => last_key(levels),
    };
    proof {
        let lv = levels_view(levels@);
        if let Some(p) = r {
            match maker_side {
                Side::Sell => {
                    let c = lowest(lv.dom());
                    assert(is_lowest(lv.dom(), c));
                    assert(c <= p && p <= c);
                },
                Side::Buy => {
                    let c = highest(lv.dom());
                    assert(is_highest(lv.dom(), c));
                    assert(c <= p && p <= c);
                },
            }
        }
    }
    r
}

/// Trades a taker against one side of the book as `match_levels` says,
/// appending the fills and the level changes, and returns what is left of it.
fn match_against(
    levels: &mut BTreeMap<u64, VecDeque<Order>>,
    maker_side: Side,
    taker_id: u64,
    limit: u64,
    qty: u64,
    fills: &mut Vec<Fill>,
    deltas: &mut Vec<OrderBookDelta>,
) -> (remaining: u64)
    requires
        match_levels(levels_view(old(levels)@), maker_side, taker_id, limit, qty as nat).sums_fit,
    ensures
        ({
            let m = match_levels(levels_view(old(levels)@), maker_side, taker_id, limit, qty as nat);
            &&& levels_view(final(levels)@) == m.levels
            &&& final(fills)@ == old(fills)@ + m.fills
            &&& final(deltas)@ == old(deltas)@ + m.deltas
            &&& remaining == m.remaining
        }),
{
    proof {
        lemma_levels_view_dom(levels@);
    }
    let ghost goal = match_levels(levels_view(levels@), maker_side, taker_id, limit, qty as nat);
    let ghost fills_start = fills@;
    let ghost deltas_start = deltas@;
    let mut qty = qty;
    while qty > 0
        invariant
            levels_view(levels@).dom().finite(),
            ({
                let cur = match_levels(levels_view(levels@), maker_side, taker_id, limit, qty as nat);
                &&& cur.levels == goal.levels
                &&& cur.remaining == goal.remaining
                &&& cur.sums_fit
                &&& fills@ + cur.fills == fills_start + goal.fills
                &&& deltas@ + cur.deltas == deltas_start + goal.deltas
            }),
        ensures
            ({
                let cur = match_levels(levels_view(levels@), maker_side, taker_id, limit, qty as nat);
                &&& cur.levels == levels_view(levels@)
                &&& cur.fills == Seq::<Fill>::empty()
                &&& cur.deltas == Seq::<OrderBookDelta>::empty()
                &&& cur.remaining == qty
            }),
        decreases levels_view(levels@).dom().len(), qty,
    {
        let ghost lv = levels_view(levels@);
        let ghost fills_before = fills@;
        let ghost deltas_before = deltas@;
        let best = match best_level(levels, maker_side) {
            Some(p) => p,
            None => break,
        };
        let crossing = match maker_side {
            Side::Sell => best <= limit,
            Side::Buy => limit <= best,
        };
        if !crossing {
            break;
        }
        let ghost step = match_levels(lv, maker_side, taker_id, limit, qty as nat);
        let mut queue = levels.remove(&best).unwrap();
        assert(queue@ == lv[best]);
        let prev_qty = queue_qty(&queue);
        let qty_in = qty;
        qty = fill_from_queue(&mut queue, taker_id, qty, best, fills);
        let ghost lvl = fill_level(lv[best], taker_id, qty_in as nat, best);
        proof {
            lemma_fill_level(lv[best], taker_id, qty_in as nat, best);
        }
        if queue.len() == 0 {
            let d = OrderBookDelta { side: maker_side, price: best, qty: 0 };
            deltas.push(d);
            proof {
                lemma_levels_view_dom(levels@);
                assert(levels_view(levels@) =~= lv.remove(best));
                let rest = match_levels(lv.remove(best), maker_side, taker_id, limit, qty as nat);
                assert(fills@ + rest.fills =~= fills_before + (lvl.fills + rest.fills));
                assert(deltas@ + rest.deltas =~= deltas_before + (seq![d] + rest.deltas));
            }
        } else {
            let level_traded_qty = qty_in - qty;
            let new_qty = prev_qty - level_traded_qty;
            if new_qty != prev_qty {
                deltas.push(OrderBookDelta { side: maker_side, price: best, qty: new_qty });
            }
            levels.insert(best, queue);
            proof {
                lemma_levels_view_dom(levels@);
                assert(levels_view(levels@) =~= lv.insert(best, lvl.queue));
                let next = match_levels(levels_view(levels@), maker_side, taker_id, limit, qty as nat);
                assert(qty == 0);
                assert(next.fills == Seq::<Fill>::empty());
                assert(fills@ + next.fills =~= fills_before + step.fills);
                assert(deltas@ + next.deltas =~= deltas_before + step.deltas);
            }
        }
    }
    qty
}

/// The book after processing an order, with the fills and level changes
/// that processing reports.
pub struct ProcessOutcome {
    pub book: BookView,
    pub fills: Seq<Fill>,
    pub deltas: Seq<OrderBookDelta>,
}

/// `book` with the levels of `side` replaced by `levels`.
pub open spec fn with_side_levels(book: BookView, side: Side, levels: Map<u64, Seq<Order>>) -> BookView {
    match side {
        Side::Buy => BookView { bids: levels, asks: book.asks },
        Side::Sell => BookView { bids: book.bids, asks: levels },
    }
}

/// The incoming order traded against the opposite side of the book.
pub open spec fn match_incoming(book: BookView, incoming: Order) -> MatchOutcome {
    let maker_side = opposite(incoming.side);
    match_levels(
        book.side_levels(maker_side),
        maker_side,
        incoming.id,
        incoming.price,
        incoming.qty as nat,
    )
}

/// The part of the incoming order that is left to rest: the same order with
/// the remaining quantity.
pub open spec fn resting_part(incoming: Order, remaining: nat) -> Order {
    Order { id: incoming.id, side: incoming.side, price: incoming.price, qty: remaining as u64 }
}

/// Processing an order: it trades against the opposite side (`match_incoming`);
/// what is left of it rests at its limit price, behind the orders already
/// there, and its level is reported with its new total quantity after the
/// level changes of the matching.
pub open spec fn process_outcome(book: BookView, incoming: Order) -> ProcessOutcome {
    let m = match_incoming(book, incoming);
    let matched = with_side_levels(book, opposite(incoming.side), m.levels);
    if m.remaining > 0 {
        let after = rest_order(matched, resting_part(incoming, m.remaining));
        let d = OrderBookDelta {
            side: incoming.side,
            price: incoming.price,
            qty: level_qty(after.side_levels(incoming.side)[incoming.price]) as u64,
        };
        ProcessOutcome { book: after, fills: m.fills, deltas: m.deltas.push(d) }
    } else {
        ProcessOutcome { book: matched, fills: m.fills, deltas: m.deltas }
    }
}

/// Processing `incoming` on `book` runs to its end: every level summed during
/// matching has a total quantity that fits a `u64`, and a remainder that has
/// to rest has a positive price and fits in its level.
pub open spec fn can_process(book: BookView, incoming: Order) -> bool {
    let m = match_incoming(book, incoming);
    &&& book.bids.dom().finite()
    &&& book.asks.dom().finite()
    &&& m.sums_fit
    &&& m.remaining > 0 ==> {
        &&& incoming.price > 0
        &&& level_qty(level_at(book.side_levels(incoming.side), incoming.price)) + m.remaining
            <= u64::MAX
    }
}

/// Total quantity resting at `price` in `levels`, 0 where there is no level.
fn level_total(levels: &BTreeMap<u64, VecDeque<Order>>, price: u64) -> (total: u64)
    requires
        level_qty(level_at(levels_view(levels@), price)) <= u64::MAX,
    ensures
        total == level_qty(level_at(levels_view(levels@), price)),
{
    match levels.get(&price) {
        Some(queue) => queue_qty(queue),
        None => 0,
    }
}

/// Processes an incoming order with price-time priority: a buy trades against
/// the lowest asks, a sell against the highest bids, at the resting order's
/// price, earliest order first within a price; what is left of it rests in the
/// book at its limit price.
pub fn process_order(incoming: Order, book: &mut OrderBook) -> (result: ProcessResult)
    requires
        can_process(old(book)@, incoming),
    ensures
        ({
            let o = process_outcome(old(book)@, incoming);
            &&& final(book)@ == o.book
            &&& result.fills@ == o.fills
            &&& result.deltas@ == o.deltas
        }),
{
    let mut fills: Vec<Fill> = Vec::new();
    let mut deltas: Vec<OrderBookDelta> = Vec::new();
    let ghost before = book@;
    let ghost m = match_incoming(before, incoming);
    let mut incoming = incoming;
    let remaining = match incoming.side {
        Side::Buy => match_against(
            &mut book.asks,
            Side::Sell,
            incoming.id,
            incoming.price,
            incoming.qty,
            &mut fills,
            &mut deltas,
        ),
        Side::Sell => match_against(
            &mut book.bids,
            Side::Buy,
            incoming.id,
            incoming.price,
            incoming.qty,
            &mut fills,
            &mut deltas,
        ),
    };
    assert(fills@ =~= m.fills);
    assert(deltas@ =~= m.deltas);
    let ghost matched = book@;
    assert(matched.bids =~= with_side_levels(before, opposite(incoming.side), m.levels).bids);
    assert(matched.asks =~= with_side_levels(before, opposite(incoming.side), m.levels).asks);
    incoming.qty = remaining;
    if incoming.qty > 0 {
        let price = incoming.price;
        let side = incoming.side;
        let added = book.add_order(incoming);
        assert(added is Ok);
        proof {
            let own = level_at(before.side_levels(side), price);
            assert(own.push(incoming).drop_last() =~= own);
            assert(level_qty(own.push(incoming)) == level_qty(own) + remaining);
        }
        let qty = match side {
            Side::Buy => level_total(&book.bids, price),
            Side::Sell => level_total(&book.asks, price),
        };
        deltas.push(OrderBookDelta { side, price, qty });
    }
    ProcessResult { fills, deltas }
}


/// For makers of `maker_side`, price `a` is strictly better for the taker than
/// price `b`: lower for asks, higher for bids.
pub open spec fn strictly_better(maker_side: Side, a: u64, b: u64) -> bool {
    match maker_side {
        Side::Sell => a < b,
        Side::Buy => b < a,
    }
}

/// The prices of one side's levels, lowest first.
fn prices_ascending(levels: &BTreeMap<u64, VecDeque<Order>>) -> (r: Vec<u64>)
    ensures
        forall|i: int, j: int| 0 <= i < j < r@.len() ==> r@[i] < r@[j],
        forall|i: int| 0 <= i < r@.len() ==> levels@.contains_key(#[trigger] r@[i]),
        forall|p: u64| #[trigger] levels@.contains_key(p) ==> exists|i: int| 0 <= i < r@.len() && r@[i] == p,
{
    let ghost ks = spec_keys_iter(levels).remaining();
    let mut out: Vec<u64> = Vec::new();
    for p in it: levels.keys()
        invariant
            it.seq() == ks,
            ks.unref().to_set() == levels@.dom(),
            out@.len() == it.index(),
            forall|j: int| 0 <= j < out@.len() ==> #[trigger] out@[j] == *ks[j],
    {
        assert(ks.unref()[it.index() as int] == *p);
        out.push(*p);
    }
    proof {
        lemma_increasing_keys(ks);
        assert forall|i: int| 0 <= i < out@.len() implies levels@.contains_key(#[trigger] out@[i]) by {
            assert(ks.unref()[i] == *ks[i]);
            assert(ks.unref().to_set().contains(ks.unref()[i]));
        }
        assert forall|p: u64| #[trigger] levels@.contains_key(p) implies exists|i: int|
            0 <= i < out@.len() && out@[i] == p by {
            assert(ks.unref().to_set().contains(p));
            let i = choose|i: int| 0 <= i < ks.unref().len() && ks.unref()[i] == p;
            assert(out@[i] == p);
        }
    }
    out
}

/// The prices of the levels of `maker_side`, best for a taker first.
fn prices_best_first(levels: &BTreeMap<u64, VecDeque<Order>>, maker_side: Side) -> (r: Vec<u64>)
    ensures
        forall|i: int, j: int| 0 <= i < j < r@.len() ==> strictly_better(maker_side, r@[i], r@[j]),
        forall|i: int| 0 <= i < r@.len() ==> levels@.contains_key(#[trigger] r@[i]),
        forall|p: u64| #[trigger] levels@.contains_key(p) ==> exists|i: int| 0 <= i < r@.len() && r@[i] == p,
{
    let up = prices_ascending(levels);
    match maker_side {
        Side::Sell => up,
        Side::Buy => {
            let n = up.len();
            let mut out: Vec<u64> = Vec::new();
            let mut k = n;
            while k > 0
                invariant
                    k <= n,
                    n == up@.len(),
                    out@.len() == n - k,
                    forall|j: int| 0 <= j < out@.len() ==> #[trigger] out@[j] == up@[n - 1 - j],
                decreases k,
            {
                k = k - 1;
                out.push(up[k]);
            }
            proof {
                assert forall|i: int| 0 <= i < out@.len() implies levels@.contains_key(#[trigger] out@[i]) by {
                    assert(out@[i] == up@[n - 1 - i]);
                }
                assert forall|p: u64| #[trigger] levels@.contains_key(p) implies exists|i: int|
                    0 <= i < out@.len() && out@[i] == p by {
                    let j = choose|j: int| 0 <= j < up@.len() && up@[j] == p;
                    assert(out@[n - 1 - j] == up@[j]);
                }
                assert forall|i: int, j: int| 0 <= i < j < out@.len() implies strictly_better(
                    Side::Buy,
                    out@[i],
                    out@[j],
                ) by {
                    assert(out@[i] == up@[n - 1 - i]);
                    assert(out@[j] == up@[n - 1 - j]);
                }
            }
            out
        },
    }
}

/// A price that is at least as good as every other price of a set is the
/// best price of the set.
proof fn lemma_best_price_is(levels: Map<u64, Seq<Order>>, maker_side: Side, p: u64)
    requires
        levels.contains_key(p),
        forall|q: u64| #[trigger] levels.contains_key(q) ==> q == p || strictly_better(maker_side, p, q),
    ensures
        best_price(levels, maker_side) == p,
{
    match maker_side {
        Side::Sell => {
            assert(is_lowest(levels.dom(), p));
            let c = lowest(levels.dom());
            assert(is_lowest(levels.dom(), c));
            assert(levels.contains_key(c));
        },
        Side::Buy => {
            assert(is_highest(levels.dom(), p));
            let c = highest(levels.dom());
            assert(is_highest(levels.dom(), c));
            assert(levels.contains_key(c));
        },
    }
}

/// Trading against any queue leaves the taker the part of its quantity above
/// the queue's total (nothing when the total covers it), and a queue whose
/// total is below the taker's quantity is used up.
proof fn lemma_fill_level_remaining(queue: Seq<Order>, taker_id: u64, qty: nat, price: u64)
    ensures
        ({
            let o = fill_level(queue, taker_id, qty, price);
            &&& o.remaining == if level_qty(queue) <= qty {
                (qty - level_qty(queue)) as nat
            } else {
                0nat
            }
            &&& level_qty(queue) < qty ==> o.queue.len() == 0
        }),
{
    let o = fill_level(queue, taker_id, qty, price);
    lemma_fill_level(queue, taker_id, qty, price);
    if o.queue.len() == 0 {
        assert(level_qty(o.queue) == 0);
    }
}

/// What is left of a taker after trading against the levels of `maker_side`
/// as `match_levels` says, computed without changing the book: `None` exactly
/// when a level it would trade against has a total that does not fit a `u64`.
fn remaining_after_match(
    levels: &BTreeMap<u64, VecDeque<Order>>,
    maker_side: Side,
    taker_id: u64,
    limit: u64,
    qty: u64,
) -> (r: Option<u64>)
    ensures
        ({
            let m = match_levels(levels_view(levels@), maker_side, taker_id, limit, qty as nat);
            match r {
                Some(left) => m.sums_fit && left == m.remaining,
                None => !m.sums_fit,
            }
        }),
{
    proof {
        lemma_levels_view_dom(levels@);
    }
    let prices = prices_best_first(levels, maker_side);
    let ghost lv = levels_view(levels@);
    let ghost goal = match_levels(lv, maker_side, taker_id, limit, qty as nat);
    let ghost mut cur = lv;
    let n = prices.len();
    let mut left = qty;
    let mut i: usize = 0;
    while i < n
        invariant_except_break
            i <= n,
            n == prices@.len(),
            lv == levels_view(levels@),
            lv.dom() == levels@.dom(),
            goal == match_levels(lv, maker_side, taker_id, limit, qty as nat),
            forall|a: int, b: int| 0 <= a < b < n ==> strictly_better(maker_side, prices@[a], prices@[b]),
            forall|a: int| 0 <= a < n ==> lv.contains_key(#[trigger] prices@[a]),
            cur.dom().finite(),
            forall|q: u64| #[trigger] cur.contains_key(q) ==> cur[q] == lv[q],
            forall|q: u64|
                #[trigger] cur.contains_key(q) <==> exists|j: int| i <= j < n && prices@[j] == q,
            goal.remaining == match_levels(cur, maker_side, taker_id, limit, left as nat).remaining,
            goal.sums_fit == match_levels(cur, maker_side, taker_id, limit, left as nat).sums_fit,
        ensures
            goal.remaining == left,
            goal.sums_fit,
        decreases n - i,
    {
        if left == 0 {
            break;
        }
        let p = prices[i];
        proof {
            assert(cur.contains_key(p));
            assert forall|q: u64| #[trigger] cur.contains_key(q) implies q == p || strictly_better(
                maker_side,
                p,
                q,
            ) by {
                let j = choose|j: int| i <= j < n && prices@[j] == q;
                if j > i {
                    assert(strictly_better(maker_side, prices@[i as int], prices@[j]));
                }
            }
            lemma_best_price_is(cur, maker_side, p);
        }
        let crossing = match maker_side {
            Side::Sell => p <= limit,
            Side::Buy => limit <= p,
        };
        if !crossing {
            break;
        }
        assert(levels@.contains_key(p));
        let queue = levels.get(&p).unwrap();
        assert(queue@ == cur[p]);
        let t = match queue_qty_checked(queue) {
            Some(t) => t,
            None => {
                assert(!match_levels(cur, maker_side, taker_id, limit, left as nat).sums_fit);
                return None;
            },
        };
        proof {
            lemma_fill_level_remaining(cur[p], taker_id, left as nat, p);
            assert(cur.remove(p).dom().finite());
            assert(match_levels(cur.remove(p), maker_side, taker_id, limit, 0).remaining == 0);
            assert(match_levels(cur.remove(p), maker_side, taker_id, limit, 0).sums_fit);
        }
        if t >= left {
            left = 0;
            break;
        }
        proof {
            let next = cur.remove(p);
            assert forall|q: u64| #[trigger] next.contains_key(q) <==> exists|j: int|
                i + 1 <= j < n && prices@[j] == q by {
                if next.contains_key(q) {
                    let j = choose|j: int| i <= j < n && prices@[j] == q;
                    assert(j != i);
                }
                if exists|j: int| i + 1 <= j < n && prices@[j] == q {
                    let j = choose|j: int| i + 1 <= j < n && prices@[j] == q;
                    assert(strictly_better(maker_side, prices@[i as int], prices@[j]));
                    assert(cur.contains_key(q));
                }
            }
            cur = next;
        }
        left = left - t;
        i = i + 1;
    }
    Some(left)
}

/// Whether `incoming` can be processed on `book`: exactly when
/// `process_order` may be called on it (`can_process`), that is, when every
/// level it would trade against has a total that fits a `u64`, and what is
/// left of the order after matching, if anything, has a positive price and
/// fits on top of the total resting at its price on its own side.
pub fn can_process_order(book: &OrderBook, incoming: Order) -> (r: bool)
    ensures
        r == can_process(book@, incoming),
{
    proof {
        lemma_levels_view_dom(book.bids@);
        lemma_levels_view_dom(book.asks@);
    }
    let matched = match incoming.side {
        Side::Buy => remaining_after_match(&book.asks, Side::Sell, incoming.id, incoming.price, incoming.qty),
        Side::Sell => remaining_after_match(&book.bids, Side::Buy, incoming.id, incoming.price, incoming.qty),
    };
    let remaining = match matched {
        Some(left) => left,
        None => {
            return false;
        },
    };
    if remaining == 0 {
        return true;
    }
    if incoming.price == 0 {
        return false;
    }
    let own = match incoming.side {
        Side::Buy => &book.bids,
        Side::Sell => &book.asks,
    };
    let total = match own.get(&incoming.price) {
        Some(queue) => match queue_qty_checked(queue) {
            Some(t) => t,
            None => {
                return false;
            },
        },
        None => 0,
    };
    total <= u64::MAX - remaining
}

} // verus!
