use vstd::prelude::*;

use crate::engine::{
    best_price, crosses, fill_level, lemma_fill_level, match_incoming, match_levels,
    process_outcome, resting_part, with_side_levels, OrderBookDelta,
};
use crate::models::{opposite, Fill, Order, Side};
use crate::api::types::OrderLevel;
use crate::api::lists_levels;
use crate::api::ws::{
    first_level_error, level_order, replica_after, replica_after_all, rest_levels, snapshot_book,
    snapshot_error,
};
use crate::replica::{
    apply_delta, apply_deltas, apply_updates, book_totals, level_totals, replay, set_level,
    set_total, updated_book, BookTotals,
};
use crate::state::{empty_book, lists_symbol, primary_flag};
use crate::api::{side_named, update_message};
use crate::api::types::SyncMessage;
use crate::text::lowercase_of;
use crate::orderbook::{
    highest, is_highest, is_lowest, level_at, level_qty, levels_well_formed, lowest, rest_order,
    BookView,
};

verus! {

/// Total quantity of a list of fills.
pub open spec fn fills_qty(fills: Seq<Fill>) -> nat
    decreases fills.len(),
{
    if fills.len() == 0 {
        0
    } else {
        fills[0].qty as nat + fills_qty(fills.drop_first())
    }
}

/// The quantity of two lists of fills one after the other is the sum of theirs.
pub proof fn lemma_fills_qty_concat(a: Seq<Fill>, b: Seq<Fill>)
    ensures
        fills_qty(a + b) == fills_qty(a) + fills_qty(b),
    decreases a.len(),
{
    if a.len() == 0 {
        assert(a + b =~= b);
    } else {
        assert((a + b).drop_first() =~= a.drop_first() + b);
        lemma_fills_qty_concat(a.drop_first(), b);
    }
}

/// A finite non-empty set of prices has a lowest and a highest price.
pub proof fn lemma_extremes_exist(s: Set<u64>)
    requires
        s.finite(),
        s.len() > 0,
    ensures
        is_lowest(s, lowest(s)),
        is_highest(s, highest(s)),
    decreases s.len(),
{
    let x = s.choose();
    assert(s.contains(x));
    let r = s.remove(x);
    if r.len() == 0 {
        assert forall|q: u64| #[trigger] s.contains(q) implies q == x by {
            if q != x {
                assert(r.contains(q));
            }
        }
        assert(is_lowest(s, x));
        assert(is_highest(s, x));
    } else {
        lemma_extremes_exist(r);
        let lo = lowest(r);
        let hi = highest(r);
        if x < lo {
            assert(is_lowest(s, x));
        } else {
            assert(is_lowest(s, lo));
        }
        if hi < x {
            assert(is_highest(s, x));
        } else {
            assert(is_highest(s, hi));
        }
    }
}

/// Trading against one queue: every fill names the taker and is at the level
/// price, and the fills add up to what the taker traded.
pub proof fn lemma_fill_level_fills(queue: Seq<Order>, taker_id: u64, qty: nat, price: u64)
    ensures
        ({
            let o = fill_level(queue, taker_id, qty, price);
            &&& fills_qty(o.fills) + o.remaining == qty
            &&& forall|i: int|
                0 <= i < o.fills.len() ==> (#[trigger] o.fills[i]).taker_order_id == taker_id
                    && o.fills[i].price == price
        }),
    decreases queue.len(),
{
    if queue.len() > 0 {
        let maker = queue[0];
        let traded: nat = if qty <= maker.qty {
            qty
        } else {
            maker.qty as nat
        };
        let fill = Fill {
            maker_order_id: maker.id,
            taker_order_id: taker_id,
            price,
            qty: traded as u64,
        };
        let left = (maker.qty - traded) as u64;
        let remaining = (qty - traded) as nat;
        assert(seq![fill].drop_first() =~= Seq::<Fill>::empty());
        assert(fills_qty(Seq::<Fill>::empty()) == 0);
        assert(fills_qty(seq![fill]) == traded);
        if left > 0 {
        } else if remaining == 0 {
        } else {
            lemma_fill_level_fills(queue.drop_first(), taker_id, remaining, price);
            let rest = fill_level(queue.drop_first(), taker_id, remaining, price);
            lemma_fills_qty_concat(seq![fill], rest.fills);
            let o = fill_level(queue, taker_id, qty, price);
            assert forall|i: int| 0 <= i < o.fills.len() implies (#[trigger] o.fills[i]).taker_order_id
                == taker_id && o.fills[i].price == price by {
                if i > 0 {
                    assert(o.fills[i] == rest.fills[i - 1]);
                }
            }
        }
    }
}

/// Matching against one side of the book: the fills add up to what the taker
/// traded, each names the taker and is at a price within its limit; matching
/// only removes or changes levels; a taker with quantity left has no level left
/// that crosses its limit.
pub proof fn lemma_match_levels(
    levels: Map<u64, Seq<Order>>,
    maker_side: Side,
    taker_id: u64,
    limit: u64,
    qty: nat,
)
    requires
        levels.dom().finite(),
    ensures
        ({
            let m = match_levels(levels, maker_side, taker_id, limit, qty);
            &&& fills_qty(m.fills) + m.remaining == qty
            &&& forall|i: int|
                0 <= i < m.fills.len() ==> (#[trigger] m.fills[i]).taker_order_id == taker_id
                    && crosses(maker_side, limit, m.fills[i].price)
            &&& m.levels.dom().subset_of(levels.dom())
            &&& m.remaining > 0 ==> forall|p: u64|
                #[trigger] m.levels.contains_key(p) ==> !crosses(maker_side, limit, p)
        }),
    decreases levels.dom().len(),
{
    let p = best_price(levels, maker_side);
    let m = match_levels(levels, maker_side, taker_id, limit, qty);
    if levels.dom().len() > 0 {
        lemma_extremes_exist(levels.dom());
    }
    if qty == 0 || !levels.contains_key(p) || !crosses(maker_side, limit, p) {
        assert(fills_qty(m.fills) == 0);
        if qty > 0 && levels.contains_key(p) {
            assert forall|q: u64| #[trigger] m.levels.contains_key(q) implies !crosses(
                maker_side,
                limit,
                q,
            ) by {
                assert(levels.dom().contains(q));
            }
        }
        if qty > 0 && !levels.contains_key(p) {
            assert(levels.dom().len() == 0);
            assert forall|q: u64| #[trigger] m.levels.contains_key(q) implies !crosses(
                maker_side,
                limit,
                q,
            ) by {
                assert(levels.dom().contains(q));
            }
        }
    } else {
        let lvl = fill_level(levels[p], taker_id, qty, p);
        lemma_fill_level_fills(levels[p], taker_id, qty, p);
        lemma_fill_level(levels[p], taker_id, qty, p);
        if lvl.queue.len() == 0 {
            let rest = match_levels(levels.remove(p), maker_side, taker_id, limit, lvl.remaining);
            lemma_match_levels(levels.remove(p), maker_side, taker_id, limit, lvl.remaining);
            lemma_fills_qty_concat(lvl.fills, rest.fills);
            assert forall|i: int| 0 <= i < m.fills.len() implies (#[trigger] m.fills[i]).taker_order_id
                == taker_id && crosses(maker_side, limit, m.fills[i].price) by {
                if i < lvl.fills.len() {
                    assert(m.fills[i] == lvl.fills[i]);
                } else {
                    assert(m.fills[i] == rest.fills[i - lvl.fills.len()]);
                }
            }
        } else {
            assert forall|i: int| 0 <= i < m.fills.len() implies (#[trigger] m.fills[i]).taker_order_id
                == taker_id && crosses(maker_side, limit, m.fills[i].price) by {
                assert(m.fills[i] == lvl.fills[i]);
            }
        }
    }
}

/// For makers of `maker_side`, price `a` is at least as good for the taker as
/// price `b`: no higher for asks, no lower for bids.
pub open spec fn at_least_as_good(maker_side: Side, a: u64, b: u64) -> bool {
    match maker_side {
        Side::Sell => a <= b,
        Side::Buy => b <= a,
    }
}

/// Matching takes levels best price first: every fill is at the price of a
/// level of the side, the fills come in best-first order, and no fill is at a
/// worse price than a level that is left.
pub proof fn lemma_match_levels_price_priority(
    levels: Map<u64, Seq<Order>>,
    maker_side: Side,
    taker_id: u64,
    limit: u64,
    qty: nat,
)
    requires
        levels.dom().finite(),
    ensures
        ({
            let m = match_levels(levels, maker_side, taker_id, limit, qty);
            &&& forall|i: int| 0 <= i < m.fills.len() ==> levels.contains_key((#[trigger] m.fills[i]).price)
            &&& forall|i: int, j: int|
                0 <= i < j < m.fills.len() ==> at_least_as_good(
                    maker_side,
                    (#[trigger] m.fills[i]).price,
                    (#[trigger] m.fills[j]).price,
                )
            &&& forall|i: int, q: u64|
                0 <= i < m.fills.len() && #[trigger] m.levels.contains_key(q) ==> at_least_as_good(
                    maker_side,
                    (#[trigger] m.fills[i]).price,
                    q,
                )
        }),
    decreases levels.dom().len(),
{
    let p = best_price(levels, maker_side);
    let m = match_levels(levels, maker_side, taker_id, limit, qty);
    if !(qty == 0 || !levels.contains_key(p) || !crosses(maker_side, limit, p)) {
        lemma_extremes_exist(levels.dom());
        assert forall|q: u64| #[trigger] levels.contains_key(q) implies at_least_as_good(maker_side, p, q) by {
            assert(levels.dom().contains(q));
        }
        let lvl = fill_level(levels[p], taker_id, qty, p);
        lemma_fill_level_fills(levels[p], taker_id, qty, p);
        if lvl.queue.len() == 0 {
            let others = levels.remove(p);
            let rest = match_levels(others, maker_side, taker_id, limit, lvl.remaining);
            lemma_match_levels_price_priority(others, maker_side, taker_id, limit, lvl.remaining);
            lemma_match_levels(others, maker_side, taker_id, limit, lvl.remaining);
            let n = lvl.fills.len();
            assert forall|i: int| 0 <= i < m.fills.len() implies levels.contains_key(
                (#[trigger] m.fills[i]).price,
            ) by {
                if i < n {
                    assert(m.fills[i] == lvl.fills[i]);
                } else {
                    assert(m.fills[i] == rest.fills[i - n]);
                }
            }
            assert forall|i: int, j: int| 0 <= i < j < m.fills.len() implies at_least_as_good(
                maker_side,
                (#[trigger] m.fills[i]).price,
                (#[trigger] m.fills[j]).price,
            ) by {
                if j < n {
                    assert(m.fills[i] == lvl.fills[i]);
                    assert(m.fills[j] == lvl.fills[j]);
                } else if i < n {
                    assert(m.fills[i] == lvl.fills[i]);
                    assert(m.fills[j] == rest.fills[j - n]);
                    assert(levels.contains_key(rest.fills[j - n].price));
                } else {
                    assert(m.fills[i] == rest.fills[i - n]);
                    assert(m.fills[j] == rest.fills[j - n]);
                }
            }
            assert forall|i: int, q: u64|
                0 <= i < m.fills.len() && #[trigger] m.levels.contains_key(q) implies at_least_as_good(
                maker_side,
                (#[trigger] m.fills[i]).price,
                q,
            ) by {
                assert(rest.levels.dom().contains(q));
                assert(levels.contains_key(q));
                if i < n {
                    assert(m.fills[i] == lvl.fills[i]);
                } else {
                    assert(m.fills[i] == rest.fills[i - n]);
                }
            }
        } else {
            assert forall|i: int| 0 <= i < m.fills.len() implies levels.contains_key(
                (#[trigger] m.fills[i]).price,
            ) by {
                assert(m.fills[i] == lvl.fills[i]);
            }
            assert forall|i: int, j: int| 0 <= i < j < m.fills.len() implies at_least_as_good(
                maker_side,
                (#[trigger] m.fills[i]).price,
                (#[trigger] m.fills[j]).price,
            ) by {
                assert(m.fills[i] == lvl.fills[i]);
                assert(m.fills[j] == lvl.fills[j]);
            }
            assert forall|i: int, q: u64|
                0 <= i < m.fills.len() && #[trigger] m.levels.contains_key(q) implies at_least_as_good(
                maker_side,
                (#[trigger] m.fills[i]).price,
                q,
            ) by {
                assert(m.fills[i] == lvl.fills[i]);
                if q != p {
                    assert(levels.contains_key(q));
                }
            }
        }
    }
}

/// How many of `fills` are at `price`.
pub open spec fn count_at(fills: Seq<Fill>, price: u64) -> nat
    decreases fills.len(),
{
    if fills.len() == 0 {
        0
    } else {
        count_at(fills.drop_last(), price) + if fills.last().price == price {
            1nat
        } else {
            0nat
        }
    }
}

/// Counting over two lists one after the other adds the counts.
pub proof fn lemma_count_at_concat(a: Seq<Fill>, b: Seq<Fill>, price: u64)
    ensures
        count_at(a + b, price) == count_at(a, price) + count_at(b, price),
    decreases b.len(),
{
    if b.len() == 0 {
        assert(a + b =~= a);
    } else {
        assert((a + b).drop_last() =~= a + b.drop_last());
        lemma_count_at_concat(a, b.drop_last(), price);
    }
}

/// In a list of fills all at `price`, every fill is at `price` and none at
/// another price.
pub proof fn lemma_count_at_uniform(fills: Seq<Fill>, price: u64, other: u64)
    requires
        forall|i: int| 0 <= i < fills.len() ==> (#[trigger] fills[i]).price == price,
    ensures
        count_at(fills, other) == if other == price {
            fills.len()
        } else {
            0
        },
    decreases fills.len(),
{
    if fills.len() > 0 {
        let s = fills.drop_last();
        assert forall|i: int| 0 <= i < s.len() implies (#[trigger] s[i]).price == price by {
            assert(s[i] == fills[i]);
        }
        lemma_count_at_uniform(s, price, other);
    }
}

/// Trading against one queue takes its orders front to back: the `i`-th fill
/// is against the `i`-th order of the queue.
pub proof fn lemma_fill_level_makers(queue: Seq<Order>, taker_id: u64, qty: nat, price: u64)
    ensures
        ({
            let o = fill_level(queue, taker_id, qty, price);
            &&& o.fills.len() <= queue.len()
            &&& forall|i: int|
                0 <= i < o.fills.len() ==> (#[trigger] o.fills[i]).maker_order_id == queue[i].id
        }),
    decreases queue.len(),
{
    if queue.len() > 0 {
        let maker = queue[0];
        let traded: nat = if qty <= maker.qty {
            qty
        } else {
            maker.qty as nat
        };
        let left = (maker.qty - traded) as u64;
        let remaining = (qty - traded) as nat;
        if left == 0 && remaining > 0 {
            lemma_fill_level_makers(queue.drop_first(), taker_id, remaining, price);
            let rest = fill_level(queue.drop_first(), taker_id, remaining, price);
            let o = fill_level(queue, taker_id, qty, price);
            assert forall|i: int| 0 <= i < o.fills.len() implies (#[trigger] o.fills[i]).maker_order_id
                == queue[i].id by {
                if i > 0 {
                    assert(o.fills[i] == rest.fills[i - 1]);
                    assert(queue.drop_first()[i - 1] == queue[i]);
                }
            }
        }
    }
}

/// Matching takes the orders of each level front to back: the `k`-th fill at
/// a price is against the `k`-th order queued at that price.
pub proof fn lemma_match_levels_time_priority(
    levels: Map<u64, Seq<Order>>,
    maker_side: Side,
    taker_id: u64,
    limit: u64,
    qty: nat,
)
    requires
        levels.dom().finite(),
    ensures
        ({
            let m = match_levels(levels, maker_side, taker_id, limit, qty);
            forall|i: int|
                0 <= i < m.fills.len() ==> {
                    let p = (#[trigger] m.fills[i]).price;
                    let k = count_at(m.fills.take(i), p);
                    &&& levels.contains_key(p)
                    &&& k < levels[p].len()
                    &&& m.fills[i].maker_order_id == levels[p][k as int].id
                }
        }),
    decreases levels.dom().len(),
{
    let p = best_price(levels, maker_side);
    let m = match_levels(levels, maker_side, taker_id, limit, qty);
    if !(qty == 0 || !levels.contains_key(p) || !crosses(maker_side, limit, p)) {
        let lvl = fill_level(levels[p], taker_id, qty, p);
        lemma_fill_level_fills(levels[p], taker_id, qty, p);
        lemma_fill_level_makers(levels[p], taker_id, qty, p);
        let n = lvl.fills.len();
        assert forall|i: int| 0 <= i < n implies {
            let k = count_at(lvl.fills.take(i), p);
            &&& k == i
            &&& (#[trigger] lvl.fills[i]).maker_order_id == levels[p][k as int].id
        } by {
            let t = lvl.fills.take(i);
            assert forall|j: int| 0 <= j < t.len() implies (#[trigger] t[j]).price == p by {
                assert(t[j] == lvl.fills[j]);
            }
            lemma_count_at_uniform(t, p, p);
        }
        if lvl.queue.len() == 0 {
            let others = levels.remove(p);
            let rest = match_levels(others, maker_side, taker_id, limit, lvl.remaining);
            lemma_match_levels_time_priority(others, maker_side, taker_id, limit, lvl.remaining);
            assert forall|i: int| 0 <= i < m.fills.len() implies {
                let q = (#[trigger] m.fills[i]).price;
                let k = count_at(m.fills.take(i), q);
                &&& levels.contains_key(q)
                &&& k < levels[q].len()
                &&& m.fills[i].maker_order_id == levels[q][k as int].id
            } by {
                if i < n {
                    assert(m.fills[i] == lvl.fills[i]);
                    assert(m.fills.take(i) =~= lvl.fills.take(i));
                } else {
                    let r = rest.fills[i - n];
                    assert(m.fills[i] == r);
                    let q = r.price;
                    assert(others.contains_key(q));
                    assert(q != p);
                    assert(m.fills.take(i) =~= lvl.fills + rest.fills.take(i - n));
                    lemma_count_at_concat(lvl.fills, rest.fills.take(i - n), q);
                    lemma_count_at_uniform(lvl.fills, p, q);
                }
            }
        } else {
            assert forall|i: int| 0 <= i < m.fills.len() implies {
                let q = (#[trigger] m.fills[i]).price;
                let k = count_at(m.fills.take(i), q);
                &&& levels.contains_key(q)
                &&& k < levels[q].len()
                &&& m.fills[i].maker_order_id == levels[q][k as int].id
            } by {
                assert(m.fills[i] == lvl.fills[i]);
                assert(m.fills.take(i) =~= lvl.fills.take(i));
            }
        }
    }
}

/// Every order of a queue is at `price`, of `side`, and has positive quantity.
pub open spec fn queue_well_formed(queue: Seq<Order>, price: u64, side: Side) -> bool {
    forall|i: int|
        0 <= i < queue.len() ==> {
            &&& (#[trigger] queue[i]).price == price
            &&& queue[i].side == side
            &&& queue[i].qty > 0
        }
}

/// A non-empty queue of orders with positive quantity has positive quantity.
pub proof fn lemma_level_qty_positive(queue: Seq<Order>, price: u64, side: Side)
    requires
        queue_well_formed(queue, price, side),
        queue.len() > 0,
    ensures
        level_qty(queue) > 0,
{
    assert(queue[queue.len() - 1].qty > 0);
}

/// Trading against a well-formed queue leaves a well-formed queue.
pub proof fn lemma_fill_level_well_formed(
    queue: Seq<Order>,
    taker_id: u64,
    qty: nat,
    price: u64,
    side: Side,
)
    requires
        queue_well_formed(queue, price, side),
    ensures
        queue_well_formed(fill_level(queue, taker_id, qty, price).queue, price, side),
    decreases queue.len(),
{
    if queue.len() > 0 {
        let maker = queue[0];
        let traded: nat = if qty <= maker.qty {
            qty
        } else {
            maker.qty as nat
        };
        let left = (maker.qty - traded) as u64;
        let remaining = (qty - traded) as nat;
        let o = fill_level(queue, taker_id, qty, price);
        if left > 0 {
            assert forall|i: int| 0 <= i < o.queue.len() implies {
                &&& (#[trigger] o.queue[i]).price == price
                &&& o.queue[i].side == side
                &&& o.queue[i].qty > 0
            } by {
                if i > 0 {
                    assert(o.queue[i] == queue[i]);
                }
            }
        } else if remaining == 0 {
            assert forall|i: int| 0 <= i < o.queue.len() implies {
                &&& (#[trigger] o.queue[i]).price == price
                &&& o.queue[i].side == side
                &&& o.queue[i].qty > 0
            } by {
                assert(o.queue[i] == queue[i + 1]);
            }
        } else {
            assert forall|i: int| 0 <= i < queue.drop_first().len() implies {
                &&& (#[trigger] queue.drop_first()[i]).price == price
                &&& queue.drop_first()[i].side == side
                &&& queue.drop_first()[i].qty > 0
            } by {
                assert(queue.drop_first()[i] == queue[i + 1]);
            }
            lemma_fill_level_well_formed(queue.drop_first(), taker_id, remaining, price, side);
        }
    }
}

/// Matching against a well-formed side keeps it well formed, and every level
/// it sums fits a `u64`.
pub proof fn lemma_match_levels_well_formed(
    levels: Map<u64, Seq<Order>>,
    maker_side: Side,
    taker_id: u64,
    limit: u64,
    qty: nat,
)
    requires
        levels.dom().finite(),
        levels_well_formed(levels, maker_side),
    ensures
        ({
            let m = match_levels(levels, maker_side, taker_id, limit, qty);
            &&& levels_well_formed(m.levels, maker_side)
            &&& m.sums_fit
        }),
    decreases levels.dom().len(),
{
    let p = best_price(levels, maker_side);
    if !(qty == 0 || !levels.contains_key(p) || !crosses(maker_side, limit, p)) {
        let lvl = fill_level(levels[p], taker_id, qty, p);
        assert(queue_well_formed(levels[p], p, maker_side));
        lemma_fill_level_well_formed(levels[p], taker_id, qty, p, maker_side);
        lemma_fill_level(levels[p], taker_id, qty, p);
        if lvl.queue.len() == 0 {
            lemma_match_levels_well_formed(levels.remove(p), maker_side, taker_id, limit, lvl.remaining);
        } else {
            let after = levels.insert(p, lvl.queue);
            assert forall|q: u64| #[trigger] after.contains_key(q) implies {
                &&& q > 0
                &&& after[q].len() > 0
                &&& level_qty(after[q]) <= u64::MAX
                &&& forall|i: int|
                    0 <= i < after[q].len() ==> {
                        &&& (#[trigger] after[q][i]).price == q
                        &&& after[q][i].side == maker_side
                        &&& after[q][i].qty > 0
                    }
            } by {
                if q != p {
                    assert(levels.contains_key(q));
                }
            }
        }
    }
}

/// `price` is at or better than the limit of `incoming`: at or below it for a
/// buy, at or above it for a sell.
pub open spec fn within_limit(incoming: Order, price: u64) -> bool {
    match incoming.side {
        Side::Buy => price <= incoming.price,
        Side::Sell => incoming.price <= price,
    }
}

/// Every bid is below every ask.
pub open spec fn uncrossed(book: BookView) -> bool {
    forall|b: u64, a: u64|
        #![trigger book.bids.contains_key(b), book.asks.contains_key(a)]
        book.bids.contains_key(b) && book.asks.contains_key(a) ==> b < a
}

/// Both sides of the book have finitely many levels (as every book built from
/// `BTreeMap`s has).
pub open spec fn finite_book(book: BookView) -> bool {
    book.bids.dom().finite() && book.asks.dom().finite()
}

/// Fills and rest account for the whole order: the fills name the incoming
/// order as taker, are each at or better than its limit, and their quantities
/// plus the quantity left to rest add up to the order's quantity; what is left
/// rests at the back of the queue at the order's limit price.
pub proof fn law_fills_and_rest_make_up_the_order(book: BookView, incoming: Order)
    requires
        finite_book(book),
    ensures
        ({
            let m = match_incoming(book, incoming);
            let out = process_outcome(book, incoming);
            &&& out.fills == m.fills
            &&& fills_qty(out.fills) + m.remaining == incoming.qty
            &&& forall|i: int|
                0 <= i < out.fills.len() ==> (#[trigger] out.fills[i]).taker_order_id == incoming.id
                    && within_limit(incoming, out.fills[i].price)
            &&& m.remaining > 0 ==> level_at(
                out.book.side_levels(incoming.side),
                incoming.price,
            ).last() == resting_part(incoming, m.remaining)
        }),
{
    let maker_side = opposite(incoming.side);
    lemma_match_levels(
        book.side_levels(maker_side),
        maker_side,
        incoming.id,
        incoming.price,
        incoming.qty as nat,
    );
}

/// An order rests only when no level is left on the other side at or better
/// than its limit: a resting buy is below every ask, a resting sell above
/// every bid.
pub proof fn law_rests_only_without_crossing_liquidity(book: BookView, incoming: Order)
    requires
        finite_book(book),
    ensures
        ({
            let m = match_incoming(book, incoming);
            let out = process_outcome(book, incoming);
            m.remaining > 0 ==> forall|p: u64|
                #[trigger] out.book.side_levels(opposite(incoming.side)).contains_key(p)
                    ==> !within_limit(incoming, p)
        }),
{
    let maker_side = opposite(incoming.side);
    lemma_match_levels(
        book.side_levels(maker_side),
        maker_side,
        incoming.id,
        incoming.price,
        incoming.qty as nat,
    );
}

/// A book in which every bid is below every ask stays so after an order is
/// processed.
pub proof fn law_book_stays_uncrossed(book: BookView, incoming: Order)
    requires
        finite_book(book),
        uncrossed(book),
    ensures
        uncrossed(process_outcome(book, incoming).book),
{
    let maker_side = opposite(incoming.side);
    let m = match_incoming(book, incoming);
    let out = process_outcome(book, incoming);
    lemma_match_levels(
        book.side_levels(maker_side),
        maker_side,
        incoming.id,
        incoming.price,
        incoming.qty as nat,
    );
    assert forall|b: u64, a: u64|
        out.book.bids.contains_key(b) && out.book.asks.contains_key(a) implies b < a by {
        match incoming.side {
            Side::Buy => {
                assert(book.asks.contains_key(a));
                if !book.bids.contains_key(b) {
                    assert(b == incoming.price);
                }
            },
            Side::Sell => {
                assert(book.bids.contains_key(b));
                if !book.asks.contains_key(a) {
                    assert(a == incoming.price);
                }
            },
        }
    }
}

/// Processing an order keeps a well-formed book well formed: levels stay
/// non-empty, at positive prices, with orders of their side and price and of
/// positive quantity, and with totals that fit a `u64`.
pub proof fn law_well_formed_book_stays_well_formed(book: BookView, incoming: Order)
    requires
        book.well_formed(),
        crate::engine::can_process(book, incoming),
    ensures
        process_outcome(book, incoming).book.well_formed(),
{
    let maker_side = opposite(incoming.side);
    let m = match_incoming(book, incoming);
    let out = process_outcome(book, incoming);
    lemma_match_levels_well_formed(
        book.side_levels(maker_side),
        maker_side,
        incoming.id,
        incoming.price,
        incoming.qty as nat,
    );
    if m.remaining > 0 {
        let own = book.side_levels(incoming.side);
        let r = resting_part(incoming, m.remaining);
        let lv = level_at(own, incoming.price);
        let after = own.insert(incoming.price, lv.push(r));
        assert(lv.push(r).drop_last() =~= lv);
        assert(out.book.side_levels(incoming.side) == after);
        assert forall|q: u64| #[trigger] after.contains_key(q) implies {
            &&& q > 0
            &&& after[q].len() > 0
            &&& level_qty(after[q]) <= u64::MAX
            &&& forall|i: int|
                0 <= i < after[q].len() ==> {
                    &&& (#[trigger] after[q][i]).price == q
                    &&& after[q][i].side == incoming.side
                    &&& after[q][i].qty > 0
                }
        } by {
            if q != incoming.price {
                assert(own.contains_key(q));
            } else {
                assert forall|i: int| 0 <= i < after[q].len() implies {
                    &&& (#[trigger] after[q][i]).price == q
                    &&& after[q][i].side == incoming.side
                    &&& after[q][i].qty > 0
                } by {
                    if i < lv.len() {
                        assert(own.contains_key(q));
                        assert(after[q][i] == own[q][i]);
                    }
                }
            }
        }
    }
}

/// An order with zero quantity changes nothing and reports nothing.
pub proof fn law_zero_quantity_changes_nothing(book: BookView, incoming: Order)
    requires
        finite_book(book),
        incoming.qty == 0,
    ensures
        ({
            let out = process_outcome(book, incoming);
            &&& out.book == book
            &&& out.fills == Seq::<Fill>::empty()
            &&& out.deltas == Seq::<OrderBookDelta>::empty()
        }),
{
    let m = match_incoming(book, incoming);
    assert(m.remaining == 0);
    match incoming.side {
        Side::Buy => assert(with_side_levels(book, Side::Sell, m.levels) == book),
        Side::Sell => assert(with_side_levels(book, Side::Buy, m.levels) == book),
    }
}

/// Matching reports, for each level it changed, the level's new total (0 for a
/// removed level), on the side it matched against.
pub proof fn lemma_match_levels_deltas(
    levels: Map<u64, Seq<Order>>,
    maker_side: Side,
    taker_id: u64,
    limit: u64,
    qty: nat,
)
    requires
        levels.dom().finite(),
        match_levels(levels, maker_side, taker_id, limit, qty).sums_fit,
    ensures
        ({
            let m = match_levels(levels, maker_side, taker_id, limit, qty);
            forall|i: int|
                0 <= i < m.deltas.len() ==> (#[trigger] m.deltas[i]).side == maker_side
                    && m.deltas[i].qty == level_qty(level_at(m.levels, m.deltas[i].price))
        }),
    decreases levels.dom().len(),
{
    let p = best_price(levels, maker_side);
    let m = match_levels(levels, maker_side, taker_id, limit, qty);
    if !(qty == 0 || !levels.contains_key(p) || !crosses(maker_side, limit, p)) {
        let lvl = fill_level(levels[p], taker_id, qty, p);
        lemma_fill_level(levels[p], taker_id, qty, p);
        if lvl.queue.len() == 0 {
            let rest = match_levels(levels.remove(p), maker_side, taker_id, limit, lvl.remaining);
            lemma_match_levels_deltas(levels.remove(p), maker_side, taker_id, limit, lvl.remaining);
            lemma_match_levels(levels.remove(p), maker_side, taker_id, limit, lvl.remaining);
            assert(!rest.levels.contains_key(p));
            assert(level_qty(Seq::<Order>::empty()) == 0);
            assert forall|i: int| 0 <= i < m.deltas.len() implies (#[trigger] m.deltas[i]).side
                == maker_side && m.deltas[i].qty == level_qty(level_at(m.levels, m.deltas[i].price)) by {
                if i > 0 {
                    assert(m.deltas[i] == rest.deltas[i - 1]);
                }
            }
        }
    }
}

/// Every level change that processing reports gives the level's total in the
/// book after processing (0 where the level is gone).
pub proof fn law_deltas_report_new_level_totals(book: BookView, incoming: Order)
    requires
        crate::engine::can_process(book, incoming),
    ensures
        ({
            let out = process_outcome(book, incoming);
            forall|i: int|
                0 <= i < out.deltas.len() ==> (#[trigger] out.deltas[i]).qty == level_qty(
                    level_at(out.book.side_levels(out.deltas[i].side), out.deltas[i].price),
                )
        }),
{
    let maker_side = opposite(incoming.side);
    let m = match_incoming(book, incoming);
    let out = process_outcome(book, incoming);
    lemma_match_levels_deltas(
        book.side_levels(maker_side),
        maker_side,
        incoming.id,
        incoming.price,
        incoming.qty as nat,
    );
    assert forall|i: int| 0 <= i < out.deltas.len() implies (#[trigger] out.deltas[i]).qty
        == level_qty(level_at(out.book.side_levels(out.deltas[i].side), out.deltas[i].price)) by {
        if i < m.deltas.len() {
            assert(out.deltas[i] == m.deltas[i]);
        } else {
            let own = book.side_levels(incoming.side);
            let lv = level_at(own, incoming.price);
            let r = resting_part(incoming, m.remaining);
            assert(lv.push(r).drop_last() =~= lv);
        }
    }
}

/// Level changes all on one side replay on that side alone.
pub proof fn lemma_apply_deltas_one_side(totals: BookTotals, deltas: Seq<OrderBookDelta>, side: Side)
    requires
        forall|i: int| 0 <= i < deltas.len() ==> (#[trigger] deltas[i]).side == side,
    ensures
        apply_deltas(totals, deltas) == (match side {
            Side::Buy => BookTotals { bids: replay(totals.bids, deltas), asks: totals.asks },
            Side::Sell => BookTotals { bids: totals.bids, asks: replay(totals.asks, deltas) },
        }),
    decreases deltas.len(),
{
    if deltas.len() > 0 {
        assert(deltas[0].side == side);
        assert forall|i: int| 0 <= i < deltas.drop_first().len() implies (
        #[trigger] deltas.drop_first()[i]).side == side by {
            assert(deltas.drop_first()[i] == deltas[i + 1]);
        }
        lemma_apply_deltas_one_side(apply_delta(totals, deltas[0]), deltas.drop_first(), side);
    }
}

/// Applying level changes one list after another is applying them all.
pub proof fn lemma_apply_deltas_concat(
    totals: BookTotals,
    a: Seq<OrderBookDelta>,
    b: Seq<OrderBookDelta>,
)
    ensures
        apply_deltas(totals, a + b) == apply_deltas(apply_deltas(totals, a), b),
    decreases a.len(),
{
    if a.len() == 0 {
        assert(a + b =~= b);
    } else {
        assert((a + b).drop_first() =~= a.drop_first() + b);
        assert((a + b)[0] == a[0]);
        lemma_apply_deltas_concat(apply_delta(totals, a[0]), a.drop_first(), b);
    }
}

/// On a well-formed side, replaying the reported level changes on the level
/// totals before matching gives the level totals after matching.
pub proof fn lemma_match_levels_replay(
    levels: Map<u64, Seq<Order>>,
    maker_side: Side,
    taker_id: u64,
    limit: u64,
    qty: nat,
)
    requires
        levels.dom().finite(),
        levels_well_formed(levels, maker_side),
    ensures
        ({
            let m = match_levels(levels, maker_side, taker_id, limit, qty);
            replay(level_totals(levels), m.deltas) == level_totals(m.levels)
        }),
    decreases levels.dom().len(),
{
    let p = best_price(levels, maker_side);
    let m = match_levels(levels, maker_side, taker_id, limit, qty);
    assert(replay(level_totals(levels), Seq::<OrderBookDelta>::empty()) == level_totals(levels));
    if !(qty == 0 || !levels.contains_key(p) || !crosses(maker_side, limit, p)) {
        let lvl = fill_level(levels[p], taker_id, qty, p);
        lemma_fill_level(levels[p], taker_id, qty, p);
        assert(queue_well_formed(levels[p], p, maker_side));
        lemma_fill_level_well_formed(levels[p], taker_id, qty, p, maker_side);
        if lvl.queue.len() == 0 {
            let rest = match_levels(levels.remove(p), maker_side, taker_id, limit, lvl.remaining);
            lemma_match_levels_replay(levels.remove(p), maker_side, taker_id, limit, lvl.remaining);
            let d = OrderBookDelta { side: maker_side, price: p, qty: 0 };
            assert((seq![d] + rest.deltas)[0] == d);
            assert((seq![d] + rest.deltas).drop_first() =~= rest.deltas);
            assert(set_total(level_totals(levels), p, 0) =~= level_totals(levels.remove(p)));
        } else {
            lemma_level_qty_positive(lvl.queue, p, maker_side);
            let after = levels.insert(p, lvl.queue);
            if level_qty(lvl.queue) != level_qty(levels[p]) {
                let d = OrderBookDelta { side: maker_side, price: p, qty: level_qty(lvl.queue) as u64 };
                assert(seq![d].drop_first() =~= Seq::<OrderBookDelta>::empty());
                let t = set_total(level_totals(levels), p, d.qty);
                assert(replay(t, Seq::<OrderBookDelta>::empty()) == t);
                assert(t =~= level_totals(after));
            } else {
                assert(replay(level_totals(levels), Seq::<OrderBookDelta>::empty()) == level_totals(levels));
                assert(level_totals(levels) =~= level_totals(after));
            }
        }
    }
}

/// The level changes that processing reports, applied in order to the level
/// totals of a well-formed book, give the level totals of the book after
/// processing: a replica that applies them stays in step with the primary.
pub proof fn law_deltas_replay_to_new_totals(book: BookView, incoming: Order)
    requires
        book.well_formed(),
        crate::engine::can_process(book, incoming),
    ensures
        apply_deltas(book_totals(book), process_outcome(book, incoming).deltas) == book_totals(
            process_outcome(book, incoming).book,
        ),
{
    let maker_side = opposite(incoming.side);
    let m = match_incoming(book, incoming);
    let out = process_outcome(book, incoming);
    let levels = book.side_levels(maker_side);
    lemma_match_levels_replay(levels, maker_side, incoming.id, incoming.price, incoming.qty as nat);
    lemma_match_levels_deltas(levels, maker_side, incoming.id, incoming.price, incoming.qty as nat);
    lemma_apply_deltas_one_side(book_totals(book), m.deltas, maker_side);
    let mid = apply_deltas(book_totals(book), m.deltas);
    let matched = with_side_levels(book, maker_side, m.levels);
    assert(mid == book_totals(matched));
    if m.remaining > 0 {
        let own = book.side_levels(incoming.side);
        let lv = level_at(own, incoming.price);
        let r = resting_part(incoming, m.remaining);
        assert(lv.push(r).drop_last() =~= lv);
        let d = out.deltas[out.deltas.len() - 1];
        assert(out.deltas == m.deltas + seq![d]);
        lemma_apply_deltas_concat(book_totals(book), m.deltas, seq![d]);
        assert(seq![d].drop_first() =~= Seq::<OrderBookDelta>::empty());
        assert(apply_deltas(apply_delta(mid, d), Seq::<OrderBookDelta>::empty()) == apply_delta(mid, d));
        assert(apply_deltas(mid, seq![d]) == apply_delta(mid, d));
        match incoming.side {
            Side::Buy => {
                assert(apply_delta(mid, d).bids =~= book_totals(out.book).bids);
            },
            Side::Sell => {
                assert(apply_delta(mid, d).asks =~= book_totals(out.book).asks);
            },
        }
    }
}

/// A replica's level update changes the level totals as the level change says.
pub proof fn lemma_updated_book_totals(book: BookView, delta: OrderBookDelta)
    ensures
        book_totals(updated_book(book, delta.side, delta.price, delta.qty)) == apply_delta(
            book_totals(book),
            delta,
        ),
{
    let o = Order { id: 0, side: delta.side, price: delta.price, qty: delta.qty };
    assert(seq![o].drop_last() =~= Seq::<Order>::empty());
    assert(level_qty(Seq::<Order>::empty()) == 0);
    assert(level_qty(seq![o]) == delta.qty);
    let levels = book.side_levels(delta.side);
    assert(level_totals(set_level(levels, delta.side, delta.price, delta.qty)) =~= set_total(
        level_totals(levels),
        delta.price,
        delta.qty,
    ));
    match delta.side {
        Side::Buy => {},
        Side::Sell => {},
    }
}

/// A replica that applies level changes with `update_level` ends with the
/// level totals that applying the changes to its totals gives.
pub proof fn law_replica_updates_follow_deltas(book: BookView, deltas: Seq<OrderBookDelta>)
    ensures
        book_totals(apply_updates(book, deltas)) == apply_deltas(book_totals(book), deltas),
    decreases deltas.len(),
{
    if deltas.len() > 0 {
        let d = deltas[0];
        lemma_updated_book_totals(book, d);
        law_replica_updates_follow_deltas(updated_book(book, d.side, d.price, d.qty), deltas.drop_first());
    }
}

/// A replica whose map of level totals equals the primary's keeps an equal
/// map after the primary processes an order and the replica applies the
/// reported level changes.
pub proof fn lemma_replica_totals_stay_equal(primary: BookView, replica: BookView, incoming: Order)
    requires
        primary.well_formed(),
        crate::engine::can_process(primary, incoming),
        book_totals(replica) == book_totals(primary),
    ensures
        book_totals(apply_updates(replica, process_outcome(primary, incoming).deltas)) == book_totals(
            process_outcome(primary, incoming).book,
        ),
{
    law_replica_updates_follow_deltas(replica, process_outcome(primary, incoming).deltas);
    law_deltas_replay_to_new_totals(primary, incoming);
}

/// The level totals of a list of levels.
pub open spec fn list_totals(levels: Seq<OrderLevel>) -> Map<u64, nat>
    decreases levels.len(),
{
    if levels.len() == 0 {
        Map::empty()
    } else {
        list_totals(levels.drop_first()).insert(levels[0].price, levels[0].qty as nat)
    }
}

/// No two levels of the list have the same price.
pub open spec fn distinct_prices(levels: Seq<OrderLevel>) -> bool {
    forall|i: int, j: int|
        0 <= i < levels.len() && 0 <= j < levels.len() && i != j ==> levels[i].price
            != levels[j].price
}

/// The totals of a list with distinct prices hold each level's total at its
/// price, and nothing else.
pub proof fn lemma_list_totals(levels: Seq<OrderLevel>)
    requires
        distinct_prices(levels),
    ensures
        forall|i: int|
            0 <= i < levels.len() ==> list_totals(levels).contains_key((#[trigger] levels[i]).price)
                && list_totals(levels)[levels[i].price] == levels[i].qty,
        forall|p: u64|
            #[trigger] list_totals(levels).contains_key(p) ==> exists|i: int|
                0 <= i < levels.len() && levels[i].price == p,
    decreases levels.len(),
{
    if levels.len() > 0 {
        let rest = levels.drop_first();
        assert forall|i: int, j: int|
            0 <= i < rest.len() && 0 <= j < rest.len() && i != j implies rest[i].price
            != rest[j].price by {
            assert(rest[i] == levels[i + 1]);
            assert(rest[j] == levels[j + 1]);
        }
        lemma_list_totals(rest);
        assert forall|i: int| 0 <= i < levels.len() implies list_totals(levels).contains_key(
            (#[trigger] levels[i]).price,
        ) && list_totals(levels)[levels[i].price] == levels[i].qty by {
            if i > 0 {
                assert(levels[i] == rest[i - 1]);
                assert(levels[i].price != levels[0].price);
            }
        }
        assert forall|p: u64| #[trigger] list_totals(levels).contains_key(p) implies exists|i: int|
            0 <= i < levels.len() && levels[i].price == p by {
            if p != levels[0].price {
                assert(list_totals(rest).contains_key(p));
                let k = choose|k: int| 0 <= k < rest.len() && rest[k].price == p;
                assert(levels[k + 1].price == p);
            }
        }
    }
}

/// A list that lists the levels of a side has the level totals of that side,
/// and distinct prices.
pub proof fn lemma_listed_totals(levels: Map<u64, Seq<Order>>, list: Seq<OrderLevel>, ascending: bool)
    requires
        lists_levels(levels, list, ascending),
    ensures
        distinct_prices(list),
        list_totals(list) == level_totals(levels),
{
    assert forall|i: int, j: int|
        0 <= i < list.len() && 0 <= j < list.len() && i != j implies list[i].price
        != list[j].price by {
        if i < j {
            assert(list[i].price != list[j].price);
        } else {
            assert(list[j].price != list[i].price);
        }
    }
    lemma_list_totals(list);
    assert forall|p: u64| #[trigger] levels.contains_key(p) implies list_totals(list).contains_key(p)
        && list_totals(list)[p] == level_qty(levels[p]) by {
        let i = choose|i: int| 0 <= i < list.len() && list[i].price == p;
        assert(list_totals(list).contains_key(list[i].price));
    }
    assert forall|p: u64| #[trigger] list_totals(list).contains_key(p) implies levels.contains_key(p) by {
        let i = choose|i: int| 0 <= i < list.len() && list[i].price == p;
        assert(levels.contains_key(list[i].price));
    }
    assert(list_totals(list) =~= level_totals(levels));
}

/// Resting the levels of a list with distinct new prices and positive
/// quantities on one side adds their totals to that side and leaves the other
/// side alone.
pub proof fn lemma_rest_levels_totals(book: BookView, list: Seq<OrderLevel>, side: Side)
    requires
        distinct_prices(list),
        forall|i: int|
            0 <= i < list.len() ==> !book.side_levels(side).contains_key((#[trigger] list[i]).price),
    ensures
        level_totals(rest_levels(book, list, side).side_levels(side)) == level_totals(
            book.side_levels(side),
        ).union_prefer_right(list_totals(list)),
        rest_levels(book, list, side).side_levels(opposite(side)) == book.side_levels(opposite(side)),
    decreases list.len(),
{
    if list.len() == 0 {
        assert(level_totals(book.side_levels(side)).union_prefer_right(list_totals(list))
            =~= level_totals(book.side_levels(side)));
    } else {
        let o = level_order(list[0], side);
        let next = rest_order(book, o);
        let rest = list.drop_first();
        let levels = book.side_levels(side);
        assert(level_at(levels, o.price) == Seq::<Order>::empty());
        assert(Seq::<Order>::empty().push(o) =~= seq![o]);
        assert(seq![o].drop_last() =~= Seq::<Order>::empty());
        assert(level_qty(Seq::<Order>::empty()) == 0);
        assert(level_qty(seq![o]) == o.qty);
        assert(next.side_levels(side) == levels.insert(o.price, seq![o]));
        assert(level_totals(next.side_levels(side)) =~= level_totals(levels).insert(
            o.price,
            o.qty as nat,
        ));
        assert forall|i: int, j: int|
            0 <= i < rest.len() && 0 <= j < rest.len() && i != j implies rest[i].price
            != rest[j].price by {
            assert(rest[i] == list[i + 1]);
            assert(rest[j] == list[j + 1]);
        }
        assert forall|i: int| 0 <= i < rest.len() implies !next.side_levels(side).contains_key(
            (#[trigger] rest[i]).price,
        ) by {
            assert(rest[i] == list[i + 1]);
            assert(list[i + 1].price != list[0].price);
        }
        lemma_rest_levels_totals(next, rest, side);
        lemma_list_totals(rest);
        assert(!list_totals(rest).contains_key(o.price)) by {
            if list_totals(rest).contains_key(o.price) {
                let k = choose|k: int| 0 <= k < rest.len() && rest[k].price == o.price;
                assert(rest[k] == list[k + 1]);
            }
        }
        assert(level_totals(levels).insert(o.price, o.qty as nat).union_prefer_right(list_totals(rest))
            =~= level_totals(levels).union_prefer_right(list_totals(list)));
    }
}

/// Levels that are all levels of a well-formed side can be rested.
proof fn lemma_first_level_error_valid(levels: Map<u64, Seq<Order>>, list: Seq<OrderLevel>, side: Side)
    requires
        levels_well_formed(levels, side),
        forall|i: int|
            0 <= i < list.len() ==> levels.contains_key((#[trigger] list[i]).price) && list[i].qty
                == level_qty(levels[list[i].price]),
    ensures
        first_level_error(list) is None,
    decreases list.len(),
{
    if list.len() > 0 {
        let p = list[0].price;
        assert(levels.contains_key(p));
        assert(queue_well_formed(levels[p], p, side));
        lemma_level_qty_positive(levels[p], p, side);
        let rest = list.drop_first();
        assert forall|i: int| 0 <= i < rest.len() implies levels.contains_key((#[trigger] rest[i]).price)
            && rest[i].qty == level_qty(levels[rest[i].price]) by {
            assert(rest[i] == list[i + 1]);
        }
        lemma_first_level_error_valid(levels, rest, side);
    }
}

/// A replica that loads the snapshot of a well-formed book (its levels as
/// `orderbook_state` lists them) loads it without error and has the book's
/// level totals.
pub proof fn law_snapshot_reproduces_totals(book: BookView, bids: Seq<OrderLevel>, asks: Seq<OrderLevel>)
    requires
        book.well_formed(),
        lists_levels(book.bids, bids, false),
        lists_levels(book.asks, asks, true),
    ensures
        snapshot_error(bids, asks) is None,
        book_totals(snapshot_book(bids, asks)) == book_totals(book),
{
    lemma_first_level_error_valid(book.bids, bids, Side::Buy);
    lemma_first_level_error_valid(book.asks, asks, Side::Sell);
    lemma_listed_totals(book.bids, bids, false);
    lemma_listed_totals(book.asks, asks, true);
    let e = empty_book();
    lemma_rest_levels_totals(e, bids, Side::Buy);
    let mid = rest_levels(e, bids, Side::Buy);
    assert(mid.asks == Map::<u64, Seq<Order>>::empty());
    lemma_rest_levels_totals(mid, asks, Side::Sell);
    let fin = snapshot_book(bids, asks);
    assert(level_totals(Map::<u64, Seq<Order>>::empty()) =~= Map::<u64, nat>::empty());
    assert(Map::<u64, nat>::empty().union_prefer_right(list_totals(bids)) =~= list_totals(bids));
    assert(Map::<u64, nat>::empty().union_prefer_right(list_totals(asks)) =~= list_totals(asks));
    assert(fin.bids == mid.bids);
}

/// A replica that loads the snapshot of a well-formed primary book and then
/// applies the level changes of the next order the primary processes has the
/// primary's level totals after that order.
pub proof fn law_replica_from_snapshot_stays_in_step(
    primary: BookView,
    bids: Seq<OrderLevel>,
    asks: Seq<OrderLevel>,
    incoming: Order,
)
    requires
        primary.well_formed(),
        lists_levels(primary.bids, bids, false),
        lists_levels(primary.asks, asks, true),
        crate::engine::can_process(primary, incoming),
    ensures
        book_totals(apply_updates(snapshot_book(bids, asks), process_outcome(primary, incoming).deltas))
            == book_totals(process_outcome(primary, incoming).book),
{
    law_snapshot_reproduces_totals(primary, bids, asks);
    lemma_replica_totals_stay_equal(primary, snapshot_book(bids, asks), incoming);
}

/// Price-time priority: on a well-formed book, the first fill of an order is
/// against the earliest order at the best price of the other side (the lowest
/// ask for a buy, the highest bid for a sell), at that price.
pub proof fn law_first_fill_is_best_and_earliest(book: BookView, incoming: Order)
    requires
        finite_book(book),
        book.well_formed(),
    ensures
        ({
            let out = process_outcome(book, incoming);
            let levels = book.side_levels(opposite(incoming.side));
            out.fills.len() > 0 ==> {
                let p = out.fills[0].price;
                &&& levels.contains_key(p)
                &&& out.fills[0].maker_order_id == levels[p][0].id
                &&& forall|q: u64|
                    #[trigger] levels.contains_key(q) ==> match incoming.side {
                        Side::Buy => p <= q,
                        Side::Sell => q <= p,
                    }
            }
        }),
{
    let maker_side = opposite(incoming.side);
    let levels = book.side_levels(maker_side);
    let m = match_incoming(book, incoming);
    let p = best_price(levels, maker_side);
    if levels.dom().len() > 0 {
        lemma_extremes_exist(levels.dom());
    }
    if !(incoming.qty == 0 || !levels.contains_key(p) || !crosses(maker_side, incoming.price, p)) {
        assert(levels[p].len() > 0);
        let lvl = fill_level(levels[p], incoming.id, incoming.qty as nat, p);
        assert(lvl.fills.len() > 0);
        assert(m.fills[0] == lvl.fills[0]);
    }
}


/// Price priority over the whole order: its fills come best price first (for
/// a buy, at non-decreasing prices; for a sell, at non-increasing prices),
/// each at a level that was on the other side, and no fill is at a worse
/// price than a level left on the other side afterwards.
pub proof fn law_fills_follow_price_priority(book: BookView, incoming: Order)
    requires
        finite_book(book),
    ensures
        ({
            let out = process_outcome(book, incoming);
            let before = book.side_levels(opposite(incoming.side));
            let after = out.book.side_levels(opposite(incoming.side));
            &&& forall|i: int| 0 <= i < out.fills.len() ==> before.contains_key((#[trigger] out.fills[i]).price)
            &&& forall|i: int, j: int|
                0 <= i < j < out.fills.len() ==> match incoming.side {
                    Side::Buy => (#[trigger] out.fills[i]).price <= (#[trigger] out.fills[j]).price,
                    Side::Sell => out.fills[j].price <= out.fills[i].price,
                }
            &&& forall|i: int, q: u64|
                0 <= i < out.fills.len() && #[trigger] after.contains_key(q) ==> match incoming.side {
                    Side::Buy => (#[trigger] out.fills[i]).price <= q,
                    Side::Sell => q <= out.fills[i].price,
                }
        }),
{
    let maker_side = opposite(incoming.side);
    let m = match_incoming(book, incoming);
    let out = process_outcome(book, incoming);
    lemma_match_levels_price_priority(
        book.side_levels(maker_side),
        maker_side,
        incoming.id,
        incoming.price,
        incoming.qty as nat,
    );
    assert(out.book.side_levels(maker_side) == m.levels);
}


/// Time priority over the whole order: within each price, the orders that
/// were queued there are traded front to back; the `k`-th fill at a price is
/// against the `k`-th order that was queued at that price on the other side.
pub proof fn law_fills_follow_time_priority(book: BookView, incoming: Order)
    requires
        finite_book(book),
    ensures
        ({
            let out = process_outcome(book, incoming);
            let before = book.side_levels(opposite(incoming.side));
            forall|i: int|
                0 <= i < out.fills.len() ==> {
                    let p = (#[trigger] out.fills[i]).price;
                    let k = count_at(out.fills.take(i), p);
                    &&& before.contains_key(p)
                    &&& k < before[p].len()
                    &&& out.fills[i].maker_order_id == before[p][k as int].id
                }
        }),
{
    let maker_side = opposite(incoming.side);
    lemma_match_levels_time_priority(
        book.side_levels(maker_side),
        maker_side,
        incoming.id,
        incoming.price,
        incoming.qty as nat,
    );
}


/// The total resting at `price` on `side` of `book`, 0 where there is no level.
pub open spec fn total_at(book: BookView, side: Side, price: u64) -> nat {
    level_qty(level_at(book.side_levels(side), price))
}

/// The totals of one side of a map of level totals.
pub open spec fn side_totals(totals: BookTotals, side: Side) -> Map<u64, nat> {
    match side {
        Side::Buy => totals.bids,
        Side::Sell => totals.asks,
    }
}

/// The total at `price` in a map of totals, 0 where there is none.
pub open spec fn total_in(totals: Map<u64, nat>, price: u64) -> nat {
    if totals.contains_key(price) {
        totals[price]
    } else {
        0
    }
}

/// The total at a price of a book is the one its map of level totals gives.
pub proof fn lemma_total_at_book_totals(book: BookView, side: Side, price: u64)
    ensures
        total_at(book, side, price) == total_in(side_totals(book_totals(book), side), price),
{
    assert(level_qty(Seq::<Order>::empty()) == 0);
}

/// A replica whose totals at every price agree with a map of totals still
/// agrees with it after both take the same level changes.
pub proof fn lemma_updates_track_totals(replica: BookView, totals: BookTotals, deltas: Seq<OrderBookDelta>)
    requires
        forall|s: Side, p: u64|
            #[trigger] total_at(replica, s, p) == total_in(side_totals(totals, s), p),
    ensures
        forall|s: Side, p: u64|
            #[trigger] total_at(apply_updates(replica, deltas), s, p) == total_in(
                side_totals(apply_deltas(totals, deltas), s),
                p,
            ),
    decreases deltas.len(),
{
    if deltas.len() > 0 {
        let d = deltas[0];
        let r1 = updated_book(replica, d.side, d.price, d.qty);
        let t1 = apply_delta(totals, d);
        let o = Order { id: 0, side: d.side, price: d.price, qty: d.qty };
        assert(seq![o].drop_last() =~= Seq::<Order>::empty());
        assert(level_qty(Seq::<Order>::empty()) == 0);
        assert(level_qty(seq![o]) == d.qty);
        assert forall|s: Side, p: u64| #[trigger] total_at(r1, s, p) == total_in(side_totals(t1, s), p) by {
            assert(total_at(replica, s, p) == total_in(side_totals(totals, s), p));
        }
        lemma_updates_track_totals(r1, t1, deltas.drop_first());
        assert(apply_updates(replica, deltas) == apply_updates(r1, deltas.drop_first()));
        assert(apply_deltas(totals, deltas) == apply_deltas(t1, deltas.drop_first()));
    } else {
        assert(apply_updates(replica, deltas) == replica);
        assert(apply_deltas(totals, deltas) == totals);
    }
}

/// A replica whose total at every price of both sides agrees with the
/// primary's (0 where a side has no level) still agrees at every price after
/// the primary processes an order and the replica applies the reported level
/// changes in order with `update_level`.
pub proof fn law_replica_stays_in_step(primary: BookView, replica: BookView, incoming: Order)
    requires
        primary.well_formed(),
        crate::engine::can_process(primary, incoming),
        forall|s: Side, p: u64| #[trigger] total_at(replica, s, p) == total_at(primary, s, p),
    ensures
        ({
            let out = process_outcome(primary, incoming);
            forall|s: Side, p: u64|
                #[trigger] total_at(apply_updates(replica, out.deltas), s, p) == total_at(out.book, s, p)
        }),
{
    let out = process_outcome(primary, incoming);
    assert forall|s: Side, p: u64| #[trigger] total_at(replica, s, p) == total_in(
        side_totals(book_totals(primary), s),
        p,
    ) by {
        lemma_total_at_book_totals(primary, s, p);
    }
    lemma_updates_track_totals(replica, book_totals(primary), out.deltas);
    law_deltas_replay_to_new_totals(primary, incoming);
    assert forall|s: Side, p: u64| #[trigger] total_at(apply_updates(replica, out.deltas), s, p)
        == total_at(out.book, s, p) by {
        lemma_total_at_book_totals(out.book, s, p);
    }
}


/// Two listings of the same levels in the same direction have the same price
/// at each of their first `i` places.
proof fn lemma_listings_agree_up_to(
    levels: Map<u64, Seq<Order>>,
    a: Seq<OrderLevel>,
    b: Seq<OrderLevel>,
    ascending: bool,
    i: int,
)
    requires
        lists_levels(levels, a, ascending),
        lists_levels(levels, b, ascending),
        0 <= i <= a.len(),
    ensures
        forall|j: int| 0 <= j < i ==> (#[trigger] a[j]).price == b[j].price,
    decreases i,
{
    if i > 0 {
        lemma_listings_agree_up_to(levels, a, b, ascending, i - 1);
        let k = i - 1;
        let x = a[k].price;
        let y = b[k].price;
        assert(levels.contains_key(x));
        assert(levels.contains_key(y));
        let j = choose|j: int| 0 <= j < b.len() && b[j].price == x;
        let m = choose|m: int| 0 <= m < a.len() && a[m].price == y;
        if x != y {
            if j < k {
                assert(a[j].price == b[j].price);
                assert(a[j].price != a[k].price);
            } else if m < k {
                assert(a[m].price == b[m].price);
                assert(b[m].price != b[k].price);
            } else {
                assert(j > k && m > k);
                if ascending {
                    assert(b[k].price < b[j].price);
                    assert(a[k].price < a[m].price);
                } else {
                    assert(b[k].price > b[j].price);
                    assert(a[k].price > a[m].price);
                }
            }
        }
    }
}

/// The levels of a side have one listing in each direction: two lists that
/// both list them (`lists_levels`) in the same direction are equal. So
/// `orderbook_response`, `snapshot_message` and `orderbook_state` answer with
/// the same lists for the same book.
pub proof fn law_level_listing_is_unique(
    levels: Map<u64, Seq<Order>>,
    a: Seq<OrderLevel>,
    b: Seq<OrderLevel>,
    ascending: bool,
)
    requires
        lists_levels(levels, a, ascending),
        lists_levels(levels, b, ascending),
    ensures
        a == b,
{
    lemma_listings_agree_up_to(levels, a, b, ascending, a.len() as int);
    assert forall|j: int| 0 <= j < a.len() implies a[j] == b[j] by {
        assert(a[j].price == b[j].price);
    }
    assert(a =~= b);
}


/// The levels of one side hold orders as `add_order` leaves them: every level
/// is non-empty, at a positive price, and holds only orders of `side` at that
/// price with positive quantity (whatever their totals).
pub open spec fn levels_shaped(levels: Map<u64, Seq<Order>>, side: Side) -> bool {
    forall|p: u64|
        #[trigger] levels.contains_key(p) ==> {
            &&& p > 0
            &&& levels[p].len() > 0
            &&& queue_well_formed(levels[p], p, side)
        }
}

/// Matching against a side whose levels are shaped right leaves them so.
pub proof fn lemma_match_levels_shaped(
    levels: Map<u64, Seq<Order>>,
    maker_side: Side,
    taker_id: u64,
    limit: u64,
    qty: nat,
)
    requires
        levels.dom().finite(),
        levels_shaped(levels, maker_side),
    ensures
        levels_shaped(match_levels(levels, maker_side, taker_id, limit, qty).levels, maker_side),
    decreases levels.dom().len(),
{
    let p = best_price(levels, maker_side);
    if !(qty == 0 || !levels.contains_key(p) || !crosses(maker_side, limit, p)) {
        let lvl = fill_level(levels[p], taker_id, qty, p);
        lemma_fill_level_well_formed(levels[p], taker_id, qty, p, maker_side);
        if lvl.queue.len() == 0 {
            lemma_match_levels_shaped(levels.remove(p), maker_side, taker_id, limit, lvl.remaining);
        } else {
            let after = levels.insert(p, lvl.queue);
            assert forall|q: u64| #[trigger] after.contains_key(q) implies {
                &&& q > 0
                &&& after[q].len() > 0
                &&& queue_well_formed(after[q], q, maker_side)
            } by {
                if q != p {
                    assert(levels.contains_key(q));
                }
            }
        }
    }
}

/// Processing an order with a positive price on a book whose levels are
/// shaped right (`levels_shaped`) and in which every bid is below every ask
/// leaves a book of the same kind: every bid below every ask, every level
/// non-empty, at a positive price, with orders of its side and price and of
/// positive quantity. Where the book is well formed and `process_order` may
/// be called (`can_process`), every level total of the result also fits a
/// `u64`.
pub proof fn law_processing_keeps_the_book_valid(book: BookView, incoming: Order)
    requires
        finite_book(book),
        levels_shaped(book.bids, Side::Buy),
        levels_shaped(book.asks, Side::Sell),
        uncrossed(book),
        incoming.price > 0,
    ensures
        ({
            let out = process_outcome(book, incoming).book;
            &&& levels_shaped(out.bids, Side::Buy)
            &&& levels_shaped(out.asks, Side::Sell)
            &&& uncrossed(out)
            &&& book.well_formed() && crate::engine::can_process(book, incoming) ==> out.well_formed()
        }),
{
    let maker_side = opposite(incoming.side);
    let m = match_incoming(book, incoming);
    let out = process_outcome(book, incoming);
    law_book_stays_uncrossed(book, incoming);
    lemma_match_levels_shaped(
        book.side_levels(maker_side),
        maker_side,
        incoming.id,
        incoming.price,
        incoming.qty as nat,
    );
    lemma_match_levels(
        book.side_levels(maker_side),
        maker_side,
        incoming.id,
        incoming.price,
        incoming.qty as nat,
    );
    if book.well_formed() && crate::engine::can_process(book, incoming) {
        law_well_formed_book_stays_well_formed(book, incoming);
    }
    assert(out.book.side_levels(maker_side) == m.levels);
    if m.remaining > 0 {
        let own = book.side_levels(incoming.side);
        let r = resting_part(incoming, m.remaining);
        let lv = level_at(own, incoming.price);
        let after = own.insert(incoming.price, lv.push(r));
        assert(out.book.side_levels(incoming.side) == after);
        assert forall|q: u64| #[trigger] after.contains_key(q) implies {
            &&& q > 0
            &&& after[q].len() > 0
            &&& queue_well_formed(after[q], q, incoming.side)
        } by {
            if q != incoming.price {
                assert(own.contains_key(q));
            } else {
                assert forall|i: int| 0 <= i < after[q].len() implies {
                    &&& (#[trigger] after[q][i]).price == q
                    &&& after[q][i].side == incoming.side
                    &&& after[q][i].qty > 0
                } by {
                    if i < lv.len() {
                        assert(own.contains_key(q));
                        assert(after[q][i] == own[q][i]);
                    }
                }
            }
        }
    } else {
        assert(out.book.side_levels(incoming.side) == book.side_levels(incoming.side));
    }
}


/// `after` is the queue `before` with its first `k` orders taken off the
/// front: the orders of `before` from place `k` on, in their order, except
/// that the first of them may be left with a smaller quantity (same id, side
/// and price).
pub open spec fn trimmed_at(before: Seq<Order>, after: Seq<Order>, k: int) -> bool {
    &&& 0 <= k <= before.len()
    &&& after.len() + k == before.len()
    &&& forall|j: int| 1 <= j < after.len() ==> #[trigger] after[j] == before[k + j]
    &&& after.len() > 0 ==> {
        &&& after[0].id == before[k].id
        &&& after[0].side == before[k].side
        &&& after[0].price == before[k].price
        &&& after[0].qty <= before[k].qty
    }
}

/// `after` is what is left of the queue `before` when orders are only taken
/// off its front and its new front order may be partly used up.
pub open spec fn trimmed_from_front(before: Seq<Order>, after: Seq<Order>) -> bool {
    exists|k: int| trimmed_at(before, after, k)
}

/// Trading against one queue only takes orders off its front, and a maker
/// left partly filled stays at the front.
pub proof fn lemma_fill_level_trims(queue: Seq<Order>, taker_id: u64, qty: nat, price: u64) -> (k: int)
    ensures
        trimmed_at(queue, fill_level(queue, taker_id, qty, price).queue, k),
    decreases queue.len(),
{
    let o = fill_level(queue, taker_id, qty, price);
    if queue.len() == 0 {
        0
    } else {
        let maker = queue[0];
        let traded: nat = if qty <= maker.qty {
            qty
        } else {
            maker.qty as nat
        };
        let left = (maker.qty - traded) as u64;
        let remaining = (qty - traded) as nat;
        if left > 0 {
            assert forall|j: int| 1 <= j < o.queue.len() implies #[trigger] o.queue[j] == queue[0 + j] by {
                assert(o.queue[j] == queue.drop_first()[j - 1]);
            }
            0
        } else if remaining == 0 {
            assert forall|j: int| 1 <= j < o.queue.len() implies #[trigger] o.queue[j] == queue[1 + j] by {
                assert(o.queue[j] == queue.drop_first()[j]);
            }
            1
        } else {
            let rest = queue.drop_first();
            let k1 = lemma_fill_level_trims(rest, taker_id, remaining, price);
            assert(o.queue == fill_level(rest, taker_id, remaining, price).queue);
            assert forall|j: int| 1 <= j < o.queue.len() implies #[trigger] o.queue[j] == queue[(k1 + 1)
                + j] by {
                assert(o.queue[j] == rest[k1 + j]);
            }
            if o.queue.len() > 0 {
                assert(rest[k1] == queue[k1 + 1]);
            }
            k1 + 1
        }
    }
}

/// Matching against one side only takes orders off the front of its levels:
/// every level left is a level that was there, trimmed from the front.
pub proof fn lemma_match_levels_trims(
    levels: Map<u64, Seq<Order>>,
    maker_side: Side,
    taker_id: u64,
    limit: u64,
    qty: nat,
)
    requires
        levels.dom().finite(),
    ensures
        ({
            let m = match_levels(levels, maker_side, taker_id, limit, qty);
            forall|p: u64|
                #[trigger] m.levels.contains_key(p) ==> levels.contains_key(p)
                    && trimmed_from_front(levels[p], m.levels[p])
        }),
    decreases levels.dom().len(),
{
    let p = best_price(levels, maker_side);
    let m = match_levels(levels, maker_side, taker_id, limit, qty);
    if qty == 0 || !levels.contains_key(p) || !crosses(maker_side, limit, p) {
        assert forall|q: u64| #[trigger] m.levels.contains_key(q) implies levels.contains_key(q)
            && trimmed_from_front(levels[q], m.levels[q]) by {
            assert(trimmed_at(levels[q], levels[q], 0));
        }
    } else {
        let lvl = fill_level(levels[p], taker_id, qty, p);
        let k = lemma_fill_level_trims(levels[p], taker_id, qty, p);
        if lvl.queue.len() == 0 {
            let others = levels.remove(p);
            lemma_match_levels_trims(others, maker_side, taker_id, limit, lvl.remaining);
            let rest = match_levels(others, maker_side, taker_id, limit, lvl.remaining);
            assert(m.levels == rest.levels);
            assert forall|q: u64| #[trigger] m.levels.contains_key(q) implies levels.contains_key(q)
                && trimmed_from_front(levels[q], m.levels[q]) by {
                assert(rest.levels.contains_key(q));
                assert(others.contains_key(q));
                assert(others[q] == levels[q]);
            }
        } else {
            assert forall|q: u64| #[trigger] m.levels.contains_key(q) implies levels.contains_key(q)
                && trimmed_from_front(levels[q], m.levels[q]) by {
                if q == p {
                    assert(trimmed_at(levels[q], m.levels[q], k));
                } else {
                    assert(trimmed_at(levels[q], m.levels[q], 0));
                }
            }
        }
    }
}

/// Time priority is kept within each level: processing an order only takes
/// orders off the front of the levels on the other side, in their order, and
/// a maker left partly filled keeps its place at the front with the reduced
/// quantity (same id, side and price); the orders behind it are untouched.
pub proof fn law_matching_keeps_queue_order(book: BookView, incoming: Order)
    requires
        finite_book(book),
    ensures
        ({
            let before = book.side_levels(opposite(incoming.side));
            let after = process_outcome(book, incoming).book.side_levels(opposite(incoming.side));
            forall|p: u64|
                #[trigger] after.contains_key(p) ==> before.contains_key(p)
                    && trimmed_from_front(before[p], after[p])
        }),
{
    let maker_side = opposite(incoming.side);
    let m = match_incoming(book, incoming);
    lemma_match_levels_trims(
        book.side_levels(maker_side),
        maker_side,
        incoming.id,
        incoming.price,
        incoming.qty as nat,
    );
    assert(process_outcome(book, incoming).book.side_levels(maker_side) == m.levels);
}

/// An order that crosses the best level of the other side and is smaller
/// than the front order there trades once, against that front order, for its
/// whole quantity at that level's price; the front order stays first in its
/// queue with its quantity reduced by the trade, the orders behind it stay as
/// they were, and nothing rests.
pub proof fn law_partly_filled_maker_keeps_its_place(book: BookView, incoming: Order, p: u64)
    requires
        finite_book(book),
        book.side_levels(opposite(incoming.side)).contains_key(p),
        forall|q: u64| #[trigger] book.side_levels(opposite(incoming.side)).contains_key(q)
            ==> at_least_as_good(opposite(incoming.side), p, q),
        within_limit(incoming, p),
        book.side_levels(opposite(incoming.side))[p].len() > 0,
        0 < incoming.qty < book.side_levels(opposite(incoming.side))[p][0].qty,
    ensures
        ({
            let queue = book.side_levels(opposite(incoming.side))[p];
            let front = queue[0];
            let out = process_outcome(book, incoming);
            &&& out.fills == seq![
                Fill { maker_order_id: front.id, taker_order_id: incoming.id, price: p, qty: incoming.qty },
            ]
            &&& out.book.side_levels(opposite(incoming.side))[p] == seq![
                Order { id: front.id, side: front.side, price: front.price, qty: (front.qty - incoming.qty) as u64 },
            ] + queue.drop_first()
            &&& out.book.side_levels(incoming.side) == book.side_levels(incoming.side)
        }),
{
    let maker_side = opposite(incoming.side);
    let levels = book.side_levels(maker_side);
    match maker_side {
        Side::Sell => {
            assert(is_lowest(levels.dom(), p));
            let c = lowest(levels.dom());
            assert(is_lowest(levels.dom(), c));
            assert(levels.contains_key(c));
        },
        Side::Buy => {
            assert(is_highest(levels.dom(), p));
            let c = highest(levels.dom());
            assert(is_highest(levels.dom(), c));
            assert(levels.contains_key(c));
        },
    }
    assert(best_price(levels, maker_side) == p);
    let m = match_incoming(book, incoming);
    assert(m.remaining == 0);
}


/// The side a request names depends only on the lower-case form of its
/// text: "buy" in lower case names a buy, "sell" a sell, anything else no
/// side; two texts with the same lower-case form name the same side.
pub proof fn law_side_follows_lower_case(a: Seq<char>, b: Seq<char>)
    ensures
        (side_named(a) == Some(Side::Buy)) == (lowercase_of(a) == "buy"@),
        (side_named(a) == Some(Side::Sell)) == (lowercase_of(a) == "sell"@),
        (side_named(a) is None) == (lowercase_of(a) != "buy"@ && lowercase_of(a) != "sell"@),
        lowercase_of(a) == lowercase_of(b) ==> side_named(a) == side_named(b),
{
    reveal_strlit("buy");
    reveal_strlit("sell");
    assert("buy"@ != "sell"@) by {
        assert("buy"@[0] != "sell"@[0]);
    }
}

/// A server is the primary when the primary flag variable is unset, and
/// otherwise exactly when the lower-case form of its value is "true"; two
/// values with the same lower-case form give the same answer.
pub proof fn law_primary_flag_follows_lower_case(v: String, w: String)
    ensures
        primary_flag(None),
        primary_flag(Some(v)) == (lowercase_of(v@) == "true"@),
        lowercase_of(v@) == lowercase_of(w@) ==> primary_flag(Some(v)) == primary_flag(Some(w)),
{
}

/// A symbol is valid exactly when it equals some element of the configured
/// list, wherever it stands in the list; in particular every listed symbol
/// is valid.
pub proof fn law_every_listed_symbol_is_valid(symbols: Seq<String>, s: Seq<char>)
    ensures
        lists_symbol(symbols, s) == exists|i: int| 0 <= i < symbols.len() && (#[trigger] symbols[i])@ == s,
        forall|i: int| 0 <= i < symbols.len() ==> lists_symbol(symbols, (#[trigger] symbols[i])@),
{
    assert forall|i: int| 0 <= i < symbols.len() implies lists_symbol(symbols, (#[trigger] symbols[i])@) by {
        assert(symbols[i]@ == symbols[i]@);
    }
}


/// Applying two lists of messages one after the other is applying them all.
pub proof fn lemma_replica_after_all_concat(
    engine: Map<Seq<char>, BookView>,
    a: Seq<SyncMessage>,
    b: Seq<SyncMessage>,
)
    ensures
        replica_after_all(engine, a + b) == replica_after_all(replica_after_all(engine, a), b),
    decreases a.len(),
{
    if a.len() == 0 {
        assert(a + b =~= b);
    } else {
        assert((a + b).drop_first() =~= a.drop_first() + b);
        lemma_replica_after_all_concat(replica_after(engine, a[0]), a.drop_first(), b);
    }
}

/// Fill messages leave a replica's books as they are.
pub proof fn lemma_fill_messages_change_nothing(engine: Map<Seq<char>, BookView>, msgs: Seq<SyncMessage>)
    requires
        forall|i: int| 0 <= i < msgs.len() ==> (#[trigger] msgs[i]) is Fill,
    ensures
        replica_after_all(engine, msgs) == engine,
    decreases msgs.len(),
{
    if msgs.len() > 0 {
        assert(msgs[0] is Fill);
        let rest = msgs.drop_first();
        assert forall|i: int| 0 <= i < rest.len() implies (#[trigger] rest[i]) is Fill by {
            assert(rest[i] == msgs[i + 1]);
        }
        lemma_fill_messages_change_nothing(engine, rest);
    }
}

/// The level update messages of a list of level changes, applied by a
/// replica that keeps the symbol, replay the changes on that symbol's book.
pub proof fn lemma_update_messages_replay(
    engine: Map<Seq<char>, BookView>,
    symbol: String,
    deltas: Seq<OrderBookDelta>,
    msgs: Seq<SyncMessage>,
)
    requires
        engine.contains_key(symbol@),
        msgs.len() == deltas.len(),
        forall|j: int| 0 <= j < deltas.len() ==> msgs[j] == update_message(symbol, #[trigger] deltas[j]),
    ensures
        replica_after_all(engine, msgs) == engine.insert(symbol@, apply_updates(engine[symbol@], deltas)),
    decreases deltas.len(),
{
    if deltas.len() == 0 {
        assert(engine.insert(symbol@, engine[symbol@]) =~= engine);
    } else {
        let d = deltas[0];
        assert(msgs[0] == update_message(symbol, deltas[0]));
        let e1 = replica_after(engine, msgs[0]);
        let book1 = updated_book(engine[symbol@], d.side, d.price, d.qty);
        assert(e1 == engine.insert(symbol@, book1));
        let rest_d = deltas.drop_first();
        let rest_m = msgs.drop_first();
        assert forall|j: int| 0 <= j < rest_d.len() implies rest_m[j] == update_message(
            symbol,
            #[trigger] rest_d[j],
        ) by {
            assert(rest_m[j] == msgs[j + 1]);
            assert(rest_d[j] == deltas[j + 1]);
        }
        lemma_update_messages_replay(e1, symbol, rest_d, rest_m);
        assert(e1[symbol@] == book1);
        assert(e1.insert(symbol@, apply_updates(book1, rest_d)) =~= engine.insert(
            symbol@,
            apply_updates(engine[symbol@], deltas),
        ));
    }
}

/// What a primary streams for a processed order keeps a replica's book of
/// that symbol in step: a replica that keeps the symbol and applies the
/// messages `sync_messages` lists (each fill, then each level change as a bid
/// update for a change on the buy side and an ask update for one on the sell
/// side) ends with the level changes replayed on that book, in order, and
/// its other books unchanged.
pub proof fn law_streamed_messages_replay_the_deltas(
    engine: Map<Seq<char>, BookView>,
    symbol: String,
    fills: Seq<Fill>,
    deltas: Seq<OrderBookDelta>,
    msgs: Seq<SyncMessage>,
)
    requires
        engine.contains_key(symbol@),
        msgs.len() == fills.len() + deltas.len(),
        forall|i: int| 0 <= i < fills.len() ==> msgs[i] == (SyncMessage::Fill { symbol, data: #[trigger] fills[i] }),
        forall|j: int|
            0 <= j < deltas.len() ==> msgs[fills.len() + j] == update_message(symbol, #[trigger] deltas[j]),
    ensures
        replica_after_all(engine, msgs) == engine.insert(symbol@, apply_updates(engine[symbol@], deltas)),
{
    let n = fills.len() as int;
    let a = msgs.take(n);
    let b = msgs.skip(n);
    assert(a + b =~= msgs);
    lemma_replica_after_all_concat(engine, a, b);
    assert forall|i: int| 0 <= i < a.len() implies (#[trigger] a[i]) is Fill by {
        assert(a[i] == msgs[i]);
        assert(msgs[i] == (SyncMessage::Fill { symbol, data: fills[i] }));
    }
    lemma_fill_messages_change_nothing(engine, a);
    assert forall|j: int| 0 <= j < deltas.len() implies b[j] == update_message(symbol, #[trigger] deltas[j]) by {
        assert(b[j] == msgs[n + j]);
    }
    lemma_update_messages_replay(engine, symbol, deltas, b);
}


/// Total quantity of the fills of a list that are at `price`.
pub open spec fn fills_qty_at(fills: Seq<Fill>, price: u64) -> nat
    decreases fills.len(),
{
    if fills.len() == 0 {
        0
    } else {
        (if fills[0].price == price {
            fills[0].qty as nat
        } else {
            0nat
        }) + fills_qty_at(fills.drop_first(), price)
    }
}

/// The quantity at a price of two lists of fills one after the other is the
/// sum of theirs.
pub proof fn lemma_fills_qty_at_concat(a: Seq<Fill>, b: Seq<Fill>, price: u64)
    ensures
        fills_qty_at(a + b, price) == fills_qty_at(a, price) + fills_qty_at(b, price),
    decreases a.len(),
{
    if a.len() == 0 {
        assert(a + b =~= b);
    } else {
        assert((a + b).drop_first() =~= a.drop_first() + b);
        lemma_fills_qty_at_concat(a.drop_first(), b, price);
    }
}

/// In a list of fills all at `price`, all the quantity is at `price` and none
/// at another price.
pub proof fn lemma_fills_qty_at_uniform(fills: Seq<Fill>, price: u64, other: u64)
    requires
        forall|i: int| 0 <= i < fills.len() ==> (#[trigger] fills[i]).price == price,
    ensures
        fills_qty_at(fills, other) == if other == price {
            fills_qty(fills)
        } else {
            0
        },
    decreases fills.len(),
{
    if fills.len() > 0 {
        let rest = fills.drop_first();
        assert forall|i: int| 0 <= i < rest.len() implies (#[trigger] rest[i]).price == price by {
            assert(rest[i] == fills[i + 1]);
        }
        lemma_fills_qty_at_uniform(rest, price, other);
    }
}

/// Matching against one side takes from each level exactly what was filled
/// at its price.
pub proof fn lemma_match_levels_conserves(
    levels: Map<u64, Seq<Order>>,
    maker_side: Side,
    taker_id: u64,
    limit: u64,
    qty: nat,
)
    requires
        levels.dom().finite(),
    ensures
        ({
            let m = match_levels(levels, maker_side, taker_id, limit, qty);
            forall|p: u64|
                #[trigger] level_qty(level_at(levels, p)) == level_qty(level_at(m.levels, p))
                    + fills_qty_at(m.fills, p)
        }),
    decreases levels.dom().len(),
{
    let p0 = best_price(levels, maker_side);
    let m = match_levels(levels, maker_side, taker_id, limit, qty);
    assert(level_qty(Seq::<Order>::empty()) == 0);
    if !(qty == 0 || !levels.contains_key(p0) || !crosses(maker_side, limit, p0)) {
        let lvl = fill_level(levels[p0], taker_id, qty, p0);
        lemma_fill_level(levels[p0], taker_id, qty, p0);
        lemma_fill_level_fills(levels[p0], taker_id, qty, p0);
        if lvl.queue.len() == 0 {
            let others = levels.remove(p0);
            let rest = match_levels(others, maker_side, taker_id, limit, lvl.remaining);
            lemma_match_levels_conserves(others, maker_side, taker_id, limit, lvl.remaining);
            assert forall|p: u64| #[trigger] level_qty(level_at(levels, p)) == level_qty(
                level_at(m.levels, p),
            ) + fills_qty_at(m.fills, p) by {
                lemma_fills_qty_at_concat(lvl.fills, rest.fills, p);
                lemma_fills_qty_at_uniform(lvl.fills, p0, p);
                assert(level_qty(level_at(others, p)) == level_qty(level_at(rest.levels, p))
                    + fills_qty_at(rest.fills, p));
                if p != p0 {
                    assert(level_at(others, p) == level_at(levels, p));
                }
            }
        } else {
            assert forall|p: u64| #[trigger] level_qty(level_at(levels, p)) == level_qty(
                level_at(m.levels, p),
            ) + fills_qty_at(m.fills, p) by {
                lemma_fills_qty_at_uniform(lvl.fills, p0, p);
            }
        }
    } else {
        assert forall|p: u64| #[trigger] level_qty(level_at(levels, p)) == level_qty(
            level_at(m.levels, p),
        ) + fills_qty_at(m.fills, p) by {
            assert(m.fills.len() == 0);
        }
    }
}

/// Nothing is lost or made up on the other side: for every price, the total
/// resting there before an order is processed equals the total resting there
/// afterwards plus the quantity filled at that price.
pub proof fn law_traded_quantity_leaves_the_levels(book: BookView, incoming: Order)
    requires
        finite_book(book),
    ensures
        ({
            let before = book.side_levels(opposite(incoming.side));
            let out = process_outcome(book, incoming);
            let after = out.book.side_levels(opposite(incoming.side));
            forall|p: u64|
                #[trigger] level_qty(level_at(before, p)) == level_qty(level_at(after, p))
                    + fills_qty_at(out.fills, p)
        }),
{
    let maker_side = opposite(incoming.side);
    let m = match_incoming(book, incoming);
    lemma_match_levels_conserves(
        book.side_levels(maker_side),
        maker_side,
        incoming.id,
        incoming.price,
        incoming.qty as nat,
    );
    assert(process_outcome(book, incoming).book.side_levels(maker_side) == m.levels);
}

} // verus!
