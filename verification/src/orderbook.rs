use std::collections::{BTreeMap, VecDeque};
use vstd::prelude::*;

use crate::models::{Order, Side};

verus! {

/// The abstract state of an order book: for each side, the queue of
/// resting orders at each price, earliest first.
pub struct BookView {
    pub bids: Map<u64, Seq<Order>>,
    pub asks: Map<u64, Seq<Order>>,
}

/// The queues of a price-indexed map of order queues, as sequences.
pub open spec fn levels_view(m: Map<u64, VecDeque<Order>>) -> Map<u64, Seq<Order>> {
    m.map_values(|q: VecDeque<Order>| q@)
}

/// The queue at `price`, or the empty queue where there is none.
pub open spec fn level_at(m: Map<u64, Seq<Order>>, price: u64) -> Seq<Order> {
    if m.contains_key(price) {
        m[price]
    } else {
        Seq::empty()
    }
}

/// Total quantity of the orders in a queue.
pub open spec fn level_qty(level: Seq<Order>) -> nat
    decreases level.len(),
{
    if level.len() == 0 {
        0
    } else {
        level_qty(level.drop_last()) + level.last().qty as nat
    }
}

/// The quantity of two queues one after the other is the sum of their quantities.
pub proof fn lemma_level_qty_concat(a: Seq<Order>, b: Seq<Order>)
    ensures
        level_qty(a + b) == level_qty(a) + level_qty(b),
    decreases b.len(),
{
    if b.len() == 0 {
        assert(a + b =~= a);
    } else {
        assert((a + b).drop_last() =~= a + b.drop_last());
        lemma_level_qty_concat(a, b.drop_last());
    }
}

/// The quantity of a queue is that of its first order plus that of the rest.
pub proof fn lemma_level_qty_first(s: Seq<Order>)
    requires
        s.len() > 0,
    ensures
        level_qty(s) == s[0].qty + level_qty(s.drop_first()),
{
    let head = seq![s[0]];
    assert(head.drop_last() =~= Seq::<Order>::empty());
    assert(level_qty(Seq::<Order>::empty()) == 0);
    assert(level_qty(head) == s[0].qty);
    assert(head + s.drop_first() =~= s);
    lemma_level_qty_concat(head, s.drop_first());
}

/// A prefix of a queue holds no more quantity than the whole queue.
pub proof fn lemma_level_qty_prefix(s: Seq<Order>, n: int)
    requires
        0 <= n <= s.len(),
    ensures
        level_qty(s.take(n)) <= level_qty(s),
{
    assert(s.take(n) + s.skip(n) =~= s);
    lemma_level_qty_concat(s.take(n), s.skip(n));
}

/// `levels` with `order` queued behind the orders already at its price.
pub open spec fn append_order(levels: Map<u64, Seq<Order>>, order: Order) -> Map<u64, Seq<Order>> {
    levels.insert(order.price, level_at(levels, order.price).push(order))
}

/// `book` with `order` resting on its own side, behind earlier orders at its price.
pub open spec fn rest_order(book: BookView, order: Order) -> BookView {
    match order.side {
        Side::Buy => BookView { bids: append_order(book.bids, order), asks: book.asks },
        Side::Sell => BookView { bids: book.bids, asks: append_order(book.asks, order) },
    }
}

/// The levels of one side of a book are well formed: every level is non-empty,
/// at a positive price, its total quantity fits a `u64`, and it holds only
/// orders of `side` at that price with positive quantity.
pub open spec fn levels_well_formed(levels: Map<u64, Seq<Order>>, side: Side) -> bool {
    forall|p: u64|
        #[trigger] levels.contains_key(p) ==> {
            &&& p > 0
            &&& levels[p].len() > 0
            &&& level_qty(levels[p]) <= u64::MAX
            &&& forall|i: int|
                0 <= i < levels[p].len() ==> {
                    &&& (#[trigger] levels[p][i]).price == p
                    &&& levels[p][i].side == side
                    &&& levels[p][i].qty > 0
                }
        }
}

impl BookView {
    /// Both sides are well formed (see `levels_well_formed`).
    pub open spec fn well_formed(self) -> bool {
        &&& levels_well_formed(self.bids, Side::Buy)
        &&& levels_well_formed(self.asks, Side::Sell)
    }

    /// The levels of the given side.
    pub open spec fn side_levels(self, side: Side) -> Map<u64, Seq<Order>> {
        match side {
            Side::Buy => self.bids,
            Side::Sell => self.asks,
        }
    }
}

/// `p` is the smallest element of `s`.
pub open spec fn is_lowest(s: Set<u64>, p: u64) -> bool {
    s.contains(p) && forall|q: u64| #[trigger] s.contains(q) ==> p <= q
}

/// `p` is the largest element of `s`.
pub open spec fn is_highest(s: Set<u64>, p: u64) -> bool {
    s.contains(p) && forall|q: u64| #[trigger] s.contains(q) ==> q <= p
}

/// Total quantity of a queue, summed front to back.
pub fn queue_qty(queue: &VecDeque<Order>) -> (total: u64)
    requires
        level_qty(queue@) <= u64::MAX,
    ensures
        total == level_qty(queue@),
{
    let mut total: u64 = 0;
    let mut i: usize = 0;
    while i < queue.len()
        invariant
            i <= queue@.len(),
            total == level_qty(queue@.take(i as int)),
            level_qty(queue@) <= u64::MAX,
        decreases queue@.len() - i,
    {
        proof {
            assert(queue@.take(i + 1).drop_last() =~= queue@.take(i as int));
            lemma_level_qty_prefix(queue@, i + 1);
        }
        total = total + queue[i].qty;
        i = i + 1;
    }
    assert(queue@.take(i as int) =~= queue@);
    total
}

/// Total quantity of a queue, summed front to back, or `None` where the sum
/// does not fit a `u64`.
pub fn queue_qty_checked(queue: &VecDeque<Order>) -> (total: Option<u64>)
    ensures
        match total {
            Some(t) => t == level_qty(queue@),
            None => level_qty(queue@) > u64::MAX,
        },
{
    let mut total: u64 = 0;
    let mut i: usize = 0;
    while i < queue.len()
        invariant
            i <= queue@.len(),
            total == level_qty(queue@.take(i as int)),
        decreases queue@.len() - i,
    {
        proof {
            assert(queue@.take(i + 1).drop_last() =~= queue@.take(i as int));
            lemma_level_qty_prefix(queue@, i + 1);
        }
        match total.checked_add(queue[i].qty) {
            Some(t) => {
                total = t;
            },
            None => {
                return None;
            },
        }
        i = i + 1;
    }
    assert(queue@.take(i as int) =~= queue@);
    Some(total)
}

/// The smallest price of a set of prices (meaningful when it has one).
pub open spec fn lowest(s: Set<u64>) -> u64 {
    choose|p: u64| is_lowest(s, p)
}

/// The largest price of a set of prices (meaningful when it has one).
pub open spec fn highest(s: Set<u64>) -> u64 {
    choose|p: u64| is_highest(s, p)
}

/// Viewing the queues of a level map as sequences keeps its prices.
pub proof fn lemma_levels_view_dom(m: Map<u64, VecDeque<Order>>)
    ensures
        levels_view(m).dom() == m.dom(),
{
    assert(levels_view(m).dom() =~= m.dom());
}

/// The smallest key of the map, from `BTreeMap::first_key_value`. The std
/// documentation says that the key of the pair it returns is the minimum key
/// of the map, and that it returns `None` when the map is empty.
#[verifier::external_body]
pub(crate) fn first_key<V>(m: &BTreeMap<u64, V>) -> (r: Option<u64>)
    ensures
        match r {
            Some(k) => is_lowest(m@.dom(), k),
            None => m@.dom() == Set::<u64>::empty(),
        },
{
    m.first_key_value().map(|(k, _)| *k)
}

/// The largest key of the map, from `BTreeMap::last_key_value`. The std
/// documentation says that the key of the pair it returns is the maximum key
/// of the map, and that it returns `None` when the map is empty.
#[verifier::external_body]
pub(crate) fn last_key<V>(m: &BTreeMap<u64, V>) -> (r: Option<u64>)
    ensures
        match r {
            Some(k) => is_highest(m@.dom(), k),
            None => m@.dom() == Set::<u64>::empty(),
        },
{
    m.last_key_value().map(|(k, _)| *k)
}

/// A limit order book: bids and asks, each a map from price to a FIFO queue.
#[derive(Debug)]
pub struct OrderBook {
    pub bids: BTreeMap<u64, VecDeque<Order>>,
    pub asks: BTreeMap<u64, VecDeque<Order>>,
}

impl View for OrderBook {
    type V = BookView;

    open spec fn view(&self) -> BookView {
        BookView { bids: levels_view(self.bids@), asks: levels_view(self.asks@) }
    }
}

/// Queues `order` at the back of the queue at its price, creating the level if needed.
pub fn push_to_level(levels: &mut BTreeMap<u64, VecDeque<Order>>, order: Order)
    ensures
        levels_view(final(levels)@) == append_order(levels_view(old(levels)@), order),
{
    let price = order.price;
    let mut queue = match levels.remove(&price) {
        Some(q) => q,
        None => VecDeque::new(),
    };
    queue.push_back(order);
    levels.insert(price, queue);
    assert(levels_view(levels@) =~= append_order(levels_view(old(levels)@), order));
}

impl OrderBook {
    /// An empty book.
    pub fn new() -> (book: Self)
        ensures
            book@.bids == Map::<u64, Seq<Order>>::empty(),
            book@.asks == Map::<u64, Seq<Order>>::empty(),
    {
        let book = OrderBook { bids: BTreeMap::new(), asks: BTreeMap::new() };
        assert(book@.bids =~= Map::<u64, Seq<Order>>::empty());
        assert(book@.asks =~= Map::<u64, Seq<Order>>::empty());
        book
    }

    /// Rests `order` on its side of the book, behind the orders already at its
    /// price. An order with zero quantity or zero price is refused and the
    /// book is left unchanged.
    pub fn add_order(&mut self, order: Order) -> (r: Result<(), String>)
        ensures
            order.qty == 0 ==> (r matches Err(e) && e@ == "Zero quantity order"@),
            order.qty != 0 && order.price == 0 ==> (r matches Err(e) && e@ == "Zero price order"@),
            r is Err ==> final(self)@ == old(self)@,
            order.qty != 0 && order.price != 0 ==> r is Ok && final(self)@ == rest_order(
                old(self)@,
                order,
            ),
    {
        if order.qty == 0 {
            return Err("Zero quantity order".to_owned());
        }
        if order.price == 0 {
            return Err("Zero price order".to_owned());
        }
        match order.side {
            Side::Buy => {
                push_to_level(&mut self.bids, order);
            },
            Side::Sell => {
                push_to_level(&mut self.asks, order);
            },
        }
        Ok(())
    }
}

} // verus!
