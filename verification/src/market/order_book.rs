//! A single-asset limit order book with price-time priority.
//!
//! Prices are held in whole ticks. Each side is a sequence of price levels,
//! best price first (highest bid, lowest ask); each level is a FIFO queue of
//! resting orders with its running total.

use vstd::prelude::*;
use std::collections::VecDeque;
use crate::ids::{random_uuid, UUID_LAYOUT_MASK, UUID_V4_LAYOUT};
use crate::market::book_spec::{
    better_price, fill_orders, filled_qty, lemma_append_to_level, lemma_insert_level,
    lemma_qty_sum_concat, lemma_qty_sum_front, lemma_qty_sum_prefix, lemma_side_volume_concat,
    lemma_side_volume_front, lemma_side_volume_split, lemma_sweep_conserves, lemma_take_from_queue,
    lemma_levels_iff_volume, lemma_rest_keeps_quantities_positive, lemma_sweep_keeps_quantities_positive,
    lemma_sweep_fills_resting_orders, lemma_sweep_keeps_queue_order, fill_of_resting_order,
    lemma_sweep_fills_in_priority_order, priority_order,
    quantities_positive, level_map, qty_sum, queue_at, side_shape, side_volume, sweep, take_from_queue, Fill, LevelView,
};
use crate::types::{Order, OrderId, OrderType, Side, Trade};

verus! {

/// The side a market order on `side` trades against.
pub open spec fn opposite(side: Side) -> Side {
    match side {
        Side::Buy => Side::Sell,
        Side::Sell => Side::Buy,
    }
}

/// `t` is the trade that a market order `order` makes against `fill` in a
/// book for `symbol` at time `timestamp`. The trade's identifier is a fresh
/// random (version 4) UUID, not constrained further.
pub open spec fn trade_records(t: Trade, order: Order, fill: Fill, symbol: Seq<char>, timestamp: i64) -> bool {
    &&& t.trade_id & UUID_LAYOUT_MASK == UUID_V4_LAYOUT
    &&& t.timestamp == timestamp
    &&& t.symbol@ == symbol
    &&& t.price == fill.0
    &&& t.quantity == fill.1.quantity
    &&& t.tick == order.tick
    &&& match order.side {
        Side::Buy => {
            &&& t.buy_order_id == order.order_id
            &&& t.sell_order_id == fill.1.order_id
            &&& t.buyer_id == order.agent_id
            &&& t.seller_id == fill.1.agent_id
            &&& t.buyer_type == order.agent_type
            &&& t.seller_type == fill.1.agent_type
        },
        Side::Sell => {
            &&& t.buy_order_id == fill.1.order_id
            &&& t.sell_order_id == order.order_id
            &&& t.buyer_id == fill.1.agent_id
            &&& t.seller_id == order.agent_id
            &&& t.buyer_type == fill.1.agent_type
            &&& t.seller_type == order.agent_type
        },
    }
}

/// `book` has room to rest `order`: a limit order's quantity must not push
/// the volume of its side past `u64::MAX`.
pub open spec fn can_rest(book: OrderBook, order: Order) -> bool {
    order.order_type is Limit ==> side_volume(book.side_levels(order.side)) + order.quantity <= u64::MAX
}

/// `after` is `before` with `order` rested: a limit order joins the back of
/// the queue at its price on its side (a new level if there was none) and
/// adds its quantity to that side; a market order leaves the book as it was.
pub open spec fn rests(before: OrderBook, after: OrderBook, order: Order) -> bool {
    &&& after.symbol() == before.symbol()
    &&& match order.order_type {
        OrderType::Market => {
            &&& after.bids() == before.bids()
            &&& after.asks() == before.asks()
        },
        OrderType::Limit { price: price_ticks } => {
            &&& level_map(after.side_levels(order.side)) == level_map(before.side_levels(order.side)).insert(
                price_ticks,
                queue_at(before.side_levels(order.side), price_ticks).push(order),
            )
            &&& after.side_levels(opposite(order.side)) == before.side_levels(opposite(order.side))
            &&& side_volume(after.side_levels(order.side)) == side_volume(before.side_levels(order.side))
                + order.quantity
        },
    }
}

/// `after`, `trades` and `remainder` are what matching the market order
/// `order` against `before` gives: the opposite side is swept best price
/// first, FIFO within a price (see `sweep`), one trade per fill, the order's
/// own side is untouched, and the unfilled part of the order is returned when
/// the opposite side ran out.
pub open spec fn fills_market_order(
    before: OrderBook,
    after: OrderBook,
    order: Order,
    timestamp: i64,
    trades: Seq<Trade>,
    remainder: Option<Order>,
) -> bool {
    let (fills, rest) = sweep(before.side_levels(opposite(order.side)), order.quantity as nat);
    &&& after.symbol() == before.symbol()
    &&& after.side_levels(order.side) == before.side_levels(order.side)
    &&& after.side_levels(opposite(order.side)) == rest
    &&& trades.len() == fills.len()
    &&& forall|i: int| 0 <= i < fills.len() ==> trade_records(#[trigger] trades[i], order, fills[i], before.symbol(), timestamp)
    &&& remainder == if filled_qty(fills) < order.quantity {
        Some(order.with_quantity((order.quantity - filled_qty(fills)) as u64))
    } else {
        None
    }
}

/// The queue of resting orders at one price, with its running total.
#[derive(Debug)]
struct PriceLevel {
    price_ticks: u64,
    orders: VecDeque<Order>,
    total_quantity: u64,
}

impl PriceLevel {
    spec fn level_view(&self) -> LevelView {
        (self.price_ticks, self.orders@)
    }

    spec fn wf(&self) -> bool {
        self.total_quantity as nat == qty_sum(self.orders@)
    }

    fn new(price_ticks: u64) -> (l: PriceLevel)
        ensures
            l.wf(),
            l.price_ticks == price_ticks,
            l.orders@ == Seq::<Order>::empty(),
    {
        PriceLevel { price_ticks, orders: VecDeque::new(), total_quantity: 0 }
    }

    fn add_order(&mut self, order: Order)
        requires
            old(self).wf(),
            old(self).total_quantity + order.quantity <= u64::MAX,
        ensures
            final(self).wf(),
            final(self).price_ticks == old(self).price_ticks,
            final(self).orders@ == old(self).orders@.push(order),
    {
        proof {
            assert(self.orders@.push(order).drop_last() =~= self.orders@);
        }
        self.total_quantity = self.total_quantity + order.quantity;
        self.orders.push_back(order);
    }

    /// Removes the first resting order with the given identifier, if any.
    #[allow(dead_code)]
    fn remove_order(&mut self, order_id: OrderId)
        requires
            old(self).wf(),
        ensures
            final(self).wf(),
            final(self).price_ticks == old(self).price_ticks,
            (forall|j: int| 0 <= j < old(self).orders@.len() ==> (#[trigger] old(self).orders@[j]).order_id != order_id)
                ==> final(self).orders@ == old(self).orders@,
            (exists|j: int| 0 <= j < old(self).orders@.len() && (#[trigger] old(self).orders@[j]).order_id == order_id)
                ==> exists|i: int| {
                    &&& 0 <= i < old(self).orders@.len()
                    &&& old(self).orders@[i].order_id == order_id
                    &&& (forall|j: int| 0 <= j < i ==> (#[trigger] old(self).orders@[j]).order_id != order_id)
                    &&& final(self).orders@ == old(self).orders@.remove(i)
                },
    {
        let n = self.orders.len();
        let mut i: usize = 0;
        while i < n
            invariant
                self.wf(),
                self.price_ticks == old(self).price_ticks,
                self.orders@ == old(self).orders@,
                n == self.orders@.len(),
                i <= n,
                forall|j: int| 0 <= j < i ==> (#[trigger] self.orders@[j]).order_id != order_id,
            decreases n - i,
        {
            if self.orders[i].order_id == order_id {
                let ghost s = self.orders@;
                proof {
                    lemma_qty_sum_concat(s.take(i as int), s.skip(i as int));
                    lemma_qty_sum_concat(s.take(i as int), s.skip(i + 1));
                    lemma_qty_sum_front(s.skip(i as int));
                    assert(s.take(i as int) + s.skip(i as int) =~= s);
                    assert(s.skip(i as int).drop_first() =~= s.skip(i + 1));
                    assert(s.take(i as int) + s.skip(i + 1) =~= s.remove(i as int));
                }
                let removed = self.orders.remove(i);
                let order = removed.unwrap();
                self.total_quantity = self.total_quantity - order.quantity;
                return;
            }
            i = i + 1;
        }
    }

    /// Fills up to `quantity` units from the front of the queue.
    fn take_quantity(&mut self, quantity: u64) -> (taken: Vec<Order>)
        requires
            old(self).wf(),
        ensures
            final(self).wf(),
            final(self).price_ticks == old(self).price_ticks,
            (taken@, final(self).orders@) == take_from_queue(old(self).orders@, quantity as nat),
    {
        let mut taken: Vec<Order> = Vec::new();
        let mut remaining: u64 = quantity;
        let ghost s0 = self.orders@;
        let ghost p0 = self.price_ticks;
        while remaining > 0 && self.orders.len() > 0
            invariant
                self.wf(),
                self.price_ticks == p0,
                take_from_queue(s0, quantity as nat).0
                    == taken@ + take_from_queue(self.orders@, remaining as nat).0,
                take_from_queue(s0, quantity as nat).1 == take_from_queue(self.orders@, remaining as nat).1,
            decreases self.orders@.len() + (if remaining > 0 { 1int } else { 0int }),
        {
            let ghost s = self.orders@;
            let ghost r0 = remaining;
            proof {
                lemma_qty_sum_front(s);
            }
            let order = self.orders.pop_front().unwrap();
            let fill_qty = if remaining < order.quantity { remaining } else { order.quantity };
            remaining = remaining - fill_qty;
            self.total_quantity = self.total_quantity - fill_qty;
            if fill_qty < order.quantity {
                let residual = order.copy_with_quantity(order.quantity - fill_qty);
                proof {
                    lemma_qty_sum_front(seq![residual] + s.drop_first());
                    assert((seq![residual] + s.drop_first()).drop_first() =~= s.drop_first());
                }
                self.orders.push_front(residual);
                proof {
                    assert(self.orders@ =~= seq![residual] + s.drop_first());
                }
            }
            let filled = Order { quantity: fill_qty, ..order };
            let ghost t_before = taken@;
            taken.push(filled);
            proof {
                if r0 < s[0].quantity {
                    assert(filled == s[0].with_quantity(r0));
                    assert(taken@ =~= t_before + seq![s[0].with_quantity(r0)]);
                    assert(taken@ + take_from_queue(self.orders@, remaining as nat).0 =~= taken@);
                } else {
                    assert(filled == s[0]);
                    assert(self.orders@ =~= s.drop_first());
                    let t2 = take_from_queue(s.drop_first(), (r0 - s[0].quantity) as nat).0;
                    assert(t_before + (seq![s[0]] + t2) =~= taken@ + t2);
                }
            }
        }
        taken
    }
}

spec fn levels_view(v: Seq<PriceLevel>) -> Seq<LevelView> {
    v.map_values(|l: PriceLevel| l.level_view())
}

spec fn levels_ok(v: Seq<PriceLevel>) -> bool {
    forall|i: int| 0 <= i < v.len() ==> (#[trigger] v[i]).wf()
}

/// `better_price`, computed.
fn is_better(side: Side, a: u64, b: u64) -> (r: bool)
    ensures
        r == better_price(side, a, b),
{
    match side {
        Side::Buy => a > b,
        Side::Sell => a < b,
    }
}

/// Rests `order` at price `p` on one side of a book.
fn add_to_side(levels: &mut Vec<PriceLevel>, side: Side, p: u64, order: Order)
    requires
        levels_ok(old(levels)@),
        side_shape(levels_view(old(levels)@), side),
        side_volume(levels_view(old(levels)@)) + order.quantity <= u64::MAX,
    ensures
        levels_ok(final(levels)@),
        side_shape(levels_view(final(levels)@), side),
        level_map(levels_view(final(levels)@)) == level_map(levels_view(old(levels)@)).insert(
            p,
            queue_at(levels_view(old(levels)@), p).push(order),
        ),
        side_volume(levels_view(final(levels)@)) == side_volume(levels_view(old(levels)@))
            + order.quantity,
{
    let ghost ls = levels_view(levels@);
    let n = levels.len();
    let mut i: usize = 0;
    while i < n && is_better(side, levels[i].price_ticks, p)
        invariant
            i <= n,
            n == levels@.len(),
            ls == levels_view(levels@),
            forall|j: int| 0 <= j < i ==> better_price(side, #[trigger] ls[j].0, p),
        decreases n - i,
    {
        i = i + 1;
    }
    if i < n && levels[i].price_ticks == p {
        proof {
            lemma_side_volume_split(ls, i as int);
            lemma_append_to_level(ls, side, i as int, order);
        }
        let mut level = levels.remove(i);
        level.add_order(order);
        levels.insert(i, level);
        proof {
            assert(levels_view(levels@) =~= ls.update(i as int, (ls[i as int].0, ls[i as int].1.push(order))));
        }
    } else {
        proof {
            lemma_insert_level(ls, side, i as int, p, order);
        }
        let mut level = PriceLevel::new(p);
        level.add_order(order);
        proof {
            assert(level.orders@ =~= seq![order]);
        }
        levels.insert(i, level);
        proof {
            assert(levels_view(levels@) =~= ls.insert(i as int, (p, seq![order])));
        }
    }
}

/// The trade a market order makes against one fill.
fn make_trade(order: &Order, fill: &Order, price_ticks: u64, symbol: &String, timestamp: i64) -> (t: Trade)
    ensures
        trade_records(t, *order, (price_ticks, *fill), symbol@, timestamp),
{
    let (buy_order_id, sell_order_id, buyer_id, seller_id) = match order.side {
        Side::Buy => (order.order_id, fill.order_id, order.agent_id, fill.agent_id),
        Side::Sell => (fill.order_id, order.order_id, fill.agent_id, order.agent_id),
    };
    let (buyer_type, seller_type) = match order.side {
        Side::Buy => (order.agent_type, fill.agent_type),
        Side::Sell => (fill.agent_type, order.agent_type),
    };
    Trade {
        trade_id: random_uuid(),
        symbol: symbol.clone(),
        price: price_ticks,
        quantity: fill.quantity,
        buy_order_id,
        sell_order_id,
        buyer_id,
        seller_id,
        buyer_type,
        seller_type,
        timestamp,
        tick: order.tick,
    }
}

/// Matches a market order against one side of a book, best level first.
/// Returns the trades and the quantity filled.
fn sweep_side(levels: &mut Vec<PriceLevel>, side: Side, symbol: &String, order: &Order, timestamp: i64) -> (r: (
    Vec<Trade>,
    u64,
))
    requires
        levels_ok(old(levels)@),
        side_shape(levels_view(old(levels)@), side),
        side_volume(levels_view(old(levels)@)) <= u64::MAX,
    ensures
        levels_ok(final(levels)@),
        side_shape(levels_view(final(levels)@), side),
        side_volume(levels_view(final(levels)@)) <= side_volume(levels_view(old(levels)@)),
        ({
            let (fills, rest) = sweep(levels_view(old(levels)@), order.quantity as nat);
            &&& levels_view(final(levels)@) == rest
            &&& r.1 as nat == filled_qty(fills)
            &&& r.0@.len() == fills.len()
            &&& forall|i: int|
                0 <= i < fills.len() ==> trade_records(#[trigger] r.0@[i], *order, fills[i], symbol@, timestamp)
        }),
{
    let ghost ls0 = levels_view(levels@);
    let ghost q0 = order.quantity as nat;
    let ghost mut done: Seq<Fill> = Seq::empty();
    let mut trades: Vec<Trade> = Vec::new();
    let mut remaining: u64 = order.quantity;
    proof {
        assert(fill_orders(done) =~= Seq::<Order>::empty());
    }
    while remaining > 0 && levels.len() > 0
        invariant
            levels_ok(levels@),
            side_shape(levels_view(levels@), side),
            side_volume(levels_view(levels@)) <= side_volume(ls0),
            side_volume(ls0) <= u64::MAX,
            sweep(ls0, q0).0 == done + sweep(levels_view(levels@), remaining as nat).0,
            sweep(ls0, q0).1 == sweep(levels_view(levels@), remaining as nat).1,
            q0 == remaining + filled_qty(done),
            trades@.len() == done.len(),
            forall|i: int| 0 <= i < done.len() ==> trade_records(#[trigger] trades@[i], *order, done[i], symbol@, timestamp),
        decreases levels@.len() + (if remaining > 0 { 1int } else { 0int }),
    {
        let ghost ls = levels_view(levels@);
        let ghost rem0 = remaining;
        let ghost done0 = done;
        proof {
            lemma_side_volume_front(ls);
            assert(levels@[0].wf());
        }
        let mut level = levels.remove(0);
        proof {
            assert(levels_view(levels@) =~= ls.drop_first());
        }
        let p = level.price_ticks;
        let ghost q_before = level.orders@;
        let fills = level.take_quantity(remaining);
        proof {
            lemma_take_from_queue(q_before, rem0 as nat);
        }
        let mut j: usize = 0;
        let mut fill_total: u64 = 0;
        while j < fills.len()
            invariant
                j <= fills@.len(),
                fill_total as nat == qty_sum(fills@.take(j as int)),
                qty_sum(fills@) <= rem0,
                trades@.len() == done0.len() + j,
                forall|i: int| 0 <= i < done0.len() ==> trade_records(#[trigger] trades@[i], *order, done0[i], symbol@, timestamp),
                forall|i: int| 0 <= i < j ==> trade_records(#[trigger] trades@[done0.len() + i], *order, (p, fills@[i]), symbol@, timestamp),
            decreases fills@.len() - j,
        {
            proof {
                lemma_qty_sum_prefix(fills@, j as int);
                lemma_qty_sum_concat(fills@.take(j + 1), fills@.skip(j + 1));
                assert(fills@.take(j + 1) + fills@.skip(j + 1) =~= fills@);
            }
            let t = make_trade(order, &fills[j], p, symbol, timestamp);
            fill_total = fill_total + fills[j].quantity;
            trades.push(t);
            j = j + 1;
        }
        proof {
            assert(fills@.take(j as int) =~= fills@);
        }
        remaining = remaining - fill_total;
        let ghost fm = fills@.map_values(|o: Order| (p, o));
        proof {
            done = done0 + fm;
            assert(fill_orders(done) =~= fill_orders(done0) + fills@);
            lemma_qty_sum_concat(fill_orders(done0), fills@);
            assert forall|i: int| 0 <= i < done.len() implies trade_records(#[trigger] trades@[i], *order, done[i], symbol@, timestamp) by {
                if i >= done0.len() {
                    assert(trades@[i] == trades@[done0.len() + (i - done0.len())]);
                }
            }
            lemma_qty_sum_concat(fills@, level.orders@);
        }
        if level.orders.len() > 0 {
            levels.insert(0, level);
            proof {
                assert(levels_view(levels@) =~= ls.update(0, (p, level.orders@)));
                assert(forall|a: int| 0 <= a < levels_view(levels@).len() ==> #[trigger] levels_view(levels@)[a].0 == ls[a].0);
                lemma_side_volume_front(levels_view(levels@));
                assert(levels_view(levels@).drop_first() =~= ls.drop_first());
                assert(sweep(levels_view(levels@), remaining as nat).0 =~= Seq::<Fill>::empty());
                assert(done + Seq::<Fill>::empty() =~= done);
            }
        } else {
            proof {
                assert(done0 + (fm + sweep(ls.drop_first(), remaining as nat).0) =~= done + sweep(ls.drop_first(), remaining as nat).0);
            }
        }
    }
    (trades, order.quantity - remaining)
}

/// A single order book for one asset.
#[derive(Debug)]
pub struct OrderBook {
    symbol: String,
    /// Bid levels, highest price first.
    bids: Vec<PriceLevel>,
    /// Ask levels, lowest price first.
    asks: Vec<PriceLevel>,
}

impl OrderBook {
    /// The asset symbol of the book.
    pub closed spec fn symbol(&self) -> Seq<char> {
        self.symbol@
    }

    /// The bid levels, highest price first.
    pub closed spec fn bids(&self) -> Seq<LevelView> {
        levels_view(self.bids@)
    }

    /// The ask levels, lowest price first.
    pub closed spec fn asks(&self) -> Seq<LevelView> {
        levels_view(self.asks@)
    }

    /// The levels of one side.
    pub open spec fn side_levels(&self, side: Side) -> Seq<LevelView> {
        match side {
            Side::Buy => self.bids(),
            Side::Sell => self.asks(),
        }
    }

    /// Running totals of the levels agree with their queues.
    pub closed spec fn totals_agree(&self) -> bool {
        levels_ok(self.bids@) && levels_ok(self.asks@)
    }

    /// Well-formedness: both sides ordered best price first with no empty
    /// level, running totals correct, and each side's volume fits in a `u64`.
    pub open spec fn wf(&self) -> bool {
        &&& self.totals_agree()
        &&& side_shape(self.bids(), Side::Buy)
        &&& side_shape(self.asks(), Side::Sell)
        &&& side_volume(self.bids()) <= u64::MAX
        &&& side_volume(self.asks()) <= u64::MAX
    }

    /// An empty book for `symbol`.
    pub fn new(symbol: String) -> (b: OrderBook)
        ensures
            b.wf(),
            resting_quantities_positive(b),
            b.symbol() == symbol@,
            b.bids() == Seq::<LevelView>::empty(),
            b.asks() == Seq::<LevelView>::empty(),
    {
        let b = OrderBook { symbol, bids: Vec::new(), asks: Vec::new() };
        proof {
            assert(b.bids() =~= Seq::<LevelView>::empty());
            assert(b.asks() =~= Seq::<LevelView>::empty());
        }
        b
    }

    /// The asset symbol of the book.
    pub fn symbol_name(&self) -> (r: &String)
        ensures
            r@ == self.symbol(),
    {
        &self.symbol
    }

    /// Rests a limit order at the back of the queue at its price, opening a
    /// level there if there is none. A market order is not stored.
    pub fn add_order(&mut self, order: Order)
        requires
            old(self).wf(),
            can_rest(*old(self), order),
        ensures
            final(self).wf(),
            rests(*old(self), *final(self), order),
    {
        let price_ticks = match order.order_type {
            OrderType::Limit { price } => price,
            OrderType::Market => {
                return;
            },
        };
        match order.side {
            Side::Buy => add_to_side(&mut self.bids, Side::Buy, price_ticks, order),
            Side::Sell => add_to_side(&mut self.asks, Side::Sell, price_ticks, order),
        }
    }

    /// Matches a market order against the opposite side of the book, best
    /// price first and, within a price, oldest order first. Levels that are
    /// emptied are removed. Returns one trade per fill, priced at the level
    /// it came from and stamped with `timestamp`, and what is left of the
    /// order when the opposite side ran out.
    pub fn match_market_order(&mut self, order: &Order, timestamp: i64) -> (r: (Vec<Trade>, Option<Order>))
        requires
            old(self).wf(),
        ensures
            final(self).wf(),
            fills_market_order(*old(self), *final(self), *order, timestamp, r.0@, r.1),
    {
        let (trades, filled) = match order.side {
            Side::Buy => sweep_side(&mut self.asks, Side::Sell, &self.symbol, order, timestamp),
            Side::Sell => sweep_side(&mut self.bids, Side::Buy, &self.symbol, order, timestamp),
        };
        let remainder = if filled < order.quantity {
            Some(order.copy_with_quantity(order.quantity - filled))
        } else {
            None
        };
        (trades, remainder)
    }

    /// The best (highest) bid price in ticks.
    pub fn best_bid(&self) -> (r: Option<u64>)
        requires
            self.wf(),
        ensures
            r == if self.bids().len() == 0 { None } else { Some(self.bids()[0].0) },
            r matches Some(b) ==> forall|i: int| 0 <= i < self.bids().len() ==> #[trigger] self.bids()[i].0 <= b,
    {
        if self.bids.len() == 0 {
            None
        } else {
            proof {
                let ls = self.bids();
                assert forall|i: int| 0 <= i < ls.len() implies #[trigger] ls[i].0 <= ls[0].0 by {
                    if i > 0 {
                        assert(better_price(Side::Buy, ls[0].0, ls[i].0));
                    }
                }
            }
            Some(self.bids[0].price_ticks)
        }
    }

    /// The best (lowest) ask price in ticks.
    pub fn best_ask(&self) -> (r: Option<u64>)
        requires
            self.wf(),
        ensures
            r == if self.asks().len() == 0 { None } else { Some(self.asks()[0].0) },
            r matches Some(a) ==> forall|i: int| 0 <= i < self.asks().len() ==> a <= #[trigger] self.asks()[i].0,
    {
        if self.asks.len() == 0 {
            None
        } else {
            proof {
                let ls = self.asks();
                assert forall|i: int| 0 <= i < ls.len() implies ls[0].0 <= #[trigger] ls[i].0 by {
                    if i > 0 {
                        assert(better_price(Side::Sell, ls[0].0, ls[i].0));
                    }
                }
            }
            Some(self.asks[0].price_ticks)
        }
    }

    /// Total resting quantity over all bid levels.
    pub fn total_bid_volume(&self) -> (r: u64)
        requires
            self.wf(),
        ensures
            r == side_volume(self.bids()),
    {
        side_total(&self.bids)
    }

    /// Total resting quantity over all ask levels.
    pub fn total_ask_volume(&self) -> (r: u64)
        requires
            self.wf(),
        ensures
            r == side_volume(self.asks()),
    {
        side_total(&self.asks)
    }
}

/// Sum of the running totals of a side's levels.
fn side_total(levels: &Vec<PriceLevel>) -> (r: u64)
    requires
        levels_ok(levels@),
        side_volume(levels_view(levels@)) <= u64::MAX,
    ensures
        r == side_volume(levels_view(levels@)),
{
    let ghost ls = levels_view(levels@);
    let mut total: u64 = 0;
    let mut i: usize = 0;
    while i < levels.len()
        invariant
            i <= levels@.len(),
            ls == levels_view(levels@),
            levels_ok(levels@),
            side_volume(ls) <= u64::MAX,
            total == side_volume(ls.take(i as int)),
        decreases levels@.len() - i,
    {
        proof {
            assert(ls.take(i + 1).drop_last() =~= ls.take(i as int));
            lemma_side_volume_concat(ls.take(i + 1), ls.skip(i + 1));
            assert(ls.take(i + 1) + ls.skip(i + 1) =~= ls);
            assert(levels@[i as int].wf());
        }
        total = total + levels[i].total_quantity;
        i = i + 1;
    }
    proof {
        assert(ls.take(i as int) =~= ls);
    }
    total
}

/// Total quantity of a sequence of trades.
pub open spec fn traded_qty(ts: Seq<Trade>) -> nat
    decreases ts.len(),
{
    if ts.len() == 0 {
        0
    } else {
        traded_qty(ts.drop_last()) + ts.last().quantity as nat
    }
}

proof fn lemma_traded_matches_filled(ts: Seq<Trade>, fs: Seq<Fill>)
    requires
        ts.len() == fs.len(),
        forall|i: int| 0 <= i < ts.len() ==> (#[trigger] ts[i]).quantity == fs[i].1.quantity,
    ensures
        traded_qty(ts) == filled_qty(fs),
    decreases ts.len(),
{
    if ts.len() > 0 {
        lemma_traded_matches_filled(ts.drop_last(), fs.drop_last());
        assert(fill_orders(fs.drop_last()) =~= fill_orders(fs).drop_last());
    }
}

/// Quantity accounting of a market order: the quantities of its trades plus
/// what is returned unfilled add up to exactly the order's quantity; it trades
/// the smaller of its quantity and the opposite side's volume; and that side's
/// volume drops by exactly the quantity traded.
pub proof fn lemma_market_order_accounting(
    before: OrderBook,
    after: OrderBook,
    order: Order,
    timestamp: i64,
    trades: Seq<Trade>,
    remainder: Option<Order>,
)
    requires
        before.wf(),
        fills_market_order(before, after, order, timestamp, trades, remainder),
    ensures
        traded_qty(trades) + (match remainder {
            Some(o) => o.quantity as nat,
            None => 0nat,
        }) == order.quantity,
        traded_qty(trades) == if order.quantity <= side_volume(before.side_levels(opposite(order.side))) {
            order.quantity as nat
        } else {
            side_volume(before.side_levels(opposite(order.side)))
        },
        side_volume(after.side_levels(opposite(order.side))) + traded_qty(trades)
            == side_volume(before.side_levels(opposite(order.side))),
{
    let contra = before.side_levels(opposite(order.side));
    let (fills, rest) = sweep(contra, order.quantity as nat);
    lemma_sweep_conserves(contra, order.quantity as nat);
    assert forall|i: int| 0 <= i < trades.len() implies (#[trigger] trades[i]).quantity == fills[i].1.quantity by {
        assert(trade_records(trades[i], order, fills[i], before.symbol(), timestamp));
    }
    lemma_traded_matches_filled(trades, fills);
}

/// Who trades with whom: every trade a market order makes is at the price of
/// an order that rested on the opposite side, and is between the incoming
/// order and that resting order. For a market buy the buy side of the trade
/// (order, agent and agent type) is the incoming order's and the sell side is
/// the resting order's; for a market sell it is the other way round.
pub proof fn lemma_trade_parties(
    before: OrderBook,
    after: OrderBook,
    order: Order,
    timestamp: i64,
    trades: Seq<Trade>,
    remainder: Option<Order>,
)
    requires
        before.wf(),
        fills_market_order(before, after, order, timestamp, trades, remainder),
    ensures
        forall|i: int| 0 <= i < trades.len() ==> exists|l: int, j: int|
            #![trigger before.side_levels(opposite(order.side))[l].1[j]]
            {
                &&& 0 <= l < before.side_levels(opposite(order.side)).len()
                &&& 0 <= j < before.side_levels(opposite(order.side))[l].1.len()
                &&& (#[trigger] trades[i]).price == before.side_levels(opposite(order.side))[l].0
                &&& order.side is Buy ==> {
                    &&& trades[i].buy_order_id == order.order_id
                    &&& trades[i].buyer_id == order.agent_id
                    &&& trades[i].buyer_type == order.agent_type
                    &&& trades[i].sell_order_id == before.side_levels(opposite(order.side))[l].1[j].order_id
                    &&& trades[i].seller_id == before.side_levels(opposite(order.side))[l].1[j].agent_id
                    &&& trades[i].seller_type == before.side_levels(opposite(order.side))[l].1[j].agent_type
                }
                &&& order.side is Sell ==> {
                    &&& trades[i].buy_order_id == before.side_levels(opposite(order.side))[l].1[j].order_id
                    &&& trades[i].buyer_id == before.side_levels(opposite(order.side))[l].1[j].agent_id
                    &&& trades[i].buyer_type == before.side_levels(opposite(order.side))[l].1[j].agent_type
                    &&& trades[i].sell_order_id == order.order_id
                    &&& trades[i].seller_id == order.agent_id
                    &&& trades[i].seller_type == order.agent_type
                }
            },
{
    let contra = before.side_levels(opposite(order.side));
    let fills = sweep(contra, order.quantity as nat).0;
    lemma_sweep_fills_resting_orders(contra, order.quantity as nat);
    assert forall|i: int| 0 <= i < trades.len() implies exists|l: int, j: int|
        #![trigger before.side_levels(opposite(order.side))[l].1[j]]
        {
            &&& 0 <= l < before.side_levels(opposite(order.side)).len()
            &&& 0 <= j < before.side_levels(opposite(order.side))[l].1.len()
            &&& (#[trigger] trades[i]).price == before.side_levels(opposite(order.side))[l].0
            &&& order.side is Buy ==> {
                &&& trades[i].buy_order_id == order.order_id
                &&& trades[i].buyer_id == order.agent_id
                &&& trades[i].buyer_type == order.agent_type
                &&& trades[i].sell_order_id == before.side_levels(opposite(order.side))[l].1[j].order_id
                &&& trades[i].seller_id == before.side_levels(opposite(order.side))[l].1[j].agent_id
                &&& trades[i].seller_type == before.side_levels(opposite(order.side))[l].1[j].agent_type
            }
            &&& order.side is Sell ==> {
                &&& trades[i].buy_order_id == before.side_levels(opposite(order.side))[l].1[j].order_id
                &&& trades[i].buyer_id == before.side_levels(opposite(order.side))[l].1[j].agent_id
                &&& trades[i].buyer_type == before.side_levels(opposite(order.side))[l].1[j].agent_type
                &&& trades[i].sell_order_id == order.order_id
                &&& trades[i].seller_id == order.agent_id
                &&& trades[i].seller_type == order.agent_type
            }
        } by {
        let x = fills[i];
        assert(trade_records(trades[i], order, x, before.symbol(), timestamp));
        assert(fill_of_resting_order(contra, x));
        let (l, j) = choose|l: int, j: int|
            #![trigger contra[l].1[j]]
            0 <= l < contra.len() && 0 <= j < contra[l].1.len() && x.0 == contra[l].0 && x.1.with_quantity(
                contra[l].1[j].quantity,
            ) == contra[l].1[j];
        let r = contra[l].1[j];
        assert(r.order_id == x.1.order_id);
        assert(r.agent_id == x.1.agent_id);
        assert(r.agent_type == x.1.agent_type);
    }
}

/// Price-time priority of the trades: the i-th trade of a market order is
/// against the i-th order of the opposite side in priority order (best price
/// first, oldest first within a price), at that order's price and for at most
/// its quantity; every trade but the last takes its order in full. Each trade
/// carries the book's symbol, the given timestamp and the order's tick.
pub proof fn lemma_trades_in_priority_order(
    before: OrderBook,
    after: OrderBook,
    order: Order,
    timestamp: i64,
    trades: Seq<Trade>,
    remainder: Option<Order>,
)
    requires
        before.wf(),
        fills_market_order(before, after, order, timestamp, trades, remainder),
    ensures
        trades.len() <= priority_order(before.side_levels(opposite(order.side))).len(),
        forall|i: int| 0 <= i < trades.len() ==> {
            let resting = priority_order(before.side_levels(opposite(order.side)))[i];
            &&& (#[trigger] trades[i]).price == resting.0
            &&& (if order.side is Buy { trades[i].sell_order_id } else { trades[i].buy_order_id })
                == resting.1.order_id
            &&& trades[i].quantity <= resting.1.quantity
            &&& (i < trades.len() - 1 ==> trades[i].quantity == resting.1.quantity)
            &&& trades[i].symbol@ == before.symbol()
            &&& trades[i].timestamp == timestamp
            &&& trades[i].tick == order.tick
        },
{
    let contra = before.side_levels(opposite(order.side));
    let fills = sweep(contra, order.quantity as nat).0;
    let po = priority_order(contra);
    lemma_sweep_fills_in_priority_order(contra, order.quantity as nat);
    assert forall|i: int| 0 <= i < trades.len() implies {
        let resting = priority_order(before.side_levels(opposite(order.side)))[i];
        &&& (#[trigger] trades[i]).price == resting.0
        &&& (if order.side is Buy { trades[i].sell_order_id } else { trades[i].buy_order_id })
            == resting.1.order_id
        &&& trades[i].quantity <= resting.1.quantity
        &&& (i < trades.len() - 1 ==> trades[i].quantity == resting.1.quantity)
        &&& trades[i].symbol@ == before.symbol()
        &&& trades[i].timestamp == timestamp
        &&& trades[i].tick == order.tick
    } by {
        assert(trade_records(trades[i], order, fills[i], before.symbol(), timestamp));
        assert(fills[i].1.with_quantity(po[i].1.quantity) == po[i].1);
        assert(fills[i].1.order_id == po[i].1.order_id);
        if i < trades.len() - 1 {
            assert(fills[i] == po[i]);
        }
    }
}

/// Time priority is kept in the book across market orders: after one, the
/// side it swept is an untouched tail of the levels it had, headed by the
/// level the order stopped in; that level's queue is the untouched tail of its
/// old queue, headed by the order the market order stopped at with at most
/// its old quantity. A partly filled order keeps its place at the head of its
/// queue, ahead of every order that arrived after it.
pub proof fn lemma_match_keeps_queue_order(
    before: OrderBook,
    after: OrderBook,
    order: Order,
    timestamp: i64,
    trades: Seq<Trade>,
    remainder: Option<Order>,
)
    requires
        before.wf(),
        fills_market_order(before, after, order, timestamp, trades, remainder),
    ensures
        ({
            let old_side = before.side_levels(opposite(order.side));
            let new_side = after.side_levels(opposite(order.side));
            new_side.len() == 0 || exists|k: int, m: int|
                #![trigger old_side[k].1[m]]
                {
                    &&& 0 <= k < old_side.len()
                    &&& 0 <= m < old_side[k].1.len()
                    &&& new_side.drop_first() == old_side.skip(k + 1)
                    &&& new_side[0].0 == old_side[k].0
                    &&& new_side[0].1.len() > 0
                    &&& new_side[0].1.drop_first() == old_side[k].1.skip(m + 1)
                    &&& new_side[0].1[0].with_quantity(old_side[k].1[m].quantity) == old_side[k].1[m]
                    &&& new_side[0].1[0].quantity <= old_side[k].1[m].quantity
                }
        }),
{
    lemma_sweep_keeps_queue_order(before.side_levels(opposite(order.side)), opposite(order.side), order.quantity as nat);
}

/// Every order resting in the book has a positive quantity.
pub open spec fn resting_quantities_positive(b: OrderBook) -> bool {
    quantities_positive(b.bids()) && quantities_positive(b.asks())
}

/// In a book whose resting quantities are positive, there is a best bid
/// exactly when the bid side holds volume, and a best ask exactly when the ask
/// side does: an emptied price level is never left behind.
pub proof fn lemma_best_price_iff_volume(b: OrderBook)
    requires
        b.wf(),
        resting_quantities_positive(b),
    ensures
        b.bids().len() > 0 <==> side_volume(b.bids()) > 0,
        b.asks().len() > 0 <==> side_volume(b.asks()) > 0,
{
    lemma_levels_iff_volume(b.bids(), Side::Buy);
    lemma_levels_iff_volume(b.asks(), Side::Sell);
}

/// Resting an order of positive quantity keeps every resting quantity
/// positive.
pub proof fn lemma_rest_keeps_quantities_positive_in_book(before: OrderBook, after: OrderBook, order: Order)
    requires
        before.wf(),
        after.wf(),
        resting_quantities_positive(before),
        rests(before, after, order),
        order.quantity > 0,
    ensures
        resting_quantities_positive(after),
{
    match order.order_type {
        OrderType::Market => {},
        OrderType::Limit { price } => {
            match order.side {
                Side::Buy => lemma_rest_keeps_quantities_positive(before.bids(), after.bids(), Side::Buy, price, order),
                Side::Sell => lemma_rest_keeps_quantities_positive(before.asks(), after.asks(), Side::Sell, price, order),
            }
        },
    }
}

/// Matching a market order keeps every resting quantity positive.
pub proof fn lemma_match_keeps_quantities_positive_in_book(
    before: OrderBook,
    after: OrderBook,
    order: Order,
    timestamp: i64,
    trades: Seq<Trade>,
    remainder: Option<Order>,
)
    requires
        before.wf(),
        resting_quantities_positive(before),
        fills_market_order(before, after, order, timestamp, trades, remainder),
    ensures
        resting_quantities_positive(after),
{
    lemma_sweep_keeps_quantities_positive(before.side_levels(opposite(order.side)), order.quantity as nat);
}

} // verus!
