//! The set of order books of a market, one per asset symbol, and the routing
//! of orders to them.

use vstd::prelude::*;
use crate::market::order_book::{can_rest, fills_market_order, rests, OrderBook};
use crate::market::book_spec::LevelView;
use crate::text::str_eq;
use crate::types::{Order, OrderType, Trade};

verus! {

/// The index of the book for `symbol`, if any.
pub open spec fn book_index(books: Seq<OrderBook>, symbol: Seq<char>) -> Option<int> {
    if exists|i: int| 0 <= i < books.len() && (#[trigger] books[i]).symbol() == symbol {
        Some(choose|i: int| 0 <= i < books.len() && (#[trigger] books[i]).symbol() == symbol)
    } else {
        None
    }
}

/// `b` is an empty, well-formed book for `symbol`.
pub open spec fn fresh_book(b: OrderBook, symbol: Seq<char>) -> bool {
    &&& b.wf()
    &&& b.symbol() == symbol
    &&& b.bids() == Seq::<LevelView>::empty()
    &&& b.asks() == Seq::<LevelView>::empty()
}

/// The index of the last trade in `symbol`, if any.
pub open spec fn last_trade_index(ts: Seq<Trade>, symbol: Seq<char>) -> Option<int>
    decreases ts.len(),
{
    if ts.len() == 0 {
        None
    } else if ts.last().symbol@ == symbol {
        Some(ts.len() - 1)
    } else {
        last_trade_index(ts.drop_last(), symbol)
    }
}

/// What the index of the last trade in a symbol is: a trade in that symbol
/// with no later trade in it, and none at all when no trade is in it.
pub proof fn lemma_last_trade_index_is_most_recent(ts: Seq<Trade>, symbol: Seq<char>)
    ensures
        match last_trade_index(ts, symbol) {
            Some(k) => {
                &&& 0 <= k < ts.len()
                &&& ts[k].symbol@ == symbol
                &&& forall|j: int| k < j < ts.len() ==> (#[trigger] ts[j]).symbol@ != symbol
            },
            None => forall|j: int| 0 <= j < ts.len() ==> (#[trigger] ts[j]).symbol@ != symbol,
        },
    decreases ts.len(),
{
    if ts.len() > 0 {
        let d = ts.drop_last();
        lemma_last_trade_index_is_most_recent(d, symbol);
        assert forall|j: int| 0 <= j < d.len() implies #[trigger] ts[j] == d[j] by {}
    }
}

/// Appending a trade: one in the symbol becomes the last trade in it; one in
/// another symbol leaves the answer as it was.
pub proof fn lemma_last_trade_index_push(ts: Seq<Trade>, t: Trade, symbol: Seq<char>)
    ensures
        t.symbol@ == symbol ==> last_trade_index(ts.push(t), symbol) == Some(ts.len() as int),
        t.symbol@ != symbol ==> last_trade_index(ts.push(t), symbol) == last_trade_index(ts, symbol),
{
    lemma_last_trade_index_is_most_recent(ts.push(t), symbol);
    lemma_last_trade_index_is_most_recent(ts, symbol);
    assert(ts.push(t).drop_last() =~= ts);
}

/// The price in ticks of the most recent trade in `symbol`.
pub fn last_trade_price(trades: &[Trade], symbol: &str) -> (r: Option<u64>)
    ensures
        r == match last_trade_index(trades@, symbol@) {
            Some(k) => Some(trades@[k].price),
            None => None::<u64>,
        },
{
    let mut k: usize = trades.len();
    proof {
        assert(trades@.take(k as int) =~= trades@);
    }
    while k > 0
        invariant
            k <= trades@.len(),
            last_trade_index(trades@, symbol@) == last_trade_index(trades@.take(k as int), symbol@),
        decreases k,
    {
        proof {
            assert(trades@.take(k as int).drop_last() =~= trades@.take(k - 1));
        }
        if str_eq(trades[k - 1].symbol.as_str(), symbol) {
            return Some(trades[k - 1].price);
        }
        k = k - 1;
    }
    None
}

/// The order books of a market.
#[derive(Debug)]
pub struct Exchange {
    books: Vec<OrderBook>,
}

impl Exchange {
    /// The books, in the order they were opened.
    pub closed spec fn books(&self) -> Seq<OrderBook> {
        self.books@
    }

    /// Every book well-formed, at most one book per symbol.
    pub open spec fn wf(&self) -> bool {
        &&& forall|i: int| 0 <= i < self.books().len() ==> (#[trigger] self.books()[i]).wf()
        &&& forall|i: int, j: int|
            0 <= i < j < self.books().len() ==> (#[trigger] self.books()[i]).symbol() != (#[trigger] self.books()[j]).symbol()
    }

    /// A market with no books.
    pub fn new() -> (r: Exchange)
        ensures
            r.wf(),
            r.books() == Seq::<OrderBook>::empty(),
    {
        let r = Exchange { books: Vec::new() };
        proof {
            assert(r.books() =~= Seq::<OrderBook>::empty());
        }
        r
    }

    /// Index of the book for `symbol`.
    pub fn find(&self, symbol: &str) -> (r: Option<usize>)
        requires
            self.wf(),
        ensures
            match r {
                Some(i) => {
                    &&& i < self.books().len()
                    &&& self.books()[i as int].symbol() == symbol@
                    &&& book_index(self.books(), symbol@) == Some(i as int)
                },
                None => book_index(self.books(), symbol@) is None,
            },
    {
        let n = self.books.len();
        let mut i: usize = 0;
        while i < n
            invariant
                n == self.books().len(),
                self.wf(),
                i <= n,
                forall|j: int| 0 <= j < i ==> (#[trigger] self.books()[j]).symbol() != symbol@,
            decreases n - i,
        {
            if str_eq(self.books[i].symbol_name().as_str(), symbol) {
                proof {
                    let k = choose|k: int| 0 <= k < self.books().len() && (#[trigger] self.books()[k]).symbol() == symbol@;
                    if k > i {
                        assert(self.books()[i as int].symbol() != self.books()[k].symbol());
                    }
                }
                return Some(i);
            }
            i = i + 1;
        }
        None
    }

    /// The book for `symbol`, if there is one.
    pub fn book(&self, symbol: &str) -> (r: Option<&OrderBook>)
        requires
            self.wf(),
        ensures
            match book_index(self.books(), symbol@) {
                Some(i) => r == Some(&self.books()[i]),
                None => r is None,
            },
    {
        match self.find(symbol) {
            Some(i) => Some(&self.books[i]),
            None => None,
        }
    }

    /// Opens an empty book for `symbol`, replacing any book already there.
    pub fn open_book(&mut self, symbol: String)
        requires
            old(self).wf(),
        ensures
            final(self).wf(),
            match book_index(old(self).books(), symbol@) {
                Some(i) => {
                    &&& final(self).books().len() == old(self).books().len()
                    &&& fresh_book(final(self).books()[i], symbol@)
                    &&& forall|j: int| 0 <= j < old(self).books().len() && j != i ==> #[trigger] final(self).books()[j] == old(self).books()[j]
                },
                None => {
                    &&& final(self).books().len() == old(self).books().len() + 1
                    &&& fresh_book(final(self).books().last(), symbol@)
                    &&& forall|j: int| 0 <= j < old(self).books().len() ==> #[trigger] final(self).books()[j] == old(self).books()[j]
                },
            },
    {
        let ghost bs = self.books();
        match self.find(symbol.as_str()) {
            Some(i) => {
                let book = OrderBook::new(symbol);
                self.books.remove(i);
                self.books.insert(i, book);
                proof {
                    assert(self.books() =~= bs.update(i as int, book));
                    assert forall|a: int, b: int| 0 <= a < b < self.books().len() implies
                        (#[trigger] self.books()[a]).symbol() != (#[trigger] self.books()[b]).symbol() by {
                        assert(self.books()[a].symbol() == bs[a].symbol());
                        assert(self.books()[b].symbol() == bs[b].symbol());
                    }
                }
            },
            None => {
                let book = OrderBook::new(symbol);
                self.books.push(book);
                proof {
                    assert(self.books() =~= bs.push(book));
                    assert forall|a: int, b: int| 0 <= a < b < self.books().len() implies
                        (#[trigger] self.books()[a]).symbol() != (#[trigger] self.books()[b]).symbol() by {
                        if b == bs.len() {
                            assert(self.books()[a] == bs[a]);
                        } else {
                            assert(self.books()[a] == bs[a] && self.books()[b] == bs[b]);
                        }
                    }
                }
            },
        }
    }

    /// Routes an order to the book of its symbol: a market order is matched
    /// against it (any unfilled part is dropped), its trades stamped with
    /// `timestamp`, and a limit order rests in it. An order for a symbol
    /// without a book is ignored.
    pub fn submit(&mut self, order: &Order, timestamp: i64) -> (trades: Vec<Trade>)
        requires
            old(self).wf(),
            match book_index(old(self).books(), order.symbol@) {
                Some(i) => can_rest(old(self).books()[i], *order),
                None => true,
            },
        ensures
            final(self).wf(),
            final(self).books().len() == old(self).books().len(),
            match book_index(old(self).books(), order.symbol@) {
                None => {
                    &&& final(self).books() == old(self).books()
                    &&& trades@.len() == 0
                },
                Some(i) => {
                    &&& forall|j: int| 0 <= j < old(self).books().len() && j != i ==> #[trigger] final(self).books()[j] == old(self).books()[j]
                    &&& match order.order_type {
                        OrderType::Market => exists|rem: Option<Order>| fills_market_order(old(self).books()[i], final(self).books()[i], *order, timestamp, trades@, rem),
                        OrderType::Limit { .. } => {
                            &&& rests(old(self).books()[i], final(self).books()[i], *order)
                            &&& trades@.len() == 0
                        },
                    }
                },
            },
    {
        let ghost bs = self.books();
        match self.find(order.symbol.as_str()) {
            None => Vec::new(),
            Some(i) => {
                let mut book = self.books.remove(i);
                let ghost mut leftover: Option<Order> = None;
                let trades = match order.order_type {
                    OrderType::Market => {
                        let (trades, rem) = book.match_market_order(order, timestamp);
                        proof {
                            leftover = rem;
                        }
                        trades
                    },
                    OrderType::Limit { .. } => {
                        let copy = order.copy_with_quantity(order.quantity);
                        proof {
                            assert(copy == *order);
                        }
                        book.add_order(copy);
                        Vec::new()
                    },
                };
                self.books.insert(i, book);
                proof {
                    assert(self.books() =~= bs.update(i as int, book));
                    assert forall|a: int, b: int| 0 <= a < b < self.books().len() implies
                        (#[trigger] self.books()[a]).symbol() != (#[trigger] self.books()[b]).symbol() by {
                        assert(self.books()[a].symbol() == bs[a].symbol());
                        assert(self.books()[b].symbol() == bs[b].symbol());
                    }
                    if order.order_type is Market {
                        assert(fills_market_order(bs[i as int], self.books()[i as int], *order, timestamp, trades@, leftover));
                    }
                }
                trades
            },
        }
    }
}

} // verus!
