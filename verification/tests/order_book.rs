use qfin_twin::config::AgentType;
use qfin_twin::market::exchange::{last_trade_price, Exchange};
use qfin_twin::market::order_book::OrderBook;
use qfin_twin::types::{signed_fill_quantity, AgentId, Order, OrderId, OrderType, Side, Trade};

const TS: i64 = 1_700_000_000_000_000;

fn order(id: u128, agent_type: AgentType, side: Side, order_type: OrderType, quantity: u64) -> Order {
    Order {
        order_id: OrderId(id),
        agent_id: AgentId(1000 + id),
        agent_type,
        symbol: "TECH".to_string(),
        side,
        order_type,
        quantity,
        timestamp: 0,
        tick: 7,
    }
}

fn limit(id: u128, side: Side, price_ticks: u64, quantity: u64) -> Order {
    order(id, AgentType::MarketMaker, side, OrderType::Limit { price: price_ticks }, quantity)
}

fn market(id: u128, side: Side, quantity: u64) -> Order {
    order(id, AgentType::Momentum, side, OrderType::Market, quantity)
}

#[test]
fn empty_book_has_no_prices_and_no_volume() {
    let book = OrderBook::new("TECH".to_string());
    assert_eq!(book.best_bid(), None);
    assert_eq!(book.best_ask(), None);
    assert_eq!(book.total_bid_volume(), 0);
    assert_eq!(book.total_ask_volume(), 0);
    assert_eq!(book.symbol_name(), "TECH");
}

#[test]
fn best_prices_are_highest_bid_and_lowest_ask() {
    let mut book = OrderBook::new("TECH".to_string());
    book.add_order(limit(1, Side::Buy, 9_950, 10));
    book.add_order(limit(2, Side::Buy, 9_990, 20));
    book.add_order(limit(3, Side::Buy, 9_900, 30));
    book.add_order(limit(4, Side::Sell, 10_050, 5));
    book.add_order(limit(5, Side::Sell, 10_010, 6));
    book.add_order(limit(6, Side::Sell, 10_100, 7));
    assert_eq!(book.best_bid(), Some(9_990));
    assert_eq!(book.best_ask(), Some(10_010));
    assert_eq!(book.total_bid_volume(), 60);
    assert_eq!(book.total_ask_volume(), 18);
}

#[test]
fn resting_a_better_bid_moves_the_best_bid_and_a_worse_one_does_not() {
    let mut book = OrderBook::new("TECH".to_string());
    book.add_order(limit(1, Side::Buy, 100, 1));
    assert_eq!(book.best_bid(), Some(100));
    book.add_order(limit(2, Side::Buy, 90, 1));
    assert_eq!(book.best_bid(), Some(100));
    book.add_order(limit(3, Side::Buy, 105, 1));
    assert_eq!(book.best_bid(), Some(105));
    book.add_order(limit(4, Side::Sell, 120, 1));
    book.add_order(limit(5, Side::Sell, 110, 1));
    assert_eq!(book.best_ask(), Some(110));
}

#[test]
fn market_orders_do_not_rest() {
    let mut book = OrderBook::new("TECH".to_string());
    book.add_order(market(1, Side::Buy, 50));
    book.add_order(market(2, Side::Sell, 50));
    assert_eq!(book.best_bid(), None);
    assert_eq!(book.best_ask(), None);
    assert_eq!(book.total_bid_volume(), 0);
}

#[test]
fn market_buy_sweeps_asks_best_price_first_and_fifo_within_a_level() {
    let mut book = OrderBook::new("TECH".to_string());
    book.add_order(limit(1, Side::Sell, 101, 10));
    book.add_order(limit(2, Side::Sell, 100, 4));
    book.add_order(limit(3, Side::Sell, 100, 5));
    book.add_order(limit(4, Side::Sell, 102, 8));
    let (trades, remainder) = book.match_market_order(&market(9, Side::Buy, 15), TS);
    let fills: Vec<(u128, u64, u64)> = trades.iter().map(|t| (t.sell_order_id.0, t.price, t.quantity)).collect();
    assert_eq!(fills, vec![(2, 100, 4), (3, 100, 5), (1, 101, 6)]);
    assert!(remainder.is_none());
    for t in &trades {
        assert_eq!(t.buy_order_id, OrderId(9));
        assert_eq!(t.buyer_type, AgentType::Momentum);
        assert_eq!(t.seller_type, AgentType::MarketMaker);
        assert_eq!(t.symbol, "TECH");
        assert_eq!(t.tick, 7);
    }
    // level 100 is gone; 4 units remain of order 1 at 101, ahead of level 102
    assert_eq!(book.best_ask(), Some(101));
    assert_eq!(book.total_ask_volume(), 12);
    let (trades, _) = book.match_market_order(&market(10, Side::Buy, 4), TS);
    assert_eq!(trades.len(), 1);
    assert_eq!(trades[0].sell_order_id, OrderId(1));
    assert_eq!(trades[0].quantity, 4);
    assert_eq!(book.best_ask(), Some(102));
}

#[test]
fn market_sell_sweeps_bids_from_the_highest() {
    let mut book = OrderBook::new("TECH".to_string());
    book.add_order(limit(1, Side::Buy, 98, 3));
    book.add_order(limit(2, Side::Buy, 99, 3));
    let (trades, remainder) = book.match_market_order(&market(5, Side::Sell, 4), TS);
    assert_eq!(trades.len(), 2);
    assert_eq!((trades[0].buy_order_id, trades[0].price, trades[0].quantity), (OrderId(2), 99, 3));
    assert_eq!((trades[1].buy_order_id, trades[1].price, trades[1].quantity), (OrderId(1), 98, 1));
    assert_eq!(trades[0].sell_order_id, OrderId(5));
    assert_eq!(trades[0].seller_type, AgentType::Momentum);
    assert!(remainder.is_none());
    assert_eq!(book.best_bid(), Some(98));
    assert_eq!(book.total_bid_volume(), 2);
}

#[test]
fn unfilled_part_of_a_market_order_is_returned() {
    let mut book = OrderBook::new("TECH".to_string());
    book.add_order(limit(1, Side::Sell, 100, 3));
    book.add_order(limit(2, Side::Sell, 105, 2));
    let ask_volume = book.total_ask_volume();
    let (trades, remainder) = book.match_market_order(&market(3, Side::Buy, 9), TS);
    let traded: u64 = trades.iter().map(|t| t.quantity).sum();
    let rest = remainder.expect("the book ran out");
    assert_eq!(traded, 5);
    assert_eq!(rest.quantity, 4);
    assert_eq!(rest.order_id, OrderId(3));
    assert_eq!(traded + rest.quantity, 9);
    assert_eq!(traded, ask_volume);
    assert_eq!(book.best_ask(), None);
    assert_eq!(book.total_ask_volume(), 0);
}

#[test]
fn market_order_against_empty_side_returns_it_whole() {
    let mut book = OrderBook::new("TECH".to_string());
    book.add_order(limit(1, Side::Buy, 100, 3));
    let (trades, remainder) = book.match_market_order(&market(2, Side::Buy, 6), TS);
    assert!(trades.is_empty());
    assert_eq!(remainder.map(|o| o.quantity), Some(6));
    assert_eq!(book.total_bid_volume(), 3);
}

#[test]
fn market_order_of_zero_quantity_trades_nothing() {
    let mut book = OrderBook::new("TECH".to_string());
    book.add_order(limit(1, Side::Sell, 100, 3));
    let (trades, remainder) = book.match_market_order(&market(2, Side::Buy, 0), TS);
    assert!(trades.is_empty());
    assert!(remainder.is_none());
    assert_eq!(book.total_ask_volume(), 3);
}

#[test]
fn zero_quantity_resting_orders_are_swept_as_empty_fills() {
    let mut book = OrderBook::new("TECH".to_string());
    book.add_order(limit(1, Side::Sell, 100, 0));
    book.add_order(limit(2, Side::Sell, 100, 2));
    let (trades, remainder) = book.match_market_order(&market(3, Side::Buy, 1), TS);
    let fills: Vec<(u128, u64)> = trades.iter().map(|t| (t.sell_order_id.0, t.quantity)).collect();
    assert_eq!(fills, vec![(1, 0), (2, 1)]);
    assert!(remainder.is_none());
    assert_eq!(book.total_ask_volume(), 1);
}

#[test]
fn trades_get_fresh_random_identifiers() {
    let mut book = OrderBook::new("TECH".to_string());
    book.add_order(limit(1, Side::Sell, 100, 1));
    book.add_order(limit(2, Side::Sell, 100, 1));
    let (trades, _) = book.match_market_order(&market(3, Side::Buy, 2), TS);
    assert_ne!(trades[0].trade_id, trades[1].trade_id);
    for t in &trades {
        assert_eq!((t.trade_id >> 76) & 0xF, 4);
        assert_eq!((t.trade_id >> 62) & 0x3, 2);
        assert_eq!(t.timestamp, TS);
    }
}

#[test]
fn exchange_routes_orders_by_symbol() {
    let mut ex = Exchange::new();
    ex.open_book("TECH".to_string());
    ex.open_book("BOND".to_string());
    let trades = ex.submit(&limit(1, Side::Sell, 100, 5), TS);
    assert!(trades.is_empty());
    let mut bond = limit(2, Side::Sell, 50, 5);
    bond.symbol = "BOND".to_string();
    ex.submit(&bond, TS);
    let trades = ex.submit(&market(3, Side::Buy, 2), TS);
    assert_eq!(trades.len(), 1);
    assert_eq!((trades[0].price, trades[0].quantity), (100, 2));
    assert_eq!(ex.book("TECH").map(|b| b.total_ask_volume()), Some(3));
    assert_eq!(ex.book("BOND").map(|b| b.total_ask_volume()), Some(5));
    let mut unknown = market(4, Side::Buy, 2);
    unknown.symbol = "GOLD".to_string();
    assert!(ex.submit(&unknown, TS).is_empty());
    assert!(ex.book("GOLD").is_none());
}

#[test]
fn exchange_drops_the_unfilled_part_of_market_orders() {
    let mut ex = Exchange::new();
    ex.open_book("TECH".to_string());
    ex.submit(&limit(1, Side::Buy, 100, 2), TS);
    let trades = ex.submit(&market(2, Side::Sell, 10), TS);
    assert_eq!(trades.len(), 1);
    let book = ex.book("TECH").unwrap();
    assert_eq!(book.total_bid_volume(), 0);
    assert_eq!(book.total_ask_volume(), 0);
}

#[test]
fn reopening_a_book_replaces_it_with_an_empty_one() {
    let mut ex = Exchange::new();
    ex.open_book("TECH".to_string());
    ex.submit(&limit(1, Side::Buy, 100, 2), TS);
    ex.open_book("TECH".to_string());
    assert_eq!(ex.book("TECH").map(|b| b.total_bid_volume()), Some(0));
}

#[test]
fn last_trade_price_finds_the_most_recent_trade_in_the_symbol() {
    let mut ex = Exchange::new();
    ex.open_book("TECH".to_string());
    ex.open_book("BOND".to_string());
    ex.submit(&limit(1, Side::Sell, 100, 1), TS);
    ex.submit(&limit(2, Side::Sell, 101, 1), TS);
    let mut bond = limit(3, Side::Sell, 50, 1);
    bond.symbol = "BOND".to_string();
    ex.submit(&bond, TS);
    let mut trades: Vec<Trade> = ex.submit(&market(4, Side::Buy, 2), TS);
    let mut bond_buy = market(5, Side::Buy, 1);
    bond_buy.symbol = "BOND".to_string();
    trades.extend(ex.submit(&bond_buy, TS));
    assert_eq!(last_trade_price(&trades, "TECH"), Some(101));
    assert_eq!(last_trade_price(&trades, "BOND"), Some(50));
    assert_eq!(last_trade_price(&trades, "GOLD"), None);
    assert_eq!(last_trade_price(&[], "TECH"), None);
}

#[test]
fn quantity_delta_is_signed_by_the_agents_side() {
    let mut book = OrderBook::new("TECH".to_string());
    book.add_order(limit(1, Side::Sell, 100, 3));
    let (trades, _) = book.match_market_order(&market(2, Side::Buy, 3), TS);
    let t = &trades[0];
    assert_eq!(t.buyer_id, AgentId(1002));
    assert_eq!(t.seller_id, AgentId(1001));
    assert_eq!(t.quantity_delta_for(AgentId(1002)), 3);
    assert_eq!(t.quantity_delta_for(AgentId(1001)), -3);
    assert_eq!(t.quantity_delta_for(AgentId(77)), 0);
    assert_eq!(signed_fill_quantity(AgentId(5), AgentId(5), 4, AgentId(5)), 0);
}

#[test]
fn no_level_left_is_better_than_any_fill() {
    let mut book = OrderBook::new("TECH".to_string());
    for (id, price, qty) in [(1u128, 103u64, 2u64), (2, 101, 2), (3, 102, 2), (4, 101, 1), (5, 104, 9)] {
        book.add_order(limit(id, Side::Sell, price, qty));
    }
    let (trades, _) = book.match_market_order(&market(9, Side::Buy, 6), TS);
    let prices: Vec<u64> = trades.iter().map(|t| t.price).collect();
    assert_eq!(prices, vec![101, 101, 102, 103]);
    assert!(prices.windows(2).all(|w| w[0] <= w[1]));
    let best_left = book.best_ask().unwrap();
    assert!(prices.iter().all(|&p| p <= best_left));
    assert_eq!(best_left, 103);
    assert_eq!(book.total_ask_volume(), 10);
}

#[test]
fn best_price_exists_exactly_when_the_side_holds_volume() {
    let mut book = OrderBook::new("TECH".to_string());
    let check = |b: &OrderBook| {
        assert_eq!(b.best_bid().is_some(), b.total_bid_volume() > 0);
        assert_eq!(b.best_ask().is_some(), b.total_ask_volume() > 0);
    };
    check(&book);
    book.add_order(limit(1, Side::Sell, 100, 2));
    book.add_order(limit(2, Side::Buy, 90, 1));
    check(&book);
    book.match_market_order(&market(3, Side::Buy, 2), TS);
    check(&book);
    book.match_market_order(&market(4, Side::Sell, 5), TS);
    check(&book);
    assert_eq!(book.best_bid(), None);
    assert_eq!(book.best_ask(), None);
}
