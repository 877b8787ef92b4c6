use exchange_core::matching_engine::MatchingEngine;
use exchange_core::order_book::InvalidOrderId;
use exchange_core::types::{OrderInfo, OrderSide, OrderStatus, OrderType, Symbol};

fn engine_for(tickers: &[&str]) -> MatchingEngine {
    let mut symbols = Vec::new();
    for t in tickers {
        symbols.push(Symbol::new(t.to_string()));
    }
    MatchingEngine::new(symbols)
}

fn buy_limit(price: u64, qty: u64) -> OrderInfo {
    OrderInfo::new(1, Symbol::new("X".to_string()), OrderType::Limit(price), OrderSide::Buy, qty)
}

fn sell_limit(price: u64, qty: u64) -> OrderInfo {
    OrderInfo::new(2, Symbol::new("X".to_string()), OrderType::Limit(price), OrderSide::Sell, qty)
}

fn buy_market(qty: u64) -> OrderInfo {
    OrderInfo::new(1, Symbol::new("X".to_string()), OrderType::Market, OrderSide::Buy, qty)
}

fn sell_market(qty: u64) -> OrderInfo {
    OrderInfo::new(2, Symbol::new("X".to_string()), OrderType::Market, OrderSide::Sell, qty)
}

#[test]
fn partial_fill_against_resting_bid() {
    let mut engine = engine_for(&["X"]);
    let (st, pi) = engine.place_order(buy_limit(100, 10));
    assert_eq!(st, OrderStatus::Waiting(0));
    let pi = pi.expect("a new best bid must be published");
    assert_eq!(pi.best_bid, 100);
    assert_eq!(pi.bid_size, 10);
    assert_eq!(pi.best_ask, 0);
    assert_eq!(pi.ask_size, 0);

    let (st, pi) = engine.place_order(sell_limit(100, 4));
    assert_eq!(st, OrderStatus::Filled(1, 400));
    let pi = pi.expect("the bid size shrank, so an update must be published");
    assert_eq!(pi.best_bid, 100);
    assert_eq!(pi.bid_size, 6);

    assert_eq!(engine.status(0), Ok(OrderStatus::PartiallyFilled(0, 4, 400)));
    assert_eq!(engine.status(1), Ok(OrderStatus::Filled(1, 400)));
}

#[test]
fn resting_market_order_fills_at_incoming_limit_price() {
    let mut engine = engine_for(&["X"]);
    let (st, _) = engine.place_order(sell_market(5));
    assert_eq!(st, OrderStatus::Waiting(0));

    let (st, _) = engine.place_order(buy_limit(50, 5));
    assert_eq!(st, OrderStatus::Filled(1, 250));
    assert_eq!(engine.status(0), Ok(OrderStatus::Filled(0, 250)));
    assert_eq!(engine.status(1), Ok(OrderStatus::Filled(1, 250)));
}

#[test]
fn cancel_before_fill_then_query() {
    let mut engine = engine_for(&["X"]);
    let (st, _) = engine.place_order(buy_limit(10, 100));
    assert_eq!(st, OrderStatus::Waiting(0));

    assert_eq!(engine.cancel(0), Ok(OrderStatus::Canceled(0)));
    assert_eq!(engine.status(0), Ok(OrderStatus::Canceled(0)));
    // canceling again is idempotent, not an error
    assert_eq!(engine.cancel(0), Ok(OrderStatus::Canceled(0)));
}

#[test]
fn cancel_after_full_fill_reports_the_terminal_status() {
    let mut engine = engine_for(&["X"]);
    let (st, _) = engine.place_order(buy_limit(100, 4));
    assert_eq!(st, OrderStatus::Waiting(0));
    let (st, _) = engine.place_order(sell_limit(100, 4));
    assert_eq!(st, OrderStatus::Filled(1, 400));
    // canceling a fully filled order does not cancel it: it stays filled
    assert_eq!(engine.cancel(0), Ok(OrderStatus::Filled(0, 400)));
    assert_eq!(engine.status(0), Ok(OrderStatus::Filled(0, 400)));
}

#[test]
fn conservation_across_partial_fills() {
    let mut engine = engine_for(&["X"]);
    let (st, _) = engine.place_order(buy_limit(10, 100));
    assert_eq!(st, OrderStatus::Waiting(0));
    // three sells chip away at the resting buy; every share removed from one
    // side shows up as filled quantity on the other
    let (st, _) = engine.place_order(sell_limit(10, 30));
    assert_eq!(st, OrderStatus::Filled(1, 300));
    let (st, _) = engine.place_order(sell_limit(10, 20));
    assert_eq!(st, OrderStatus::Filled(2, 200));
    assert_eq!(engine.status(0), Ok(OrderStatus::PartiallyFilled(0, 50, 500)));
    let (st, _) = engine.place_order(sell_limit(10, 50));
    assert_eq!(st, OrderStatus::Filled(3, 500));
    assert_eq!(engine.status(0), Ok(OrderStatus::Filled(0, 1000)));
}

#[test]
fn price_time_priority_at_one_level() {
    let mut engine = engine_for(&["X"]);
    let (st, _) = engine.place_order(buy_limit(20, 10));
    assert_eq!(st, OrderStatus::Waiting(0));
    let (st, _) = engine.place_order(buy_limit(20, 10));
    assert_eq!(st, OrderStatus::Waiting(1));

    let (st, _) = engine.place_order(sell_market(10));
    assert_eq!(st, OrderStatus::Filled(2, 200));
    // only the earlier buy order is filled; the later one still waits
    assert_eq!(engine.status(0), Ok(OrderStatus::Filled(0, 200)));
    assert_eq!(engine.status(1), Ok(OrderStatus::Waiting(1)));
}

#[test]
fn market_order_with_no_liquidity_rests() {
    let mut engine = engine_for(&["X"]);
    let (st, pi) = engine.place_order(buy_market(7));
    assert_eq!(st, OrderStatus::Waiting(0));
    assert!(pi.is_none());
}

#[test]
fn better_priced_level_fills_first() {
    let mut engine = engine_for(&["X"]);
    let (st, _) = engine.place_order(sell_limit(30, 5));
    assert_eq!(st, OrderStatus::Waiting(0));
    let (st, _) = engine.place_order(sell_limit(20, 5));
    assert_eq!(st, OrderStatus::Waiting(1));

    // a buy for 5 at 30 takes the cheaper ask first, at the incoming price
    let (st, _) = engine.place_order(buy_limit(30, 5));
    assert_eq!(st, OrderStatus::Filled(2, 150));
    assert_eq!(engine.status(1), Ok(OrderStatus::Filled(1, 150)));
    assert_eq!(engine.status(0), Ok(OrderStatus::Waiting(0)));
}

#[test]
fn unknown_instrument_is_rejected_without_consuming_an_id() {
    let mut engine = engine_for(&["X"]);
    let bad = OrderInfo::new(1, Symbol::new("Y".to_string()), OrderType::Market, OrderSide::Buy, 1);
    let (st, pi) = engine.place_order(bad);
    assert_eq!(st, OrderStatus::Rejected(0, "symbol does not exist"));
    assert!(pi.is_none());
    // the id was not consumed: the next accepted order is order 0
    let (st, _) = engine.place_order(buy_limit(5, 1));
    assert_eq!(st, OrderStatus::Waiting(0));
}

#[test]
fn unknown_order_id_is_an_error() {
    let mut engine = engine_for(&["X"]);
    assert_eq!(engine.status(99), Err(InvalidOrderId));
    assert_eq!(engine.cancel(99), Err(InvalidOrderId));
}

#[test]
fn stop_order_rests_unactivated() {
    let mut engine = engine_for(&["X"]);
    let stop = OrderInfo::new(1, Symbol::new("X".to_string()), OrderType::Stop(40), OrderSide::Buy, 3);
    let (st, _) = engine.place_order(stop);
    assert_eq!(st, OrderStatus::Waiting(0));
    // it does not trade against incoming liquidity
    let (st, _) = engine.place_order(sell_limit(40, 3));
    assert_eq!(st, OrderStatus::Waiting(1));
    assert_eq!(engine.status(0), Ok(OrderStatus::Waiting(0)));
    // but it can be canceled
    assert_eq!(engine.cancel(0), Ok(OrderStatus::Canceled(0)));
}

#[test]
fn routing_across_instruments() {
    let mut engine = engine_for(&["X", "Y"]);
    let on_y = OrderInfo::new(1, Symbol::new("Y".to_string()), OrderType::Limit(7), OrderSide::Buy, 2);
    let (st, _) = engine.place_order(on_y);
    assert_eq!(st, OrderStatus::Waiting(0));
    // liquidity on Y does not fill an order on X
    let (st, _) = engine.place_order(sell_limit(7, 2));
    assert_eq!(st, OrderStatus::Waiting(1));
    assert_eq!(engine.status(0), Ok(OrderStatus::Waiting(0)));
    assert_eq!(engine.status(1), Ok(OrderStatus::Waiting(1)));
}
