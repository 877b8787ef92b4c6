use exchange_core::market_data::MarketDataProvider;
use exchange_core::matching_engine::{process_orders, MatchingEngine};
use exchange_core::order_book::OrderBook;
use exchange_core::types::{
    CancelInfo, Cmd, Order, OrderInfo, OrderSide, OrderStatus, OrderType, StatusInfo, Symbol,
};

fn fresh_order(id: u32, order_type: OrderType, side: OrderSide, qty: u64) -> Order {
    OrderInfo::new(1, Symbol::new("X".to_string()), order_type, side, qty).consume(id)
}

#[test]
fn book_matches_and_reports_top_of_book() {
    let mut book = OrderBook::new(Symbol::new("X".to_string()));
    let st = book.order(fresh_order(0, OrderType::Limit(100), OrderSide::Buy, 10));
    assert_eq!(st, OrderStatus::Waiting(0));
    assert_eq!(book.get_top_level(), (100, 10, 0, 0));

    let st = book.order(fresh_order(1, OrderType::Limit(105), OrderSide::Sell, 3));
    assert_eq!(st, OrderStatus::Waiting(1));
    assert_eq!(book.get_top_level(), (100, 10, 105, 3));

    let st = book.order(fresh_order(2, OrderType::Limit(105), OrderSide::Buy, 3));
    assert_eq!(st, OrderStatus::Filled(2, 315));
    assert_eq!(book.get_top_level(), (100, 10, 0, 0));
    assert_eq!(book.status(1), Ok(OrderStatus::Filled(1, 315)));
}

#[test]
fn order_fill_state_accounting() {
    let mut order = fresh_order(5, OrderType::Limit(10), OrderSide::Buy, 8);
    assert_eq!(order.get_status_based_on_fill(), OrderStatus::Waiting(5));
    assert!(!order.is_fully_filled());
    order.fill_shares(3, 10);
    assert_eq!(order.get_status_based_on_fill(), OrderStatus::PartiallyFilled(5, 3, 30));
    order.fill_shares(5, 10);
    assert!(order.is_fully_filled());
    assert_eq!(order.get_status_based_on_fill(), OrderStatus::Filled(5, 80));
}

#[test]
fn empty_levels_are_pruned() {
    let mut book = OrderBook::new(Symbol::new("X".to_string()));
    let st = book.order(fresh_order(0, OrderType::Limit(50), OrderSide::Sell, 2));
    assert_eq!(st, OrderStatus::Waiting(0));
    assert_eq!(book.asks.len(), 1);
    // consuming the whole level removes the level, not just the order
    let st = book.order(fresh_order(1, OrderType::Market, OrderSide::Buy, 2));
    assert_eq!(st, OrderStatus::Filled(1, 100));
    assert_eq!(book.asks.len(), 0);
    // pruning an already pruned book changes nothing
    book.delete_empty_price_levels();
    assert_eq!(book.asks.len(), 0);
    assert_eq!(book.bids.len(), 0);
}

#[test]
fn cancel_unlinks_the_resting_order() {
    let mut book = OrderBook::new(Symbol::new("X".to_string()));
    let _ = book.order(fresh_order(0, OrderType::Limit(50), OrderSide::Buy, 2));
    let _ = book.order(fresh_order(1, OrderType::Limit(50), OrderSide::Buy, 3));
    assert_eq!(book.get_top_level(), (50, 5, 0, 0));
    assert_eq!(book.cancel(0), Ok(OrderStatus::Canceled(0)));
    assert_eq!(book.get_top_level(), (50, 3, 0, 0));
    // the level survives while the other order rests at it
    assert_eq!(book.bids.len(), 1);
    assert_eq!(book.cancel(1), Ok(OrderStatus::Canceled(1)));
    assert_eq!(book.bids.len(), 0);
}

#[test]
fn process_orders_replies_in_fifo_order() {
    let mut engine = MatchingEngine::new(vec![Symbol::new("X".to_string())]);
    let cmds = vec![
        Cmd::Execute(OrderInfo::new(1, Symbol::new("X".to_string()), OrderType::Limit(100), OrderSide::Buy, 10)),
        Cmd::Execute(OrderInfo::new(2, Symbol::new("X".to_string()), OrderType::Limit(100), OrderSide::Sell, 4)),
        Cmd::Status(StatusInfo::new(1, 0)),
        Cmd::Cancel(CancelInfo::new(1, 0)),
        Cmd::Status(StatusInfo::new(1, 9)),
    ];
    let replies = process_orders(&mut engine, cmds);
    assert_eq!(replies.len(), 5);
    assert_eq!(replies[0].0, Ok(OrderStatus::Waiting(0)));
    assert_eq!(replies[1].0, Ok(OrderStatus::Filled(1, 400)));
    assert_eq!(replies[2].0, Ok(OrderStatus::PartiallyFilled(0, 4, 400)));
    assert_eq!(replies[3].0, Ok(OrderStatus::Canceled(0)));
    assert!(replies[4].0.is_err());
}

#[test]
fn market_data_table_updates_and_renders() {
    let mut provider = MarketDataProvider::new(
        "0.0.0.0",
        4567,
        vec![Symbol::new("GOOG".to_string())],
    );
    provider.update_price(exchange_core::types::PriceInfo::new(
        Symbol::new("GOOG".to_string()),
        10,
        1000,
        20,
        2000,
    ));
    let bytes = provider.snapshot_bytes();
    assert_eq!(bytes.len(), 36);
    assert_eq!(&bytes[0..4], "GOOG".as_bytes());
    let mut expected = Vec::new();
    exchange_core::gateway::push_be_u64(&mut expected, 10);
    exchange_core::gateway::push_be_u64(&mut expected, 1000);
    exchange_core::gateway::push_be_u64(&mut expected, 20);
    exchange_core::gateway::push_be_u64(&mut expected, 2000);
    assert_eq!(&bytes[4..36], expected.as_slice());
    // an unknown instrument joins the table instead of replacing an entry
    provider.update_price(exchange_core::types::PriceInfo::new(
        Symbol::new("AAPL".to_string()),
        1,
        2,
        3,
        4,
    ));
    assert_eq!(provider.snapshot_bytes().len(), 72);
}
