use exchange_core::gateway::{
    data_to_struct, push_be_u32, push_be_u64, read_be_u32, read_be_u64, send_status_data,
    DecodeError, Gateway,
};
use exchange_core::types::{Cmd, OrderSide, OrderStatus, OrderType, Symbol};

fn symbols() -> Vec<Symbol> {
    vec![Symbol::new("GOOG".to_string()), Symbol::new("AAPL".to_string())]
}

fn execute_payload(tag: u8, account: u32, type_id: u8, ticker: &str, thresh: u64, qty: u64) -> Vec<u8> {
    let mut data = vec![tag];
    push_be_u32(&mut data, account);
    data.push(type_id);
    data.extend_from_slice(ticker.as_bytes());
    push_be_u64(&mut data, thresh);
    push_be_u64(&mut data, qty);
    data
}

#[test]
fn be_round_trips() {
    let mut out: Vec<u8> = Vec::new();
    push_be_u32(&mut out, 0x0102_0304);
    assert_eq!(out, vec![1, 2, 3, 4]);
    assert_eq!(read_be_u32(&out, 0), 0x0102_0304);

    let mut out: Vec<u8> = Vec::new();
    push_be_u64(&mut out, 0x0102_0304_0506_0708);
    assert_eq!(out, vec![1, 2, 3, 4, 5, 6, 7, 8]);
    assert_eq!(read_be_u64(&out, 0), 0x0102_0304_0506_0708);
}

#[test]
fn decode_execute_limit() {
    // command kind 0 (execute), side 1 (sell) in the upper bits: tag 0b100
    let data = execute_payload(4, 9, 1, "AAPL", 250, 12);
    match data_to_struct(&data, &symbols()) {
        Ok(Cmd::Execute(info)) => {
            assert_eq!(info.account_id, 9);
            assert_eq!(info.symbol.ticker(), "AAPL");
            assert_eq!(info.order_type, OrderType::Limit(250));
            assert_eq!(info.side, OrderSide::Sell);
            assert_eq!(info.quantity, 12);
        },
        other => panic!("expected an execute command, got {:?}", other.is_ok()),
    }
}

#[test]
fn decode_execute_market_ignores_threshold() {
    let data = execute_payload(0, 3, 0, "GOOG", 999, 5);
    match data_to_struct(&data, &symbols()) {
        Ok(Cmd::Execute(info)) => {
            assert_eq!(info.order_type, OrderType::Market);
            assert_eq!(info.side, OrderSide::Buy);
            assert_eq!(info.symbol.ticker(), "GOOG");
        },
        _ => panic!("expected an execute command"),
    }
}

#[test]
fn decode_status_and_cancel() {
    let mut data = vec![2u8];
    push_be_u32(&mut data, 7);
    push_be_u32(&mut data, 42);
    match data_to_struct(&data, &symbols()) {
        Ok(Cmd::Status(info)) => {
            assert_eq!(info.consume(), (7, 42));
        },
        _ => panic!("expected a status command"),
    }

    let mut data = vec![3u8];
    push_be_u32(&mut data, 7);
    push_be_u32(&mut data, 42);
    match data_to_struct(&data, &symbols()) {
        Ok(Cmd::Cancel(info)) => {
            assert_eq!(info.consume(), (7, 42));
        },
        _ => panic!("expected a cancel command"),
    }
}

#[test]
fn decode_errors() {
    // too short for even the header
    assert_eq!(data_to_struct(&vec![0, 1, 2], &symbols()).err(), Some(DecodeError::TooShort));
    // command id 1 is unassigned
    let mut data = vec![1u8];
    push_be_u32(&mut data, 0);
    assert_eq!(data_to_struct(&data, &symbols()).err(), Some(DecodeError::UnknownCommand));
    // execute header too short
    let mut data = vec![0u8];
    push_be_u32(&mut data, 0);
    assert_eq!(data_to_struct(&data, &symbols()).err(), Some(DecodeError::TooShort));
    // side bits out of range: 0b1000 has side id 2
    let data = execute_payload(8, 0, 0, "GOOG", 0, 1);
    assert_eq!(data_to_struct(&data, &symbols()).err(), Some(DecodeError::UnknownSide));
    // order type byte out of range
    let data = execute_payload(0, 0, 9, "GOOG", 0, 1);
    assert_eq!(data_to_struct(&data, &symbols()).err(), Some(DecodeError::UnknownOrderType));
    // a ticker outside the registry
    let data = execute_payload(0, 0, 0, "MSFT", 0, 1);
    assert_eq!(data_to_struct(&data, &symbols()).err(), Some(DecodeError::UnknownTicker));
}

#[test]
fn encode_statuses() {
    let mut expected = vec![5u8, 2u8];
    push_be_u32(&mut expected, 7);
    assert_eq!(send_status_data(OrderStatus::Waiting(7)), expected);

    let mut expected = vec![13u8, 0u8];
    push_be_u32(&mut expected, 7);
    push_be_u64(&mut expected, 400);
    assert_eq!(send_status_data(OrderStatus::Filled(7, 400)), expected);

    let mut expected = vec![21u8, 1u8];
    push_be_u32(&mut expected, 7);
    push_be_u64(&mut expected, 4);
    push_be_u64(&mut expected, 400);
    assert_eq!(send_status_data(OrderStatus::PartiallyFilled(7, 4, 400)), expected);

    let mut expected = vec![5u8, 4u8];
    push_be_u32(&mut expected, 7);
    assert_eq!(send_status_data(OrderStatus::Canceled(7)), expected);

    let reason = "no";
    let mut expected = vec![15u8, 3u8];
    push_be_u32(&mut expected, 7);
    push_be_u64(&mut expected, 2);
    expected.extend_from_slice(reason.as_bytes());
    assert_eq!(send_status_data(OrderStatus::Rejected(7, reason)), expected);
}

#[test]
fn gateway_identity() {
    let gateway = Gateway::new("0.0.0.0", 8888);
    assert_eq!(gateway.ip_addr, "0.0.0.0");
    assert_eq!(gateway.port, 8888);
}
