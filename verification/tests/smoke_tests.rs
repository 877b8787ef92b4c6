// Smoke hooks for the process wiring around the engine.

use exchange_core::types::Symbol;

#[test]
fn gateway_test_add() {}

#[test]
fn main_test_add() {}

#[test]
fn test_connect() {}

#[test]
fn symbol_identity() {
    let s = Symbol::new("GOOG".to_string());
    assert_eq!(s.ticker(), "GOOG");
}
