use matching_engine::engine::{Engine, EngineError};
use matching_engine::types::{
    Order, OrderSide, OrderStatus, OrderType, SequenceGenerator, TimestampGenerator,
};
use matching_engine::wal::WAL;

fn engine_request(
    market: &str,
    side: OrderSide,
    order_type: OrderType,
    price: Option<u64>,
    quantity: u64,
) -> Order {
    Order::new(
        uuid::Uuid::new_v4().as_u128(),
        market.to_string(),
        "trader".to_string(),
        side,
        order_type,
        price,
        quantity,
        TimestampGenerator::now_ns(),
        0,
    )
}

#[test]
fn engine_rejects_zero_quantity() {
    let mut engine = Engine::new("m".to_string(), WAL::new(0));
    let r = engine.place(engine_request("m", OrderSide::Buy, OrderType::Limit, Some(50), 0));
    assert_eq!(r.unwrap_err(), EngineError::InvalidQuantity);
    assert_eq!(engine.current_sequence(), 0);
}

#[test]
fn engine_rejects_limit_without_price() {
    let mut engine = Engine::new("m".to_string(), WAL::new(0));
    let r = engine.place(engine_request("m", OrderSide::Buy, OrderType::Limit, None, 5));
    assert_eq!(r.unwrap_err(), EngineError::MissingPrice);
}

#[test]
fn engine_rejects_priced_market_order() {
    let mut engine = Engine::new("m".to_string(), WAL::new(0));
    let r = engine.place(engine_request("m", OrderSide::Buy, OrderType::Market, Some(50), 5));
    assert_eq!(r.unwrap_err(), EngineError::UnexpectedPrice);
    let r2 = engine.place(engine_request("m", OrderSide::Sell, OrderType::IOC, Some(50), 5));
    assert_eq!(r2.unwrap_err(), EngineError::UnexpectedPrice);
}

#[test]
fn engine_rejects_foreign_market() {
    let mut engine = Engine::new("m".to_string(), WAL::new(0));
    let r = engine.place(engine_request("other", OrderSide::Buy, OrderType::Limit, Some(50), 5));
    assert_eq!(r.unwrap_err(), EngineError::WrongMarket);
}

#[test]
fn engine_rejects_partly_filled_request() {
    let mut engine = Engine::new("m".to_string(), WAL::new(0));
    let mut o = engine_request("m", OrderSide::Buy, OrderType::Limit, Some(50), 5);
    o.fill(2, 50);
    let r = engine.place(o);
    assert_eq!(r.unwrap_err(), EngineError::NotFresh);
}

#[test]
fn engine_rejects_duplicate_active_id() {
    let mut engine = Engine::new("m".to_string(), WAL::new(0));
    let first = engine_request("m", OrderSide::Buy, OrderType::Limit, Some(50), 5);
    let mut twin = engine_request("m", OrderSide::Buy, OrderType::Limit, Some(51), 5);
    twin.id = first.id;
    engine.place(first).unwrap();
    let r = engine.place(twin);
    assert_eq!(r.unwrap_err(), EngineError::DuplicateOrderId);
}

#[test]
fn engine_cancel_unknown_is_not_found() {
    let mut engine = Engine::new("m".to_string(), WAL::new(0));
    let r = engine.cancel(424242);
    assert_eq!(r.unwrap_err(), EngineError::NotFound);
}

#[test]
fn engine_status_reports_resting_order() {
    let mut engine = Engine::new("m".to_string(), WAL::new(0));
    let o = engine_request("m", OrderSide::Sell, OrderType::Limit, Some(60), 4);
    let oid = o.id;
    let (_, _, status, seq) = engine.place(o).unwrap();
    assert_eq!(status, OrderStatus::Pending);
    assert_eq!(seq, 1);

    let stored = engine.status(oid).unwrap();
    assert_eq!(stored.remaining_quantity, 4);
    assert_eq!(stored.price, Some(60));
}

#[test]
fn engine_full_fill_reports_filled() {
    let mut engine = Engine::new("m".to_string(), WAL::new(0));
    engine
        .place(engine_request("m", OrderSide::Sell, OrderType::Limit, Some(50), 5))
        .unwrap();
    let (_, residual, status, _) = engine
        .place(engine_request("m", OrderSide::Buy, OrderType::Limit, Some(50), 5))
        .unwrap();
    assert!(residual.is_none());
    assert_eq!(status, OrderStatus::Filled);
}

#[test]
fn sequence_generator_is_strictly_monotonic() {
    let mut g = SequenceGenerator::new(7);
    assert_eq!(g.current(), 7);
    assert_eq!(g.next(), 8);
    assert_eq!(g.next(), 9);
    assert_eq!(g.current(), 9);
}

#[test]
fn order_fill_caps_at_remaining() {
    let mut o = Order::new(
        1,
        "m".to_string(),
        "u".to_string(),
        OrderSide::Buy,
        OrderType::Limit,
        Some(10),
        6,
        0,
        1,
    );
    o.fill(4, 10);
    assert_eq!(o.remaining_quantity, 2);
    assert_eq!(o.filled_quantity, 4);
    assert_eq!(o.status, OrderStatus::PartiallyFilled);
    o.fill(100, 10);
    assert_eq!(o.remaining_quantity, 0);
    assert_eq!(o.filled_quantity, 6);
    assert_eq!(o.status, OrderStatus::Filled);
    assert!(o.is_filled());
}

#[test]
fn timestamp_generator_runs() {
    let a = TimestampGenerator::now_ns();
    let b = TimestampGenerator::now_ns();
    assert!(b >= a);
}

#[test]
fn engine_refuses_exhausted_sequence_space() {
    let mut engine = Engine::new("m".to_string(), WAL::new(i64::MAX));
    let r = engine.place(engine_request("m", OrderSide::Buy, OrderType::Limit, Some(50), 5));
    assert_eq!(r.unwrap_err(), EngineError::SequenceExhausted);
}

#[test]
fn snapshot_manager_remembers_directory() {
    let mgr = matching_engine::snapshot::SnapshotManager::new("/tmp/snaps".to_string());
    assert_eq!(mgr.dir(), "/tmp/snaps");
}
