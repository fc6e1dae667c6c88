use matching_engine::matching::MatchingEngine;
use matching_engine::types::{Event, Order, OrderSide, OrderStatus, OrderType, TimestampGenerator};

fn fresh_order(
    user: &str,
    side: OrderSide,
    order_type: OrderType,
    price: Option<u64>,
    quantity: u64,
    sequence: i64,
) -> Order {
    Order::new(
        uuid::Uuid::new_v4().as_u128(),
        "test".to_string(),
        user.to_string(),
        side,
        order_type,
        price,
        quantity,
        TimestampGenerator::now_ns(),
        sequence,
    )
}

#[test]
fn test_limit_order_immediate_match() {
    let mut engine = MatchingEngine::new("test".to_string(), 0);

    let sell_order = fresh_order("user1", OrderSide::Sell, OrderType::Limit, Some(50), 10, 1);
    engine.orderbook().add_order(sell_order);

    let buy_order = fresh_order("user2", OrderSide::Buy, OrderType::Limit, Some(51), 5, 2);

    let (trades, remaining, _) = engine.match_order(buy_order);

    assert_eq!(trades.len(), 1);
    assert_eq!(trades[0].quantity, 5);
    assert_eq!(trades[0].price, 50);
    assert!(remaining.is_none());
}

#[test]
fn test_limit_order_partial_fill() {
    let mut engine = MatchingEngine::new("test".to_string(), 0);

    let sell_order = fresh_order("user1", OrderSide::Sell, OrderType::Limit, Some(50), 5, 1);
    engine.orderbook().add_order(sell_order);

    let buy_order = fresh_order("user2", OrderSide::Buy, OrderType::Limit, Some(51), 10, 2);

    let (trades, remaining, _) = engine.match_order(buy_order.clone());

    assert_eq!(trades.len(), 1);
    assert_eq!(trades[0].quantity, 5);

    assert!(remaining.is_some());
    let rem = remaining.unwrap();
    assert_eq!(rem.remaining_quantity, 5);
}

#[test]
fn test_market_order_full_fill() {
    let mut engine = MatchingEngine::new("test".to_string(), 0);

    let sell_order = fresh_order("user1", OrderSide::Sell, OrderType::Limit, Some(50), 10, 1);
    engine.orderbook().add_order(sell_order);

    let buy_order = fresh_order("user2", OrderSide::Buy, OrderType::Market, None, 5, 2);

    let (trades, remaining, _) = engine.match_order(buy_order);

    assert_eq!(trades.len(), 1);
    assert_eq!(trades[0].quantity, 5);
    assert!(remaining.is_none());
}

#[test]
fn test_ioc_order_cancels_remaining() {
    let mut engine = MatchingEngine::new("test".to_string(), 0);

    let sell_order = fresh_order("user1", OrderSide::Sell, OrderType::Limit, Some(50), 5, 1);
    engine.orderbook().add_order(sell_order);

    let buy_order = fresh_order("user2", OrderSide::Buy, OrderType::IOC, None, 10, 2);

    let (trades, remaining, events) = engine.match_order(buy_order);

    assert_eq!(trades.len(), 1);
    assert_eq!(trades[0].quantity, 5);

    // The residual is cancelled, not rested: it comes back marked so.
    let rem = remaining.unwrap();
    assert_eq!(rem.remaining_quantity, 5);
    assert_eq!(rem.status, OrderStatus::Cancelled);

    let has_cancel = events.iter().any(|e| matches!(e, Event::OrderCancelled { .. }));
    assert!(has_cancel);
}

#[test]
fn test_cancel_order() {
    let mut engine = MatchingEngine::new("test".to_string(), 0);

    let order = fresh_order("user1", OrderSide::Buy, OrderType::Limit, Some(50), 10, 1);

    engine.orderbook().add_order(order.clone());
    assert!(engine.orderbook().get_order(order.id).is_some());

    let event = engine.cancel_order(order.id, "test");
    assert!(event.is_some());
    assert!(engine.orderbook().get_order(order.id).is_none());
}

#[test]
fn matching_emits_contiguous_sequences() {
    let mut engine = MatchingEngine::new("test".to_string(), 0);
    engine.orderbook().add_order(fresh_order(
        "m1",
        OrderSide::Sell,
        OrderType::Limit,
        Some(50),
        3,
        1,
    ));
    engine.orderbook().add_order(fresh_order(
        "m2",
        OrderSide::Sell,
        OrderType::Limit,
        Some(51),
        3,
        2,
    ));

    let taker = fresh_order("t", OrderSide::Buy, OrderType::Limit, Some(60), 10, 3);
    let (trades, remaining, events) = engine.match_order(taker);

    assert_eq!(trades.len(), 2);
    assert!(remaining.is_some());
    assert_eq!(events.len(), 3);
    let seqs: Vec<i64> = events.iter().map(|e| e.sequence_number()).collect();
    assert_eq!(seqs, vec![1, 2, 3]);
    assert_eq!(engine.current_sequence(), 3);
}

#[test]
fn matching_respects_time_priority_within_level() {
    let mut engine = MatchingEngine::new("test".to_string(), 0);
    let first = fresh_order("m1", OrderSide::Sell, OrderType::Limit, Some(50), 4, 1);
    let second = fresh_order("m2", OrderSide::Sell, OrderType::Limit, Some(50), 4, 2);
    engine.orderbook().add_order(first.clone());
    engine.orderbook().add_order(second.clone());

    let taker = fresh_order("t", OrderSide::Buy, OrderType::Limit, Some(50), 6, 3);
    let (trades, _, _) = engine.match_order(taker);

    assert_eq!(trades.len(), 2);
    assert_eq!(trades[0].maker_order_id, first.id);
    assert_eq!(trades[0].quantity, 4);
    assert_eq!(trades[1].maker_order_id, second.id);
    assert_eq!(trades[1].quantity, 2);
}

#[test]
fn matching_price_bounds_for_taker() {
    let mut engine = MatchingEngine::new("test".to_string(), 0);
    engine.orderbook().add_order(fresh_order(
        "m1",
        OrderSide::Sell,
        OrderType::Limit,
        Some(48),
        2,
        1,
    ));
    engine.orderbook().add_order(fresh_order(
        "m2",
        OrderSide::Sell,
        OrderType::Limit,
        Some(49),
        2,
        2,
    ));

    let taker = fresh_order("t", OrderSide::Buy, OrderType::Limit, Some(49), 5, 3);
    let (trades, remaining, _) = engine.match_order(taker);

    // Every trade is at the maker's limit, never above the taker's.
    assert_eq!(trades.len(), 2);
    assert_eq!(trades[0].price, 48);
    assert_eq!(trades[1].price, 49);
    assert!(trades.iter().all(|t| t.price <= 49));
    assert_eq!(remaining.as_ref().unwrap().remaining_quantity, 1);
}

#[test]
fn conservation_of_quantity_over_a_placement() {
    let mut engine = MatchingEngine::new("test".to_string(), 0);
    engine.orderbook().add_order(fresh_order(
        "m1",
        OrderSide::Sell,
        OrderType::Limit,
        Some(50),
        3,
        1,
    ));
    engine.orderbook().add_order(fresh_order(
        "m2",
        OrderSide::Sell,
        OrderType::Limit,
        Some(51),
        4,
        2,
    ));

    let taker = fresh_order("t", OrderSide::Buy, OrderType::Limit, Some(60), 10, 3);
    let (trades, remaining, _) = engine.match_order(taker);

    let filled: u64 = trades.iter().map(|t| t.quantity).sum();
    let residual = remaining.map(|o| o.remaining_quantity).unwrap_or(0);
    assert_eq!(filled + residual, 10);
}
