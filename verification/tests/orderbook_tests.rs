use matching_engine::orderbook::Orderbook;
use matching_engine::types::{Order, OrderSide, OrderType, TimestampGenerator};

fn book_order(
    market: &str,
    user: &str,
    side: OrderSide,
    price: Option<u64>,
    quantity: u64,
    sequence: i64,
) -> Order {
    Order::new(
        uuid::Uuid::new_v4().as_u128(),
        market.to_string(),
        user.to_string(),
        side,
        OrderType::Limit,
        price,
        quantity,
        TimestampGenerator::now_ns(),
        sequence,
    )
}

#[test]
fn test_orderbook_add_bid() {
    let mut book = Orderbook::new("test".to_string());
    let order = book_order("test", "user1", OrderSide::Buy, Some(50), 10, 1);

    book.add_order(order.clone());
    assert_eq!(book.best_bid(), Some(50));
    assert_eq!(book.get_order(order.id), Some(order));
}

#[test]
fn test_orderbook_add_ask() {
    let mut book = Orderbook::new("test".to_string());
    let order = book_order("test", "user1", OrderSide::Sell, Some(51), 10, 1);

    book.add_order(order.clone());
    assert_eq!(book.best_ask(), Some(51));
}

#[test]
fn test_orderbook_price_priority() {
    let mut book = Orderbook::new("test".to_string());

    let order1 = book_order("test", "user1", OrderSide::Buy, Some(50), 10, 1);
    let order2 = book_order("test", "user2", OrderSide::Buy, Some(51), 10, 2);

    book.add_order(order1);
    book.add_order(order2);

    assert_eq!(book.best_bid(), Some(51));
}

#[test]
fn test_orderbook_remove_order() {
    let mut book = Orderbook::new("test".to_string());
    let order = book_order("test", "user1", OrderSide::Buy, Some(50), 10, 1);

    book.add_order(order.clone());
    assert!(book.get_order(order.id).is_some());

    book.remove_order(order.id);
    assert!(book.get_order(order.id).is_none());
    assert_eq!(book.best_bid(), None);
}

#[test]
fn test_orderbook_snapshot() {
    let mut book = Orderbook::new("test".to_string());

    for i in 0..5u64 {
        let order = Order::new(
            uuid::Uuid::new_v4().as_u128(),
            "test".to_string(),
            format!("user{}", i),
            OrderSide::Buy,
            OrderType::Limit,
            Some(50 + i),
            10,
            TimestampGenerator::now_ns(),
            i as i64,
        );
        book.add_order(order);
    }

    let snapshot = book.snapshot(3);
    assert_eq!(snapshot.bids.len(), 3);
    assert_eq!(snapshot.market_id, "test");
}

#[test]
fn orderbook_level_aggregate_sums_members() {
    let mut book = Orderbook::new("agg".to_string());
    let a = book_order("agg", "u1", OrderSide::Sell, Some(70), 4, 1);
    let b = book_order("agg", "u2", OrderSide::Sell, Some(70), 9, 2);
    book.add_order(a);
    book.add_order(b);

    let snap = book.snapshot(5);
    assert_eq!(snap.asks.len(), 1);
    assert_eq!(snap.asks[0].price, 70);
    assert_eq!(snap.asks[0].total_quantity, 13);
    assert_eq!(snap.asks[0].order_count, 2);
}

#[test]
fn orderbook_empty_level_disappears() {
    let mut book = Orderbook::new("gone".to_string());
    let a = book_order("gone", "u1", OrderSide::Sell, Some(70), 4, 1);
    let b = book_order("gone", "u2", OrderSide::Sell, Some(71), 9, 2);
    book.add_order(a.clone());
    book.add_order(b);

    book.remove_order(a.id);
    let snap = book.snapshot(5);
    assert_eq!(snap.asks.len(), 1);
    assert_eq!(snap.asks[0].price, 71);
    assert_eq!(book.best_ask(), Some(71));
}

#[test]
fn orderbook_next_maker_is_best_priced() {
    let mut book = Orderbook::new("mk".to_string());
    let a = book_order("mk", "u1", OrderSide::Sell, Some(52), 4, 1);
    let b = book_order("mk", "u2", OrderSide::Sell, Some(50), 9, 2);
    book.add_order(a);
    book.add_order(b.clone());

    // A buying taker must meet the lowest ask first.
    let maker = book.get_next_maker(OrderSide::Buy).unwrap();
    assert_eq!(maker.id, b.id);
    assert_eq!(maker.price, Some(50));
    assert!(book.get_next_maker(OrderSide::Sell).is_none());
}

#[test]
fn orderbook_update_changes_remaining_and_aggregate() {
    let mut book = Orderbook::new("up".to_string());
    let mut a = book_order("up", "u1", OrderSide::Buy, Some(40), 10, 1);
    book.add_order(a.clone());

    a.fill(4, 40);
    book.update_order(&a);

    let stored = book.get_order(a.id).unwrap();
    assert_eq!(stored.remaining_quantity, 6);
    assert_eq!(stored.filled_quantity, 4);
    let snap = book.snapshot(5);
    assert_eq!(snap.bids[0].total_quantity, 6);
}
