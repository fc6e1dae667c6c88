use matching_engine::engine::Engine;
use matching_engine::matching::replay_events;
use matching_engine::types::{Order, OrderSide, OrderStatus, OrderType, TimestampGenerator};
use matching_engine::wal::WAL;

fn request(
    market: &str,
    side: OrderSide,
    order_type: OrderType,
    price: Option<u64>,
    quantity: u64,
) -> Order {
    Order::new(
        uuid::Uuid::new_v4().as_u128(),
        market.to_string(),
        "trader".to_string(),
        side,
        order_type,
        price,
        quantity,
        TimestampGenerator::now_ns(),
        0,
    )
}

#[test]
fn scenario_cross_at_maker_price() {
    let mut engine = Engine::new("mkt".to_string(), WAL::new(0));
    engine
        .place(request("mkt", OrderSide::Sell, OrderType::Limit, Some(50), 10))
        .unwrap();
    let (trades, residual, _, _) = engine
        .place(request("mkt", OrderSide::Buy, OrderType::Limit, Some(51), 5))
        .unwrap();

    assert_eq!(trades.len(), 1);
    assert_eq!(trades[0].quantity, 5);
    assert_eq!(trades[0].price, 50);
    assert!(residual.is_none());
    let (snap, _) = engine.snapshot(10);
    assert_eq!(snap.asks.len(), 1);
    assert_eq!(snap.asks[0].price, 50);
    assert_eq!(snap.asks[0].total_quantity, 5);
}

#[test]
fn scenario_partial_fill_leaves_resting() {
    let mut engine = Engine::new("mkt".to_string(), WAL::new(0));
    engine
        .place(request("mkt", OrderSide::Sell, OrderType::Limit, Some(50), 5))
        .unwrap();
    let (trades, residual, status, _) = engine
        .place(request("mkt", OrderSide::Buy, OrderType::Limit, Some(51), 10))
        .unwrap();

    assert_eq!(trades.len(), 1);
    assert_eq!(trades[0].quantity, 5);
    assert_eq!(trades[0].price, 50);
    let rem = residual.unwrap();
    assert_eq!(rem.remaining_quantity, 5);
    assert_eq!(status, OrderStatus::PartiallyFilled);
    let (snap, _) = engine.snapshot(10);
    assert_eq!(snap.bids.len(), 1);
    assert_eq!(snap.bids[0].price, 51);
    assert_eq!(snap.bids[0].total_quantity, 5);
    assert!(snap.asks.is_empty());
}

#[test]
fn scenario_market_order_sweeps_levels() {
    let mut engine = Engine::new("mkt".to_string(), WAL::new(0));
    engine
        .place(request("mkt", OrderSide::Sell, OrderType::Limit, Some(50), 5))
        .unwrap();
    engine
        .place(request("mkt", OrderSide::Sell, OrderType::Limit, Some(51), 5))
        .unwrap();
    engine
        .place(request("mkt", OrderSide::Sell, OrderType::Limit, Some(52), 5))
        .unwrap();

    let (trades, residual, _, _) = engine
        .place(request("mkt", OrderSide::Buy, OrderType::Market, None, 12))
        .unwrap();

    assert_eq!(trades.len(), 3);
    assert_eq!((trades[0].quantity, trades[0].price), (5, 50));
    assert_eq!((trades[1].quantity, trades[1].price), (5, 51));
    assert_eq!((trades[2].quantity, trades[2].price), (2, 52));
    assert!(residual.is_none());
    let (snap, _) = engine.snapshot(10);
    assert_eq!(snap.asks.len(), 1);
    assert_eq!(snap.asks[0].price, 52);
    assert_eq!(snap.asks[0].total_quantity, 3);
}

#[test]
fn scenario_ioc_with_insufficient_liquidity() {
    let mut engine = Engine::new("mkt".to_string(), WAL::new(0));
    engine
        .place(request("mkt", OrderSide::Sell, OrderType::Limit, Some(50), 5))
        .unwrap();

    let ioc = request("mkt", OrderSide::Buy, OrderType::IOC, None, 10);
    let ioc_id = ioc.id;
    let (trades, _, _, _) = engine.place(ioc).unwrap();

    assert_eq!(trades.len(), 1);
    assert_eq!(trades[0].quantity, 5);
    assert_eq!(trades[0].price, 50);

    let entries = WAL::open(engine.wal_bytes().clone()).unwrap().read_all().unwrap();
    let last = entries.last().unwrap();
    match &last.event {
        matching_engine::types::Event::OrderCancelled {
            order_id,
            cancelled_quantity,
            ..
        } => {
            assert_eq!(*order_id, ioc_id);
            assert_eq!(*cancelled_quantity, 5);
        }
        other => panic!("expected a cancellation event, got {:?}", other),
    }
    let (snap, _) = engine.snapshot(10);
    assert!(snap.asks.is_empty());
    assert!(snap.bids.is_empty());
    assert!(engine.status(ioc_id).is_none());
}

#[test]
fn scenario_cancel_removes_cleanly() {
    let mut engine = Engine::new("mkt".to_string(), WAL::new(0));
    let bid = request("mkt", OrderSide::Buy, OrderType::Limit, Some(50), 10);
    let bid_id = bid.id;
    engine.place(bid).unwrap();
    engine.cancel(bid_id).unwrap();

    let (snap, _) = engine.snapshot(10);
    assert!(snap.bids.is_empty());
    assert!(engine.status(bid_id).is_none());

    let entries = WAL::open(engine.wal_bytes().clone()).unwrap().read_all().unwrap();
    assert_eq!(entries.len(), 2);
    assert!(matches!(
        entries[0].event,
        matching_engine::types::Event::OrderPlaced { .. }
    ));
    assert!(matches!(
        entries[1].event,
        matching_engine::types::Event::OrderCancelled { .. }
    ));
    assert!(entries[0].sequence_number < entries[1].sequence_number);
}

#[test]
fn scenario_replay_determinism() {
    let mut engine = Engine::new("mkt".to_string(), WAL::new(0));
    engine
        .place(request("mkt", OrderSide::Sell, OrderType::Limit, Some(50), 10))
        .unwrap();
    engine
        .place(request("mkt", OrderSide::Buy, OrderType::Limit, Some(51), 5))
        .unwrap();
    engine
        .place(request("mkt", OrderSide::Sell, OrderType::Limit, Some(52), 7))
        .unwrap();
    let bid = request("mkt", OrderSide::Buy, OrderType::Limit, Some(49), 4);
    let bid_id = bid.id;
    engine.place(bid).unwrap();
    engine
        .place(request("mkt", OrderSide::Buy, OrderType::IOC, None, 3))
        .unwrap();
    engine.cancel(bid_id).unwrap();

    // Reopen the log and rebuild a book from its events alone.
    let wal2 = WAL::open(engine.wal_bytes().clone()).unwrap();
    assert_eq!(wal2.current_sequence(), engine.current_sequence());
    let entries = wal2.read_all().unwrap();
    let rebuilt = replay_events("mkt".to_string(), &entries);

    let (snap, _) = engine.snapshot(100);
    let rebuilt_snap = rebuilt.snapshot(100);
    assert_eq!(snap, rebuilt_snap);
    assert_eq!(rebuilt.best_bid(), engine_best_bid(&snap));
}

fn engine_best_bid(snap: &matching_engine::orderbook::OrderbookSnapshot) -> Option<u64> {
    snap.bids.first().map(|l| l.price)
}

#[test]
fn sequence_numbers_are_contiguous_across_operations() {
    let mut engine = Engine::new("mkt".to_string(), WAL::new(0));
    engine
        .place(request("mkt", OrderSide::Sell, OrderType::Limit, Some(50), 5))
        .unwrap();
    engine
        .place(request("mkt", OrderSide::Buy, OrderType::Limit, Some(51), 9))
        .unwrap();
    engine
        .place(request("mkt", OrderSide::Sell, OrderType::Limit, Some(53), 2))
        .unwrap();

    let entries = WAL::open(engine.wal_bytes().clone()).unwrap().read_all().unwrap();
    let seqs: Vec<i64> = entries.iter().map(|e| e.sequence_number).collect();
    let expected: Vec<i64> = (1..=seqs.len() as i64).collect();
    assert_eq!(seqs, expected);
    assert_eq!(engine.current_sequence(), seqs.len() as i64);
}
