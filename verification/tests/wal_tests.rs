use matching_engine::types::{Event, Order, OrderSide, OrderType, Trade};
use matching_engine::wal::{parse_log, WalError, WAL};

fn placed_event(seq: i64, price: u64, quantity: u64) -> Event {
    let order = Order::new(
        uuid::Uuid::new_v4().as_u128(),
        "mkt".to_string(),
        "trader".to_string(),
        OrderSide::Buy,
        OrderType::Limit,
        Some(price),
        quantity,
        77,
        seq,
    );
    Event::OrderPlaced { order, sequence_number: seq, timestamp_ns: 77 }
}

fn trade_event(seq: i64) -> Event {
    let trade = Trade {
        id: uuid::Uuid::new_v4().as_u128(),
        market_id: "mkt".to_string(),
        taker_order_id: 7,
        maker_order_id: 8,
        side: OrderSide::Sell,
        price: 42,
        quantity: 3,
        timestamp_ns: 99,
        sequence_number: seq,
    };
    Event::TradeExecuted { trade, sequence_number: seq, timestamp_ns: 99 }
}

fn cancel_event(seq: i64) -> Event {
    Event::OrderCancelled {
        order_id: 11,
        market_id: "mkt".to_string(),
        side: OrderSide::Buy,
        price: Some(40),
        cancelled_quantity: 6,
        sequence_number: seq,
        timestamp_ns: 123,
    }
}

#[test]
fn wal_append_then_read_all_round_trips() {
    let mut wal = WAL::new(0);
    let e1 = placed_event(1, 50, 10);
    let e2 = trade_event(2);
    let e3 = cancel_event(3);
    assert_eq!(wal.append(e1.clone()), 1);
    assert_eq!(wal.append(e2.clone()), 2);
    assert_eq!(wal.append(e3.clone()), 3);

    let entries = wal.read_all().unwrap();
    assert_eq!(entries.len(), 3);
    assert_eq!(entries[0].event, e1);
    assert_eq!(entries[1].event, e2);
    assert_eq!(entries[2].event, e3);
    assert_eq!(entries[0].sequence_number, 1);
    assert_eq!(entries[2].sequence_number, 3);
    assert_eq!(wal.current_sequence(), 3);
}

#[test]
fn wal_reopen_recovers_last_sequence() {
    let mut wal = WAL::new(0);
    wal.append(placed_event(1, 50, 10));
    wal.append(trade_event(2));

    let reopened = WAL::open(wal.bytes().clone()).unwrap();
    assert_eq!(reopened.current_sequence(), 2);
    let entries = reopened.read_all().unwrap();
    assert_eq!(entries.len(), 2);
}

#[test]
fn wal_torn_tail_is_dropped_on_open() {
    let mut wal = WAL::new(0);
    wal.append(placed_event(1, 50, 10));
    let mut bytes = wal.bytes().clone();
    // A partial record: a length prefix promising more than is there.
    bytes.extend_from_slice(&[200u8, 0, 0, 0, 0, 0, 0, 0, 1, 2, 3]);

    let reopened = WAL::open(bytes).unwrap();
    assert_eq!(reopened.current_sequence(), 1);
    assert_eq!(reopened.read_all().unwrap().len(), 1);
}

#[test]
fn wal_checksum_mismatch_is_detected() {
    let mut wal = WAL::new(0);
    wal.append(placed_event(1, 50, 10));
    // Work on the record body, past the 8-byte file header.
    let mut bytes = wal.bytes()[8..].to_vec();
    // Flip one bit inside the order's quantity field: the record still
    // decodes, but the stored checksum no longer matches.
    let idx = 74;
    bytes[idx] ^= 0x01;

    let (res, _) = parse_log(&bytes);
    match res {
        Err(WalError::ChecksumMismatch { sequence_number }) => {
            assert_eq!(sequence_number, 1);
        }
        other => panic!("expected a checksum failure, got {:?}", other),
    }
    let mut image = wal.bytes()[..8].to_vec();
    image.extend_from_slice(&bytes);
    assert!(WAL::open(image).is_err());
}

#[test]
fn wal_empty_image_parses_clean() {
    let bytes: Vec<u8> = Vec::new();
    let (res, consumed) = parse_log(&bytes);
    assert_eq!(consumed, 0);
    assert!(res.unwrap().is_empty());

    let wal = WAL::open(Vec::new()).unwrap();
    assert_eq!(wal.current_sequence(), 0);
    // A fresh log's image is exactly the file header.
    assert_eq!(wal.bytes().len(), 8);
}

#[test]
fn wal_rejects_stale_sequence_on_parse() {
    let mut wal = WAL::new(0);
    wal.append(placed_event(5, 50, 10));
    // The same record twice, without the file header.
    let record = wal.bytes()[8..].to_vec();
    let mut doubled = record.clone();
    doubled.extend_from_slice(&record);

    // The same record twice repeats sequence 5: replay must refuse it.
    let (res, _) = parse_log(&doubled);
    match res {
        Err(WalError::SequenceOutOfOrder { sequence_number }) => {
            assert_eq!(sequence_number, 5);
        }
        other => panic!("expected an ordering failure, got {:?}", other),
    }
}

#[test]
fn wal_malformed_record_is_refused() {
    let mut wal = WAL::new(0);
    wal.append(placed_event(1, 50, 10));
    // Work on the record body, past the 8-byte file header.
    let mut bytes = wal.bytes()[8..].to_vec();
    // An impossible event tag: the record frame is whole, its payload is not.
    bytes[28] = 9;

    let (res, _) = parse_log(&bytes);
    assert_eq!(res.unwrap_err(), WalError::Malformed);
}

#[test]
fn wal_refuses_foreign_file() {
    let bytes = b"not a log at all".to_vec();
    match WAL::open(bytes) {
        Err(e) => assert_eq!(e, WalError::Malformed),
        Ok(_) => panic!("a foreign file must be refused"),
    }
}
