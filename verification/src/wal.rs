//! The write-ahead log: a canonical byte encoding for every event, records
//! framed by length and guarded by a CRC-32, and a parser proved to return
//! exactly the entries a well-formed log holds. The on-disk format is this
//! crate's own — the header's magic and version guard against files other
//! serialisations wrote, which are refused rather than misread.

use vstd::prelude::*;

use vstd::bytes::{
    lemma_auto_spec_u128_to_from_le_bytes, lemma_auto_spec_u32_to_from_le_bytes,
    lemma_auto_spec_u64_to_from_le_bytes, spec_u128_to_le_bytes, spec_u32_to_le_bytes,
    spec_u64_from_le_bytes, spec_u64_to_le_bytes, u128_from_le_bytes, u128_to_le_bytes,
    u32_from_le_bytes, u32_to_le_bytes, u64_from_le_bytes, u64_to_le_bytes,
};
use vstd::utf8::{
    decode_utf8, decode_utf8_encode_utf8, encode_utf8, encode_utf8_decode_utf8,
    encode_utf8_valid_utf8, valid_utf8,
};

use crate::types::{Event, EventV, Order, OrderSide, OrderStatus, OrderType, OrderV, Trade, TradeV};

verus! {

/// What can go wrong when a log is read back.
#[derive(Clone, Copy, PartialEq, Eq, Structural, Debug)]
pub enum WalError {
    /// A record's stored checksum does not match its event bytes.
    ChecksumMismatch { sequence_number: i64 },
    /// A record's payload does not decode as an entry.
    Malformed,
    /// A record's sequence number does not exceed its predecessor's.
    SequenceOutOfOrder { sequence_number: i64 },
}

/// The CRC-32 checksum of a byte sequence, as crc32fast computes it: a
/// function of the bytes alone.
pub uninterp spec fn crc32_of(bytes: Seq<u8>) -> u32;

/// Relies on crc32fast's `hash`: the CRC-32 (IEEE) checksum of the bytes,
/// the same on every machine and in every process.
#[verifier::external_body]
fn crc32(b: &Vec<u8>) -> (r: u32)
    ensures
        r == crc32_of(b@),
{
    crc32fast::hash(b.as_slice())
}

/// Relies on std's `String::from_utf8`: succeeds exactly on valid UTF-8,
/// and then decodes the bytes to the character sequence they encode.
#[verifier::external_body]
fn bytes_to_string(v: Vec<u8>) -> (r: Option<String>)
    ensures
        match r {
            Some(s) => valid_utf8(v@) && s@ == decode_utf8(v@),
            None => !valid_utf8(v@),
        },
{
    String::from_utf8(v).ok()
}

/// A signed 64-bit value carried in the log as its two's-complement bits.
pub open spec fn spec_i64_bits(x: i64) -> u64 {
    x as u64
}

/// The two's-complement bits read back as the signed value.
pub open spec fn spec_i64_of_bits(x: u64) -> i64 {
    x as i64
}

/// The byte encoding of one string: its UTF-8 length, then its UTF-8 bytes.
pub open spec fn spec_enc_str(cs: Seq<char>) -> Seq<u8> {
    spec_u64_to_le_bytes(encode_utf8(cs).len() as u64) + encode_utf8(cs)
}

/// The byte encoding of an optional price: a presence byte, then the price
/// (zero when absent), nine bytes in all.
pub open spec fn spec_enc_opt_price(p: Option<u64>) -> Seq<u8> {
    match p {
        None => seq![0u8] + spec_u64_to_le_bytes(0),
        Some(x) => seq![1u8] + spec_u64_to_le_bytes(x),
    }
}

/// The wire byte for a side.
pub open spec fn side_byte(s: OrderSide) -> u8 {
    match s {
        OrderSide::Buy => 0,
        OrderSide::Sell => 1,
    }
}

/// The wire byte for an order type.
pub open spec fn type_byte(t: OrderType) -> u8 {
    match t {
        OrderType::Limit => 0,
        OrderType::Market => 1,
        OrderType::IOC => 2,
    }
}

/// The wire byte for an order status.
pub open spec fn status_byte(s: OrderStatus) -> u8 {
    match s {
        OrderStatus::Pending => 0,
        OrderStatus::PartiallyFilled => 1,
        OrderStatus::Filled => 2,
        OrderStatus::Cancelled => 3,
        OrderStatus::Rejected => 4,
    }
}

/// The byte encoding of an order.
pub open spec fn spec_enc_order(o: OrderV) -> Seq<u8> {
    spec_u128_to_le_bytes(o.id) + seq![side_byte(o.side)] + seq![type_byte(o.order_type)] + seq![
        status_byte(o.status),
    ] + spec_enc_opt_price(o.price) + spec_u64_to_le_bytes(o.quantity) + spec_u64_to_le_bytes(
        o.remaining_quantity,
    ) + spec_u64_to_le_bytes(o.filled_quantity) + spec_u64_to_le_bytes(
        spec_i64_bits(o.timestamp_ns),
    ) + spec_u64_to_le_bytes(spec_i64_bits(o.sequence_number)) + spec_enc_str(o.market_id)
        + spec_enc_str(o.user_id)
}

/// The byte encoding of a trade.
pub open spec fn spec_enc_trade(t: TradeV) -> Seq<u8> {
    spec_u128_to_le_bytes(t.id) + spec_u128_to_le_bytes(t.taker_order_id) + spec_u128_to_le_bytes(
        t.maker_order_id,
    ) + seq![side_byte(t.side)] + spec_u64_to_le_bytes(t.price) + spec_u64_to_le_bytes(t.quantity)
        + spec_u64_to_le_bytes(spec_i64_bits(t.timestamp_ns)) + spec_u64_to_le_bytes(
        spec_i64_bits(t.sequence_number),
    ) + spec_enc_str(t.market_id)
}

/// The byte encoding of an event: a tag byte, then the variant's fields.
pub open spec fn spec_enc_event(e: EventV) -> Seq<u8> {
    match e {
        EventV::OrderPlaced { order, sequence_number, timestamp_ns } => seq![0u8]
            + spec_u64_to_le_bytes(spec_i64_bits(sequence_number)) + spec_u64_to_le_bytes(
            spec_i64_bits(timestamp_ns),
        ) + spec_enc_order(order),
        EventV::OrderCancelled {
            order_id,
            market_id,
            side,
            price,
            cancelled_quantity,
            sequence_number,
            timestamp_ns,
        } => seq![1u8] + spec_u64_to_le_bytes(spec_i64_bits(sequence_number))
            + spec_u64_to_le_bytes(spec_i64_bits(timestamp_ns)) + spec_u128_to_le_bytes(order_id)
            + seq![side_byte(side)] + spec_enc_opt_price(price) + spec_u64_to_le_bytes(
            cancelled_quantity,
        ) + spec_enc_str(market_id),
        EventV::TradeExecuted { trade, sequence_number, timestamp_ns } => seq![2u8]
            + spec_u64_to_le_bytes(spec_i64_bits(sequence_number)) + spec_u64_to_le_bytes(
            spec_i64_bits(timestamp_ns),
        ) + spec_enc_trade(trade),
    }
}

/// Appends the bytes of a slice.
fn enc_bytes(out: &mut Vec<u8>, b: &[u8])
    ensures
        final(out)@ == old(out)@ + b@,
{
    let n = b.len();
    let mut i: usize = 0;
    while i < n
        invariant
            n == b@.len(),
            0 <= i <= n,
            out@ == old(out)@ + b@.subrange(0, i as int),
        decreases n - i,
    {
        out.push(b[i]);
        proof {
            assert(out@ =~= old(out)@ + b@.subrange(0, i + 1));
        }
        i = i + 1;
    }
    proof {
        assert(b@.subrange(0, n as int) =~= b@);
    }
}

fn enc_u64(out: &mut Vec<u8>, x: u64)
    ensures
        final(out)@ == old(out)@ + spec_u64_to_le_bytes(x),
{
    let bs = u64_to_le_bytes(x);
    enc_bytes(out, bs.as_slice());
}

fn enc_u32(out: &mut Vec<u8>, x: u32)
    ensures
        final(out)@ == old(out)@ + spec_u32_to_le_bytes(x),
{
    let bs = u32_to_le_bytes(x);
    enc_bytes(out, bs.as_slice());
}

fn enc_u128(out: &mut Vec<u8>, x: u128)
    ensures
        final(out)@ == old(out)@ + spec_u128_to_le_bytes(x),
{
    let bs = u128_to_le_bytes(x);
    enc_bytes(out, bs.as_slice());
}

fn enc_i64(out: &mut Vec<u8>, x: i64)
    ensures
        final(out)@ == old(out)@ + spec_u64_to_le_bytes(spec_i64_bits(x)),
{
    enc_u64(out, #[verifier::truncate] (x as u64));
}

/// Appends one string: its UTF-8 length, then its UTF-8 bytes.
fn enc_str(out: &mut Vec<u8>, s: &str)
    ensures
        final(out)@ == old(out)@ + spec_enc_str(s@),
{
    let bs = s.as_bytes();
    let n = bs.len();
    enc_u64(out, n as u64);
    enc_bytes(out, bs);
    proof {
        assert(final(out)@ =~= old(out)@ + spec_enc_str(s@));
    }
}

/// Reads `n` bytes at `pos` into a fresh vector.
fn take_bytes(b: &Vec<u8>, pos: usize, n: usize) -> (r: Vec<u8>)
    requires
        pos + n <= b@.len(),
    ensures
        r@ == b@.subrange(pos as int, pos + n),
{
    let blen = b.len();
    let mut out: Vec<u8> = Vec::new();
    let mut i: usize = 0;
    while i < n
        invariant
            blen == b@.len(),
            pos + n <= blen,
            0 <= i <= n,
            out@ == b@.subrange(pos as int, pos + i),
        decreases n - i,
    {
        out.push(b[pos + i]);
        proof {
            assert(out@ =~= b@.subrange(pos as int, pos + i + 1));
        }
        i = i + 1;
    }
    out
}

fn read_u64(b: &Vec<u8>, pos: usize) -> (x: u64)
    requires
        pos + 8 <= b@.len(),
    ensures
        spec_u64_to_le_bytes(x) == b@.subrange(pos as int, pos + 8),
{
    let seg = take_bytes(b, pos, 8);
    let x = u64_from_le_bytes(seg.as_slice());
    proof {
        lemma_auto_spec_u64_to_from_le_bytes();
    }
    x
}

fn read_u32(b: &Vec<u8>, pos: usize) -> (x: u32)
    requires
        pos + 4 <= b@.len(),
    ensures
        spec_u32_to_le_bytes(x) == b@.subrange(pos as int, pos + 4),
{
    let seg = take_bytes(b, pos, 4);
    let x = u32_from_le_bytes(seg.as_slice());
    proof {
        lemma_auto_spec_u32_to_from_le_bytes();
    }
    x
}

fn read_u128(b: &Vec<u8>, pos: usize) -> (x: u128)
    requires
        pos + 16 <= b@.len(),
    ensures
        spec_u128_to_le_bytes(x) == b@.subrange(pos as int, pos + 16),
{
    let seg = take_bytes(b, pos, 16);
    let x = u128_from_le_bytes(seg.as_slice());
    proof {
        lemma_auto_spec_u128_to_from_le_bytes();
    }
    x
}

fn read_i64(b: &Vec<u8>, pos: usize) -> (x: i64)
    requires
        pos + 8 <= b@.len(),
    ensures
        spec_u64_to_le_bytes(spec_i64_bits(x)) == b@.subrange(pos as int, pos + 8),
{
    let v = read_u64(b, pos);
    let x: i64 = #[verifier::truncate] (v as i64);
    proof {
        assert(((v as i64) as u64) == v) by (bit_vector);
    }
    x
}

/// Decodes one string; on success the consumed bytes are exactly the
/// string's encoding, and any string whose encoding lies at `pos` is the
/// one returned.
fn dec_str(b: &Vec<u8>, pos: usize) -> (r: Option<(String, usize)>)
    requires
        pos <= b@.len(),
    ensures
        r matches Some((s, p2)) ==> pos < p2 <= b@.len() && b@.subrange(pos as int, p2 as int)
            == spec_enc_str(s@) && p2 == pos + spec_enc_str(s@).len(),
        forall|cs: Seq<char>|
            pos + spec_enc_str(cs).len() <= b@.len() && b@.subrange(
                pos as int,
                pos + spec_enc_str(cs).len(),
            ) == spec_enc_str(cs) ==> (r matches Some((s, p2)) && s@ == cs && p2 == pos
                + spec_enc_str(cs).len()),
{
    let blen = b.len();
    proof {
        lemma_auto_spec_u64_to_from_le_bytes();
        assert(b@.len() == blen);
    }
    if blen - pos < 8 {
        proof {
            assert forall|cs: Seq<char>|
                !(pos + spec_enc_str(cs).len() <= b@.len() && b@.subrange(
                    pos as int,
                    pos + spec_enc_str(cs).len(),
                ) == spec_enc_str(cs)) by {
                assert(spec_enc_str(cs).len() >= 8);
            }
        }
        return None;
    }
    let n = read_u64(b, pos);
    let p1 = pos + 8;
    if n > (blen - p1) as u64 {
        proof {
            assert forall|cs: Seq<char>|
                !(pos + spec_enc_str(cs).len() <= b@.len() && b@.subrange(
                    pos as int,
                    pos + spec_enc_str(cs).len(),
                ) == spec_enc_str(cs)) by {
                if pos + spec_enc_str(cs).len() <= b@.len() && b@.subrange(
                    pos as int,
                    pos + spec_enc_str(cs).len(),
                ) == spec_enc_str(cs) {
                    let m = encode_utf8(cs).len();
                    assert(spec_enc_str(cs).len() == 8 + m);
                    assert(m <= blen);
                    assert(b@.subrange(pos as int, pos + 8) =~= spec_u64_to_le_bytes((m as u64)));
                    assert(n == m as u64);
                    assert(n as int == m as int);
                }
            }
        }
        return None;
    }
    let nn = n as usize;
    let seg = take_bytes(b, p1, nn);
    let ghost segv = seg@;
    match bytes_to_string(seg) {
        Some(t) => {
            proof {
                decode_utf8_encode_utf8(segv);
                assert(encode_utf8(t@) =~= segv);
                assert(b@.subrange(pos as int, (p1 + nn) as int) =~= spec_enc_str(t@));
                assert forall|cs: Seq<char>|
                    pos + spec_enc_str(cs).len() <= b@.len() && b@.subrange(
                        pos as int,
                        pos + spec_enc_str(cs).len(),
                    ) == spec_enc_str(cs) implies t@ == cs && (p1 + nn) as int == pos
                    + spec_enc_str(cs).len() by {
                    let m = encode_utf8(cs).len();
                    assert(m <= blen);
                    assert(b@.subrange(pos as int, pos + 8) =~= spec_u64_to_le_bytes((m as u64)));
                    assert(n == m as u64);
                    assert(n as int == m as int);
                    assert(nn as int == m as int);
                    assert forall|k: int| 0 <= k < m implies segv[k] == encode_utf8(cs)[k] by {
                        assert(segv[k] == b@[p1 + k]);
                        assert(b@.subrange(pos as int, pos + (8 + m)) == spec_enc_str(cs));
                        assert(b@[p1 + k] == spec_enc_str(cs)[8 + k]);
                    }
                    assert(segv =~= encode_utf8(cs));
                    encode_utf8_decode_utf8(cs);
                }
            }
            Some((t, p1 + nn))
        },
        None => {
            proof {
                assert forall|cs: Seq<char>|
                    !(pos + spec_enc_str(cs).len() <= b@.len() && b@.subrange(
                        pos as int,
                        pos + spec_enc_str(cs).len(),
                    ) == spec_enc_str(cs)) by {
                    if pos + spec_enc_str(cs).len() <= b@.len() && b@.subrange(
                        pos as int,
                        pos + spec_enc_str(cs).len(),
                    ) == spec_enc_str(cs) {
                        let m = encode_utf8(cs).len();
                        assert(m <= blen);
                        assert(b@.subrange(pos as int, pos + 8) =~= spec_u64_to_le_bytes(
                            (m as u64),
                        ));
                        assert(n == m as u64);
                        assert(n as int == m as int);
                        assert(nn as int == m as int);
                        assert forall|k: int| 0 <= k < m implies segv[k] == encode_utf8(cs)[k] by {
                            assert(segv[k] == b@[p1 + k]);
                            assert(b@.subrange(pos as int, pos + (8 + m)) == spec_enc_str(cs));
                            assert(b@[p1 + k] == spec_enc_str(cs)[8 + k]);
                        }
                        assert(segv =~= encode_utf8(cs));
                        encode_utf8_valid_utf8(cs);
                    }
                }
            }
            None
        },
    }
}

fn enc_u8(out: &mut Vec<u8>, x: u8)
    ensures
        final(out)@ == old(out)@ + seq![x],
{
    out.push(x);
    proof {
        assert(final(out)@ =~= old(out)@ + seq![x]);
    }
}

fn side_to_byte(s: OrderSide) -> (r: u8)
    ensures
        r == side_byte(s),
{
    match s {
        OrderSide::Buy => 0,
        OrderSide::Sell => 1,
    }
}

fn type_to_byte(t: OrderType) -> (r: u8)
    ensures
        r == type_byte(t),
{
    match t {
        OrderType::Limit => 0,
        OrderType::Market => 1,
        OrderType::IOC => 2,
    }
}

fn status_to_byte(s: OrderStatus) -> (r: u8)
    ensures
        r == status_byte(s),
{
    match s {
        OrderStatus::Pending => 0,
        OrderStatus::PartiallyFilled => 1,
        OrderStatus::Filled => 2,
        OrderStatus::Cancelled => 3,
        OrderStatus::Rejected => 4,
    }
}

fn enc_opt_price(out: &mut Vec<u8>, p: &Option<u64>)
    ensures
        final(out)@ == old(out)@ + spec_enc_opt_price(*p),
{
    match p {
        None => {
            enc_u8(out, 0);
            enc_u64(out, 0);
        },
        Some(x) => {
            enc_u8(out, 1);
            enc_u64(out, *x);
        },
    }
    proof {
        assert(final(out)@ =~= old(out)@ + spec_enc_opt_price(*p));
    }
}

/// Appends the byte encoding of an order.
fn enc_order(out: &mut Vec<u8>, o: &Order)
    ensures
        final(out)@ == old(out)@ + spec_enc_order(o@),
{
    enc_u128(out, o.id);
    enc_u8(out, side_to_byte(o.side));
    enc_u8(out, type_to_byte(o.order_type));
    enc_u8(out, status_to_byte(o.status));
    enc_opt_price(out, &o.price);
    enc_u64(out, o.quantity);
    enc_u64(out, o.remaining_quantity);
    enc_u64(out, o.filled_quantity);
    enc_i64(out, o.timestamp_ns);
    enc_i64(out, o.sequence_number);
    enc_str(out, o.market_id.as_str());
    enc_str(out, o.user_id.as_str());
    proof {
        assert(final(out)@ =~= old(out)@ + spec_enc_order(o@));
    }
}

/// Appends the byte encoding of a trade.
fn enc_trade(out: &mut Vec<u8>, t: &Trade)
    ensures
        final(out)@ == old(out)@ + spec_enc_trade(t@),
{
    enc_u128(out, t.id);
    enc_u128(out, t.taker_order_id);
    enc_u128(out, t.maker_order_id);
    enc_u8(out, side_to_byte(t.side));
    enc_u64(out, t.price);
    enc_u64(out, t.quantity);
    enc_i64(out, t.timestamp_ns);
    enc_i64(out, t.sequence_number);
    enc_str(out, t.market_id.as_str());
    proof {
        assert(final(out)@ =~= old(out)@ + spec_enc_trade(t@));
    }
}

/// Appends the byte encoding of an event.
fn enc_event(out: &mut Vec<u8>, e: &Event)
    ensures
        final(out)@ == old(out)@ + spec_enc_event(e@),
{
    match e {
        Event::OrderPlaced { order, sequence_number, timestamp_ns } => {
            enc_u8(out, 0);
            enc_i64(out, *sequence_number);
            enc_i64(out, *timestamp_ns);
            enc_order(out, order);
        },
        Event::OrderCancelled {
            order_id,
            market_id,
            side,
            price,
            cancelled_quantity,
            sequence_number,
            timestamp_ns,
        } => {
            enc_u8(out, 1);
            enc_i64(out, *sequence_number);
            enc_i64(out, *timestamp_ns);
            enc_u128(out, *order_id);
            enc_u8(out, side_to_byte(*side));
            enc_opt_price(out, price);
            enc_u64(out, *cancelled_quantity);
            enc_str(out, market_id.as_str());
        },
        Event::TradeExecuted { trade, sequence_number, timestamp_ns } => {
            enc_u8(out, 2);
            enc_i64(out, *sequence_number);
            enc_i64(out, *timestamp_ns);
            enc_trade(out, trade);
        },
    }
    proof {
        assert(final(out)@ =~= old(out)@ + spec_enc_event(e@));
    }
}

/// The field positions inside an order's encoding, read off the layout.
proof fn lemma_enc_order_fields(bs: Seq<u8>, pos: int, o0: OrderV)
    requires
        0 <= pos,
        pos + spec_enc_order(o0).len() <= bs.len(),
        bs.subrange(pos, pos + spec_enc_order(o0).len()) == spec_enc_order(o0),
    ensures
        ({
            let m = spec_enc_str(o0.market_id).len();
            let u = spec_enc_str(o0.user_id).len();
            &&& spec_enc_order(o0).len() == 68 + m + u
            &&& m >= 8 && u >= 8
            &&& bs.subrange(pos, pos + 16) == spec_u128_to_le_bytes(o0.id)
            &&& bs[pos + 16] == side_byte(o0.side)
            &&& bs[pos + 17] == type_byte(o0.order_type)
            &&& bs[pos + 18] == status_byte(o0.status)
            &&& bs.subrange(pos + 19, pos + 28) == spec_enc_opt_price(o0.price)
            &&& bs.subrange(pos + 28, pos + 36) == spec_u64_to_le_bytes(o0.quantity)
            &&& bs.subrange(pos + 36, pos + 44) == spec_u64_to_le_bytes(o0.remaining_quantity)
            &&& bs.subrange(pos + 44, pos + 52) == spec_u64_to_le_bytes(o0.filled_quantity)
            &&& bs.subrange(pos + 52, pos + 60) == spec_u64_to_le_bytes(
                spec_i64_bits(o0.timestamp_ns),
            )
            &&& bs.subrange(pos + 60, pos + 68) == spec_u64_to_le_bytes(
                spec_i64_bits(o0.sequence_number),
            )
            &&& bs.subrange(pos + 68, pos + 68 + m) == spec_enc_str(o0.market_id)
            &&& bs.subrange(pos + 68 + m, pos + 68 + m + u) == spec_enc_str(o0.user_id)
        }),
{
    let e = spec_enc_order(o0);
    let m = spec_enc_str(o0.market_id).len();
    let u = spec_enc_str(o0.user_id).len();
    assert(forall|x: u64| (#[trigger] spec_u64_to_le_bytes(x)).len() == 8) by {
        lemma_auto_spec_u64_to_from_le_bytes();
    }
    assert(spec_u128_to_le_bytes(o0.id).len() == 16) by {
        lemma_auto_spec_u128_to_from_le_bytes();
    }
    assert(spec_enc_opt_price(o0.price).len() == 9);
    let c0 = spec_u128_to_le_bytes(o0.id);
    let c1 = c0 + seq![side_byte(o0.side)];
    let c2 = c1 + seq![type_byte(o0.order_type)];
    let c3 = c2 + seq![status_byte(o0.status)];
    let c4 = c3 + spec_enc_opt_price(o0.price);
    let c5 = c4 + spec_u64_to_le_bytes(o0.quantity);
    let c6 = c5 + spec_u64_to_le_bytes(o0.remaining_quantity);
    let c7 = c6 + spec_u64_to_le_bytes(o0.filled_quantity);
    let c8 = c7 + spec_u64_to_le_bytes(spec_i64_bits(o0.timestamp_ns));
    let c9 = c8 + spec_u64_to_le_bytes(spec_i64_bits(o0.sequence_number));
    let c10 = c9 + spec_enc_str(o0.market_id);
    let c11 = c10 + spec_enc_str(o0.user_id);
    assert(e == c11);
    assert(c0.len() == 16 && c1.len() == 17 && c2.len() == 18 && c3.len() == 19 && c4.len() == 28
        && c5.len() == 36 && c6.len() == 44 && c7.len() == 52 && c8.len() == 60 && c9.len() == 68
        && c10.len() == 68 + m && c11.len() == 68 + m + u);
    assert(e.len() == 68 + m + u);
    assert forall|k: int| 0 <= k < 68 + m + u implies bs[pos + k] == e[k] by {
        assert(bs.subrange(pos, pos + spec_enc_order(o0).len())[k] == bs[pos + k]);
    }
    assert(bs.subrange(pos, pos + 16) =~= spec_u128_to_le_bytes(o0.id));
    assert(bs[pos + 16] == e[16]);
    assert(bs[pos + 17] == e[17]);
    assert(bs[pos + 18] == e[18]);
    assert forall|k: int| 0 <= k < 9 implies e[19 + k] == spec_enc_opt_price(o0.price)[k] by {
        assert(e[19 + k] == c4[19 + k]);
    }
    assert(bs.subrange(pos + 19, pos + 28) =~= spec_enc_opt_price(o0.price));
    assert forall|k: int| 0 <= k < 8 implies e[28 + k] == spec_u64_to_le_bytes(o0.quantity)[k] by {
        assert(e[28 + k] == c5[28 + k]);
    }
    assert(bs.subrange(pos + 28, pos + 36) =~= spec_u64_to_le_bytes(o0.quantity));
    assert forall|k: int|
        0 <= k < 8 implies e[36 + k] == spec_u64_to_le_bytes(o0.remaining_quantity)[k] by {
        assert(e[36 + k] == c6[36 + k]);
    }
    assert(bs.subrange(pos + 36, pos + 44) =~= spec_u64_to_le_bytes(o0.remaining_quantity));
    assert forall|k: int|
        0 <= k < 8 implies e[44 + k] == spec_u64_to_le_bytes(o0.filled_quantity)[k] by {
        assert(e[44 + k] == c7[44 + k]);
    }
    assert(bs.subrange(pos + 44, pos + 52) =~= spec_u64_to_le_bytes(o0.filled_quantity));
    assert forall|k: int|
        0 <= k < 8 implies e[52 + k] == spec_u64_to_le_bytes(spec_i64_bits(o0.timestamp_ns))[k] by {
        assert(e[52 + k] == c8[52 + k]);
    }
    assert(bs.subrange(pos + 52, pos + 60) =~= spec_u64_to_le_bytes(
        spec_i64_bits(o0.timestamp_ns),
    ));
    assert forall|k: int|
        0 <= k < 8 implies e[60 + k] == spec_u64_to_le_bytes(spec_i64_bits(o0.sequence_number))[k]
    by {
        assert(e[60 + k] == c9[60 + k]);
    }
    assert(bs.subrange(pos + 60, pos + 68) =~= spec_u64_to_le_bytes(
        spec_i64_bits(o0.sequence_number),
    ));
    assert forall|k: int| 0 <= k < m implies e[68 + k] == spec_enc_str(o0.market_id)[k] by {
        assert(e[68 + k] == c10[68 + k]);
    }
    assert(bs.subrange(pos + 68, pos + 68 + m) =~= spec_enc_str(o0.market_id));
    assert forall|k: int| 0 <= k < u implies e[68 + m + k] == spec_enc_str(o0.user_id)[k] by {
        assert(e[68 + m + k] == c11[68 + m + k]);
    }
    assert(bs.subrange(pos + 68 + m, pos + 68 + m + u) =~= spec_enc_str(o0.user_id));
}


fn byte_to_side(x: u8) -> (r: Option<OrderSide>)
    ensures
        r matches Some(sd) ==> x == side_byte(sd),
        forall|s0: OrderSide| x == side_byte(s0) ==> r == Some(s0),
{
    if x == 0 {
        Some(OrderSide::Buy)
    } else if x == 1 {
        Some(OrderSide::Sell)
    } else {
        None
    }
}

fn byte_to_type(x: u8) -> (r: Option<OrderType>)
    ensures
        r matches Some(t) ==> x == type_byte(t),
        forall|t0: OrderType| x == type_byte(t0) ==> r == Some(t0),
{
    if x == 0 {
        Some(OrderType::Limit)
    } else if x == 1 {
        Some(OrderType::Market)
    } else if x == 2 {
        Some(OrderType::IOC)
    } else {
        None
    }
}

fn byte_to_status(x: u8) -> (r: Option<OrderStatus>)
    ensures
        r matches Some(st) ==> x == status_byte(st),
        forall|s0: OrderStatus| x == status_byte(s0) ==> r == Some(s0),
{
    if x == 0 {
        Some(OrderStatus::Pending)
    } else if x == 1 {
        Some(OrderStatus::PartiallyFilled)
    } else if x == 2 {
        Some(OrderStatus::Filled)
    } else if x == 3 {
        Some(OrderStatus::Cancelled)
    } else if x == 4 {
        Some(OrderStatus::Rejected)
    } else {
        None
    }
}

fn dec_opt_price(b: &Vec<u8>, pos: usize) -> (r: Option<Option<u64>>)
    requires
        pos + 9 <= b@.len(),
    ensures
        r matches Some(p) ==> b@.subrange(pos as int, pos + 9) == spec_enc_opt_price(p),
        forall|p0: Option<u64>|
            b@.subrange(pos as int, pos + 9) == spec_enc_opt_price(p0) ==> r == Some(p0),
{
    let blen = b.len();
    proof {
        lemma_auto_spec_u64_to_from_le_bytes();
        assert(b@.len() == blen);
    }
    let tag = b[pos];
    let v = read_u64(b, pos + 1);
    let ghost enc = b@.subrange(pos as int, pos + 9);
    proof {
        assert(enc[0] == b@[pos as int]);
        assert(enc.subrange(1, 9) =~= b@.subrange(pos + 1, pos + 9));
        assert forall|p0: Option<u64>| b@.subrange(pos as int, pos + 9) == spec_enc_opt_price(p0)
            implies (tag == 0 ==> p0 is None && v == 0) && (tag == 1 ==> p0 == Some(v)) by {
            match p0 {
                None => {
                    assert(spec_enc_opt_price(p0)[0] == 0);
                    assert(spec_enc_opt_price(p0).subrange(1, 9) =~= spec_u64_to_le_bytes(0));
                    assert(spec_u64_to_le_bytes(v) =~= spec_u64_to_le_bytes(0));
                },
                Some(x) => {
                    assert(spec_enc_opt_price(p0)[0] == 1);
                    assert(spec_enc_opt_price(p0).subrange(1, 9) =~= spec_u64_to_le_bytes(x));
                    assert(spec_u64_to_le_bytes(v) =~= spec_u64_to_le_bytes(x));
                },
            }
        }
    }
    if tag == 0 {
        if v == 0 {
            proof {
                assert(b@.subrange(pos as int, pos + 9) =~= spec_enc_opt_price(
                    Option::<u64>::None,
                ));
            }
            Some(None)
        } else {
            None
        }
    } else if tag == 1 {
        proof {
            assert(b@.subrange(pos as int, pos + 9) =~= spec_enc_opt_price(Some(v)));
        }
        Some(Some(v))
    } else {
        None
    }
}

/// Assembles the encoding of an order from its field slices.
proof fn lemma_enc_order_assemble(bs: Seq<u8>, pos: int, o0: OrderV)
    requires
        0 <= pos,
        ({
            let m = spec_enc_str(o0.market_id).len();
            let u = spec_enc_str(o0.user_id).len();
            &&& pos + 68 + m + u <= bs.len()
            &&& bs.subrange(pos, pos + 16) == spec_u128_to_le_bytes(o0.id)
            &&& bs[pos + 16] == side_byte(o0.side)
            &&& bs[pos + 17] == type_byte(o0.order_type)
            &&& bs[pos + 18] == status_byte(o0.status)
            &&& bs.subrange(pos + 19, pos + 28) == spec_enc_opt_price(o0.price)
            &&& bs.subrange(pos + 28, pos + 36) == spec_u64_to_le_bytes(o0.quantity)
            &&& bs.subrange(pos + 36, pos + 44) == spec_u64_to_le_bytes(o0.remaining_quantity)
            &&& bs.subrange(pos + 44, pos + 52) == spec_u64_to_le_bytes(o0.filled_quantity)
            &&& bs.subrange(pos + 52, pos + 60) == spec_u64_to_le_bytes(
                spec_i64_bits(o0.timestamp_ns),
            )
            &&& bs.subrange(pos + 60, pos + 68) == spec_u64_to_le_bytes(
                spec_i64_bits(o0.sequence_number),
            )
            &&& bs.subrange(pos + 68, pos + 68 + m) == spec_enc_str(o0.market_id)
            &&& bs.subrange(pos + 68 + m, pos + 68 + m + u) == spec_enc_str(o0.user_id)
        }),
    ensures
        ({
            let m = spec_enc_str(o0.market_id).len();
            let u = spec_enc_str(o0.user_id).len();
            &&& spec_enc_order(o0).len() == 68 + m + u
            &&& bs.subrange(pos, pos + 68 + m + u) == spec_enc_order(o0)
        }),
{
    let e = spec_enc_order(o0);
    let m = spec_enc_str(o0.market_id).len();
    let u = spec_enc_str(o0.user_id).len();
    assert(forall|x: u64| (#[trigger] spec_u64_to_le_bytes(x)).len() == 8) by {
        lemma_auto_spec_u64_to_from_le_bytes();
    }
    assert(spec_u128_to_le_bytes(o0.id).len() == 16) by {
        lemma_auto_spec_u128_to_from_le_bytes();
    }
    assert(spec_enc_opt_price(o0.price).len() == 9);
    let c0 = spec_u128_to_le_bytes(o0.id);
    let c1 = c0 + seq![side_byte(o0.side)];
    let c2 = c1 + seq![type_byte(o0.order_type)];
    let c3 = c2 + seq![status_byte(o0.status)];
    let c4 = c3 + spec_enc_opt_price(o0.price);
    let c5 = c4 + spec_u64_to_le_bytes(o0.quantity);
    let c6 = c5 + spec_u64_to_le_bytes(o0.remaining_quantity);
    let c7 = c6 + spec_u64_to_le_bytes(o0.filled_quantity);
    let c8 = c7 + spec_u64_to_le_bytes(spec_i64_bits(o0.timestamp_ns));
    let c9 = c8 + spec_u64_to_le_bytes(spec_i64_bits(o0.sequence_number));
    let c10 = c9 + spec_enc_str(o0.market_id);
    let c11 = c10 + spec_enc_str(o0.user_id);
    assert(e == c11);
    assert(c0.len() == 16 && c1.len() == 17 && c2.len() == 18 && c3.len() == 19 && c4.len() == 28
        && c5.len() == 36 && c6.len() == 44 && c7.len() == 52 && c8.len() == 60 && c9.len() == 68
        && c10.len() == 68 + m && c11.len() == 68 + m + u);
    assert forall|k: int| 0 <= k < 68 + m + u implies bs[pos + k] == e[k] by {
        assert(e[k] == c11[k]);
        if k < 16 {
            assert(bs.subrange(pos, pos + 16)[k] == bs[pos + k]);
        } else if k < 17 {
        } else if k < 18 {
        } else if k < 19 {
        } else if k < 28 {
            assert(bs.subrange(pos + 19, pos + 28)[k - 19] == bs[pos + k]);
            assert(c11[k] == spec_enc_opt_price(o0.price)[k - 19]);
        } else if k < 36 {
            assert(bs.subrange(pos + 28, pos + 36)[k - 28] == bs[pos + k]);
            assert(c11[k] == spec_u64_to_le_bytes(o0.quantity)[k - 28]);
        } else if k < 44 {
            assert(bs.subrange(pos + 36, pos + 44)[k - 36] == bs[pos + k]);
            assert(c11[k] == spec_u64_to_le_bytes(o0.remaining_quantity)[k - 36]);
        } else if k < 52 {
            assert(bs.subrange(pos + 44, pos + 52)[k - 44] == bs[pos + k]);
            assert(c11[k] == spec_u64_to_le_bytes(o0.filled_quantity)[k - 44]);
        } else if k < 60 {
            assert(bs.subrange(pos + 52, pos + 60)[k - 52] == bs[pos + k]);
            assert(c11[k] == spec_u64_to_le_bytes(spec_i64_bits(o0.timestamp_ns))[k - 52]);
        } else if k < 68 {
            assert(bs.subrange(pos + 60, pos + 68)[k - 60] == bs[pos + k]);
            assert(c11[k] == spec_u64_to_le_bytes(spec_i64_bits(o0.sequence_number))[k - 60]);
        } else if k < 68 + m {
            assert(bs.subrange(pos + 68, pos + 68 + m)[k - 68] == bs[pos + k]);
            assert(c11[k] == spec_enc_str(o0.market_id)[k - 68]);
        } else {
            assert(bs.subrange(pos + 68 + m, pos + 68 + m + u)[k - 68 - m] == bs[pos + k]);
            assert(c11[k] == spec_enc_str(o0.user_id)[k - 68 - m]);
        }
    }
    assert(bs.subrange(pos, pos + 68 + m + u) =~= e);
}


/// Decodes one order; on success the consumed bytes are exactly the order's
/// encoding, and any order whose encoding lies at `pos` is the one returned.
fn dec_order(b: &Vec<u8>, pos: usize) -> (r: Option<(Order, usize)>)
    requires
        pos <= b@.len(),
    ensures
        r matches Some((o, p2)) ==> pos < p2 <= b@.len() && b@.subrange(pos as int, p2 as int)
            == spec_enc_order(o@) && p2 == pos + spec_enc_order(o@).len(),
        forall|o0: OrderV|
            pos + (#[trigger] spec_enc_order(o0)).len() <= b@.len() && b@.subrange(
                pos as int,
                pos + spec_enc_order(o0).len(),
            ) == spec_enc_order(o0) ==> (r matches Some((o, p2)) && o@ == o0 && p2 == pos
                + spec_enc_order(o0).len()),
{
    let blen = b.len();
    proof {
        lemma_auto_spec_u64_to_from_le_bytes();
        lemma_auto_spec_u128_to_from_le_bytes();
        assert(b@.len() == blen);
    }
    if blen - pos < 68 {
        proof {
            assert forall|o0: OrderV|
                pos + (#[trigger] spec_enc_order(o0)).len() <= b@.len() && b@.subrange(
                    pos as int,
                    pos + spec_enc_order(o0).len(),
                ) == spec_enc_order(o0) implies false by {
                lemma_enc_order_fields(b@, pos as int, o0);
            }
        }
        return None;
    }
    let id = read_u128(b, pos);
    let side = match byte_to_side(b[pos + 16]) {
        Some(sd) => sd,
        None => {
            proof {
                assert forall|o0: OrderV|
                    pos + (#[trigger] spec_enc_order(o0)).len() <= b@.len() && b@.subrange(
                        pos as int,
                        pos + spec_enc_order(o0).len(),
                    ) == spec_enc_order(o0) implies false by {
                    lemma_enc_order_fields(b@, pos as int, o0);
                }
            }
            return None;
        },
    };
    let order_type = match byte_to_type(b[pos + 17]) {
        Some(t) => t,
        None => {
            proof {
                assert forall|o0: OrderV|
                    pos + (#[trigger] spec_enc_order(o0)).len() <= b@.len() && b@.subrange(
                        pos as int,
                        pos + spec_enc_order(o0).len(),
                    ) == spec_enc_order(o0) implies false by {
                    lemma_enc_order_fields(b@, pos as int, o0);
                }
            }
            return None;
        },
    };
    let status = match byte_to_status(b[pos + 18]) {
        Some(st) => st,
        None => {
            proof {
                assert forall|o0: OrderV|
                    pos + (#[trigger] spec_enc_order(o0)).len() <= b@.len() && b@.subrange(
                        pos as int,
                        pos + spec_enc_order(o0).len(),
                    ) == spec_enc_order(o0) implies false by {
                    lemma_enc_order_fields(b@, pos as int, o0);
                }
            }
            return None;
        },
    };
    let price = match dec_opt_price(b, pos + 19) {
        Some(p) => p,
        None => {
            proof {
                assert forall|o0: OrderV|
                    pos + (#[trigger] spec_enc_order(o0)).len() <= b@.len() && b@.subrange(
                        pos as int,
                        pos + spec_enc_order(o0).len(),
                    ) == spec_enc_order(o0) implies false by {
                    lemma_enc_order_fields(b@, pos as int, o0);
                }
            }
            return None;
        },
    };
    let quantity = read_u64(b, pos + 28);
    let remaining_quantity = read_u64(b, pos + 36);
    let filled_quantity = read_u64(b, pos + 44);
    let timestamp_ns = read_i64(b, pos + 52);
    let sequence_number = read_i64(b, pos + 60);
    let (market_id, p_m) = match dec_str(b, pos + 68) {
        Some(x) => x,
        None => {
            proof {
                assert forall|o0: OrderV|
                    pos + (#[trigger] spec_enc_order(o0)).len() <= b@.len() && b@.subrange(
                        pos as int,
                        pos + spec_enc_order(o0).len(),
                    ) == spec_enc_order(o0) implies false by {
                    lemma_enc_order_fields(b@, pos as int, o0);
                }
            }
            return None;
        },
    };
    let (user_id, p_u) = match dec_str(b, p_m) {
        Some(x) => x,
        None => {
            proof {
                assert forall|o0: OrderV|
                    pos + (#[trigger] spec_enc_order(o0)).len() <= b@.len() && b@.subrange(
                        pos as int,
                        pos + spec_enc_order(o0).len(),
                    ) == spec_enc_order(o0) implies false by {
                    lemma_enc_order_fields(b@, pos as int, o0);
                    assert(b@.subrange(pos + 68, pos + 68 + spec_enc_str(o0.market_id).len())
                        == spec_enc_str(o0.market_id));
                    assert(market_id@ == o0.market_id);
                    assert(p_m == pos + 68 + spec_enc_str(o0.market_id).len());
                }
            }
            return None;
        },
    };
    let o = Order {
        id,
        market_id,
        user_id,
        side,
        order_type,
        price,
        quantity,
        remaining_quantity,
        filled_quantity,
        status,
        timestamp_ns,
        sequence_number,
    };
    proof {
        lemma_enc_order_assemble(b@, pos as int, o@);
        assert forall|o0: OrderV|
            pos + (#[trigger] spec_enc_order(o0)).len() <= b@.len() && b@.subrange(
                pos as int,
                pos + spec_enc_order(o0).len(),
            ) == spec_enc_order(o0) implies o@ == o0 && p_u == pos + spec_enc_order(o0).len() by {
            lemma_enc_order_fields(b@, pos as int, o0);
            assert(id == o0.id);
            assert(quantity == o0.quantity);
            assert(remaining_quantity == o0.remaining_quantity);
            assert(filled_quantity == o0.filled_quantity);
            let a = timestamp_ns;
            let c = o0.timestamp_ns;
            assert(spec_i64_bits(a) == spec_i64_bits(c));
            assert(((a as u64) == (c as u64)) ==> a == c) by (bit_vector);
            let a2 = sequence_number;
            let c2 = o0.sequence_number;
            assert(spec_i64_bits(a2) == spec_i64_bits(c2));
            assert(((a2 as u64) == (c2 as u64)) ==> a2 == c2) by (bit_vector);
            assert(market_id@ == o0.market_id);
            assert(p_m == pos + 68 + spec_enc_str(o0.market_id).len());
            assert(user_id@ == o0.user_id);
            assert(o@ =~~= o0);
        }
    }
    Some((o, p_u))
}


/// The field positions inside a trade's encoding, read off the layout.
proof fn lemma_enc_trade_fields(bs: Seq<u8>, pos: int, t0: TradeV)
    requires
        0 <= pos,
        pos + spec_enc_trade(t0).len() <= bs.len(),
        bs.subrange(pos, pos + spec_enc_trade(t0).len()) == spec_enc_trade(t0),
    ensures
        ({
            let m = spec_enc_str(t0.market_id).len();
            &&& spec_enc_trade(t0).len() == 81 + m
            &&& m >= 8
            &&& bs.subrange(pos, pos + 16) == spec_u128_to_le_bytes(t0.id)
            &&& bs.subrange(pos + 16, pos + 32) == spec_u128_to_le_bytes(t0.taker_order_id)
            &&& bs.subrange(pos + 32, pos + 48) == spec_u128_to_le_bytes(t0.maker_order_id)
            &&& bs[pos + 48] == side_byte(t0.side)
            &&& bs.subrange(pos + 49, pos + 57) == spec_u64_to_le_bytes(t0.price)
            &&& bs.subrange(pos + 57, pos + 65) == spec_u64_to_le_bytes(t0.quantity)
            &&& bs.subrange(pos + 65, pos + 73) == spec_u64_to_le_bytes(
                spec_i64_bits(t0.timestamp_ns),
            )
            &&& bs.subrange(pos + 73, pos + 81) == spec_u64_to_le_bytes(
                spec_i64_bits(t0.sequence_number),
            )
            &&& bs.subrange(pos + 81, pos + 81 + m) == spec_enc_str(t0.market_id)
        }),
{
    let e = spec_enc_trade(t0);
    let m = spec_enc_str(t0.market_id).len();
    assert(forall|x: u64| (#[trigger] spec_u64_to_le_bytes(x)).len() == 8) by {
        lemma_auto_spec_u64_to_from_le_bytes();
    }
    assert(forall|x: u128| (#[trigger] spec_u128_to_le_bytes(x)).len() == 16) by {
        lemma_auto_spec_u128_to_from_le_bytes();
    }
    let c0 = spec_u128_to_le_bytes(t0.id);
    let c1 = c0 + spec_u128_to_le_bytes(t0.taker_order_id);
    let c2 = c1 + spec_u128_to_le_bytes(t0.maker_order_id);
    let c3 = c2 + seq![side_byte(t0.side)];
    let c4 = c3 + spec_u64_to_le_bytes(t0.price);
    let c5 = c4 + spec_u64_to_le_bytes(t0.quantity);
    let c6 = c5 + spec_u64_to_le_bytes(spec_i64_bits(t0.timestamp_ns));
    let c7 = c6 + spec_u64_to_le_bytes(spec_i64_bits(t0.sequence_number));
    let c8 = c7 + spec_enc_str(t0.market_id);
    assert(e == c8);
    assert(c0.len() == 16 && c1.len() == 32 && c2.len() == 48 && c3.len() == 49 && c4.len() == 57
        && c5.len() == 65 && c6.len() == 73 && c7.len() == 81 && c8.len() == 81 + m);
    assert forall|k: int| 0 <= k < 81 + m implies bs[pos + k] == e[k] by {
        assert(bs.subrange(pos, pos + spec_enc_trade(t0).len())[k] == bs[pos + k]);
    }
    assert(bs.subrange(pos, pos + 16) =~= spec_u128_to_le_bytes(t0.id));
    assert forall|k: int|
        0 <= k < 16 implies e[16 + k] == spec_u128_to_le_bytes(t0.taker_order_id)[k] by {
        assert(e[16 + k] == c1[16 + k]);
    }
    assert(bs.subrange(pos + 16, pos + 32) =~= spec_u128_to_le_bytes(t0.taker_order_id));
    assert forall|k: int|
        0 <= k < 16 implies e[32 + k] == spec_u128_to_le_bytes(t0.maker_order_id)[k] by {
        assert(e[32 + k] == c2[32 + k]);
    }
    assert(bs.subrange(pos + 32, pos + 48) =~= spec_u128_to_le_bytes(t0.maker_order_id));
    assert(bs[pos + 48] == e[48]);
    assert forall|k: int| 0 <= k < 8 implies e[49 + k] == spec_u64_to_le_bytes(t0.price)[k] by {
        assert(e[49 + k] == c4[49 + k]);
    }
    assert(bs.subrange(pos + 49, pos + 57) =~= spec_u64_to_le_bytes(t0.price));
    assert forall|k: int| 0 <= k < 8 implies e[57 + k] == spec_u64_to_le_bytes(t0.quantity)[k] by {
        assert(e[57 + k] == c5[57 + k]);
    }
    assert(bs.subrange(pos + 57, pos + 65) =~= spec_u64_to_le_bytes(t0.quantity));
    assert forall|k: int|
        0 <= k < 8 implies e[65 + k] == spec_u64_to_le_bytes(spec_i64_bits(t0.timestamp_ns))[k] by {
        assert(e[65 + k] == c6[65 + k]);
    }
    assert(bs.subrange(pos + 65, pos + 73) =~= spec_u64_to_le_bytes(
        spec_i64_bits(t0.timestamp_ns),
    ));
    assert forall|k: int|
        0 <= k < 8 implies e[73 + k] == spec_u64_to_le_bytes(spec_i64_bits(t0.sequence_number))[k]
    by {
        assert(e[73 + k] == c7[73 + k]);
    }
    assert(bs.subrange(pos + 73, pos + 81) =~= spec_u64_to_le_bytes(
        spec_i64_bits(t0.sequence_number),
    ));
    assert forall|k: int| 0 <= k < m implies e[81 + k] == spec_enc_str(t0.market_id)[k] by {
        assert(e[81 + k] == c8[81 + k]);
    }
    assert(bs.subrange(pos + 81, pos + 81 + m) =~= spec_enc_str(t0.market_id));
}

/// Assembles the encoding of a trade from its field slices.
proof fn lemma_enc_trade_assemble(bs: Seq<u8>, pos: int, t0: TradeV)
    requires
        0 <= pos,
        ({
            let m = spec_enc_str(t0.market_id).len();
            &&& pos + 81 + m <= bs.len()
            &&& bs.subrange(pos, pos + 16) == spec_u128_to_le_bytes(t0.id)
            &&& bs.subrange(pos + 16, pos + 32) == spec_u128_to_le_bytes(t0.taker_order_id)
            &&& bs.subrange(pos + 32, pos + 48) == spec_u128_to_le_bytes(t0.maker_order_id)
            &&& bs[pos + 48] == side_byte(t0.side)
            &&& bs.subrange(pos + 49, pos + 57) == spec_u64_to_le_bytes(t0.price)
            &&& bs.subrange(pos + 57, pos + 65) == spec_u64_to_le_bytes(t0.quantity)
            &&& bs.subrange(pos + 65, pos + 73) == spec_u64_to_le_bytes(
                spec_i64_bits(t0.timestamp_ns),
            )
            &&& bs.subrange(pos + 73, pos + 81) == spec_u64_to_le_bytes(
                spec_i64_bits(t0.sequence_number),
            )
            &&& bs.subrange(pos + 81, pos + 81 + m) == spec_enc_str(t0.market_id)
        }),
    ensures
        ({
            let m = spec_enc_str(t0.market_id).len();
            &&& spec_enc_trade(t0).len() == 81 + m
            &&& bs.subrange(pos, pos + 81 + m) == spec_enc_trade(t0)
        }),
{
    let e = spec_enc_trade(t0);
    let m = spec_enc_str(t0.market_id).len();
    assert(forall|x: u64| (#[trigger] spec_u64_to_le_bytes(x)).len() == 8) by {
        lemma_auto_spec_u64_to_from_le_bytes();
    }
    assert(forall|x: u128| (#[trigger] spec_u128_to_le_bytes(x)).len() == 16) by {
        lemma_auto_spec_u128_to_from_le_bytes();
    }
    let c0 = spec_u128_to_le_bytes(t0.id);
    let c1 = c0 + spec_u128_to_le_bytes(t0.taker_order_id);
    let c2 = c1 + spec_u128_to_le_bytes(t0.maker_order_id);
    let c3 = c2 + seq![side_byte(t0.side)];
    let c4 = c3 + spec_u64_to_le_bytes(t0.price);
    let c5 = c4 + spec_u64_to_le_bytes(t0.quantity);
    let c6 = c5 + spec_u64_to_le_bytes(spec_i64_bits(t0.timestamp_ns));
    let c7 = c6 + spec_u64_to_le_bytes(spec_i64_bits(t0.sequence_number));
    let c8 = c7 + spec_enc_str(t0.market_id);
    assert(e == c8);
    assert(c0.len() == 16 && c1.len() == 32 && c2.len() == 48 && c3.len() == 49 && c4.len() == 57
        && c5.len() == 65 && c6.len() == 73 && c7.len() == 81 && c8.len() == 81 + m);
    assert forall|k: int| 0 <= k < 81 + m implies bs[pos + k] == e[k] by {
        assert(e[k] == c8[k]);
        if k < 16 {
            assert(bs.subrange(pos, pos + 16)[k] == bs[pos + k]);
        } else if k < 32 {
            assert(bs.subrange(pos + 16, pos + 32)[k - 16] == bs[pos + k]);
            assert(c8[k] == spec_u128_to_le_bytes(t0.taker_order_id)[k - 16]);
        } else if k < 48 {
            assert(bs.subrange(pos + 32, pos + 48)[k - 32] == bs[pos + k]);
            assert(c8[k] == spec_u128_to_le_bytes(t0.maker_order_id)[k - 32]);
        } else if k < 49 {
        } else if k < 57 {
            assert(bs.subrange(pos + 49, pos + 57)[k - 49] == bs[pos + k]);
            assert(c8[k] == spec_u64_to_le_bytes(t0.price)[k - 49]);
        } else if k < 65 {
            assert(bs.subrange(pos + 57, pos + 65)[k - 57] == bs[pos + k]);
            assert(c8[k] == spec_u64_to_le_bytes(t0.quantity)[k - 57]);
        } else if k < 73 {
            assert(bs.subrange(pos + 65, pos + 73)[k - 65] == bs[pos + k]);
            assert(c8[k] == spec_u64_to_le_bytes(spec_i64_bits(t0.timestamp_ns))[k - 65]);
        } else if k < 81 {
            assert(bs.subrange(pos + 73, pos + 81)[k - 73] == bs[pos + k]);
            assert(c8[k] == spec_u64_to_le_bytes(spec_i64_bits(t0.sequence_number))[k - 73]);
        } else {
            assert(bs.subrange(pos + 81, pos + 81 + m)[k - 81] == bs[pos + k]);
            assert(c8[k] == spec_enc_str(t0.market_id)[k - 81]);
        }
    }
    assert(bs.subrange(pos, pos + 81 + m) =~= e);
}

/// Decodes one trade, exactly as `dec_order` decodes an order.
fn dec_trade(b: &Vec<u8>, pos: usize) -> (r: Option<(Trade, usize)>)
    requires
        pos <= b@.len(),
    ensures
        r matches Some((t, p2)) ==> pos < p2 <= b@.len() && b@.subrange(pos as int, p2 as int)
            == spec_enc_trade(t@) && p2 == pos + spec_enc_trade(t@).len(),
        forall|t0: TradeV|
            pos + (#[trigger] spec_enc_trade(t0)).len() <= b@.len() && b@.subrange(
                pos as int,
                pos + spec_enc_trade(t0).len(),
            ) == spec_enc_trade(t0) ==> (r matches Some((t, p2)) && t@ == t0 && p2 == pos
                + spec_enc_trade(t0).len()),
{
    let blen = b.len();
    proof {
        lemma_auto_spec_u64_to_from_le_bytes();
        lemma_auto_spec_u128_to_from_le_bytes();
        assert(b@.len() == blen);
    }
    if blen - pos < 81 {
        proof {
            assert forall|t0: TradeV|
                pos + (#[trigger] spec_enc_trade(t0)).len() <= b@.len() && b@.subrange(
                    pos as int,
                    pos + spec_enc_trade(t0).len(),
                ) == spec_enc_trade(t0) implies false by {
                lemma_enc_trade_fields(b@, pos as int, t0);
            }
        }
        return None;
    }
    let id = read_u128(b, pos);
    let taker_order_id = read_u128(b, pos + 16);
    let maker_order_id = read_u128(b, pos + 32);
    let side = match byte_to_side(b[pos + 48]) {
        Some(sd) => sd,
        None => {
            proof {
                assert forall|t0: TradeV|
                    pos + (#[trigger] spec_enc_trade(t0)).len() <= b@.len() && b@.subrange(
                        pos as int,
                        pos + spec_enc_trade(t0).len(),
                    ) == spec_enc_trade(t0) implies false by {
                    lemma_enc_trade_fields(b@, pos as int, t0);
                }
            }
            return None;
        },
    };
    let price = read_u64(b, pos + 49);
    let quantity = read_u64(b, pos + 57);
    let timestamp_ns = read_i64(b, pos + 65);
    let sequence_number = read_i64(b, pos + 73);
    let (market_id, p_m) = match dec_str(b, pos + 81) {
        Some(x) => x,
        None => {
            proof {
                assert forall|t0: TradeV|
                    pos + (#[trigger] spec_enc_trade(t0)).len() <= b@.len() && b@.subrange(
                        pos as int,
                        pos + spec_enc_trade(t0).len(),
                    ) == spec_enc_trade(t0) implies false by {
                    lemma_enc_trade_fields(b@, pos as int, t0);
                }
            }
            return None;
        },
    };
    let t = Trade {
        id,
        market_id,
        taker_order_id,
        maker_order_id,
        side,
        price,
        quantity,
        timestamp_ns,
        sequence_number,
    };
    proof {
        lemma_enc_trade_assemble(b@, pos as int, t@);
        assert forall|t0: TradeV|
            pos + (#[trigger] spec_enc_trade(t0)).len() <= b@.len() && b@.subrange(
                pos as int,
                pos + spec_enc_trade(t0).len(),
            ) == spec_enc_trade(t0) implies t@ == t0 && p_m == pos + spec_enc_trade(t0).len() by {
            lemma_enc_trade_fields(b@, pos as int, t0);
            let a = timestamp_ns;
            let c = t0.timestamp_ns;
            assert(spec_i64_bits(a) == spec_i64_bits(c));
            assert(((a as u64) == (c as u64)) ==> a == c) by (bit_vector);
            let a2 = sequence_number;
            let c2 = t0.sequence_number;
            assert(spec_i64_bits(a2) == spec_i64_bits(c2));
            assert(((a2 as u64) == (c2 as u64)) ==> a2 == c2) by (bit_vector);
            assert(market_id@ == t0.market_id);
            assert(t@ =~~= t0);
        }
    }
    Some((t, p_m))
}


/// The tag byte of an event's encoding.
pub open spec fn event_tag(e: EventV) -> u8 {
    match e {
        EventV::OrderPlaced { .. } => 0,
        EventV::OrderCancelled { .. } => 1,
        EventV::TradeExecuted { .. } => 2,
    }
}

/// The field positions inside an event's encoding, read off the layout.
proof fn lemma_enc_event_fields(bs: Seq<u8>, pos: int, e0: EventV)
    requires
        0 <= pos,
        pos + spec_enc_event(e0).len() <= bs.len(),
        bs.subrange(pos, pos + spec_enc_event(e0).len()) == spec_enc_event(e0),
    ensures
        spec_enc_event(e0).len() >= 17,
        bs[pos] == event_tag(e0),
        bs.subrange(pos + 1, pos + 9) == spec_u64_to_le_bytes(spec_i64_bits(e0.seq_no())),
        bs.subrange(pos + 9, pos + 17) == spec_u64_to_le_bytes(spec_i64_bits(e0.ts())),
        (e0 matches EventV::OrderPlaced { order, .. } ==> spec_enc_event(e0).len() == 17
            + spec_enc_order(order).len() && bs.subrange(
            pos + 17,
            pos + 17 + spec_enc_order(order).len(),
        ) == spec_enc_order(order)),
        (e0 matches EventV::TradeExecuted { trade, .. } ==> spec_enc_event(e0).len() == 17
            + spec_enc_trade(trade).len() && bs.subrange(
            pos + 17,
            pos + 17 + spec_enc_trade(trade).len(),
        ) == spec_enc_trade(trade)),
        (e0 matches EventV::OrderCancelled {
            order_id,
            market_id,
            side,
            price,
            cancelled_quantity,
            ..
        } ==> ({
            let m = spec_enc_str(market_id).len();
            &&& spec_enc_event(e0).len() == 51 + m
            &&& bs.subrange(pos + 17, pos + 33) == spec_u128_to_le_bytes(order_id)
            &&& bs[pos + 33] == side_byte(side)
            &&& bs.subrange(pos + 34, pos + 43) == spec_enc_opt_price(price)
            &&& bs.subrange(pos + 43, pos + 51) == spec_u64_to_le_bytes(cancelled_quantity)
            &&& bs.subrange(pos + 51, pos + 51 + m) == spec_enc_str(market_id)
        })),
{
    let e = spec_enc_event(e0);
    assert(forall|x: u64| (#[trigger] spec_u64_to_le_bytes(x)).len() == 8) by {
        lemma_auto_spec_u64_to_from_le_bytes();
    }
    assert(forall|x: u128| (#[trigger] spec_u128_to_le_bytes(x)).len() == 16) by {
        lemma_auto_spec_u128_to_from_le_bytes();
    }
    assert forall|k: int| 0 <= k < e.len() implies bs[pos + k] == e[k] by {
        assert(bs.subrange(pos, pos + spec_enc_event(e0).len())[k] == bs[pos + k]);
    }
    match e0 {
        EventV::OrderPlaced { order, sequence_number, timestamp_ns } => {
            let c0 = seq![0u8];
            let c1 = c0 + spec_u64_to_le_bytes(spec_i64_bits(sequence_number));
            let c2 = c1 + spec_u64_to_le_bytes(spec_i64_bits(timestamp_ns));
            let c3 = c2 + spec_enc_order(order);
            assert(e == c3);
            let ol = spec_enc_order(order).len();
            assert(c0.len() == 1 && c1.len() == 9 && c2.len() == 17 && c3.len() == 17 + ol);
            lemma_enc_order_len(order);
            assert(bs[pos] == e[0]);
            assert forall|k: int|
                0 <= k < 8 implies e[1 + k] == spec_u64_to_le_bytes(
                spec_i64_bits(sequence_number),
            )[k] by {
                assert(e[1 + k] == c1[1 + k]);
            }
            assert(bs.subrange(pos + 1, pos + 9) =~= spec_u64_to_le_bytes(
                spec_i64_bits(sequence_number),
            ));
            assert forall|k: int|
                0 <= k < 8 implies e[9 + k] == spec_u64_to_le_bytes(spec_i64_bits(timestamp_ns))[k]
            by {
                assert(e[9 + k] == c2[9 + k]);
            }
            assert(bs.subrange(pos + 9, pos + 17) =~= spec_u64_to_le_bytes(
                spec_i64_bits(timestamp_ns),
            ));
            assert forall|k: int| 0 <= k < ol implies e[17 + k] == spec_enc_order(order)[k] by {
                assert(e[17 + k] == c3[17 + k]);
            }
            assert(bs.subrange(pos + 17, pos + 17 + ol) =~= spec_enc_order(order));
        },
        EventV::TradeExecuted { trade, sequence_number, timestamp_ns } => {
            let c0 = seq![2u8];
            let c1 = c0 + spec_u64_to_le_bytes(spec_i64_bits(sequence_number));
            let c2 = c1 + spec_u64_to_le_bytes(spec_i64_bits(timestamp_ns));
            let c3 = c2 + spec_enc_trade(trade);
            assert(e == c3);
            let tl = spec_enc_trade(trade).len();
            assert(c0.len() == 1 && c1.len() == 9 && c2.len() == 17 && c3.len() == 17 + tl);
            lemma_enc_trade_len(trade);
            assert(bs[pos] == e[0]);
            assert forall|k: int|
                0 <= k < 8 implies e[1 + k] == spec_u64_to_le_bytes(
                spec_i64_bits(sequence_number),
            )[k] by {
                assert(e[1 + k] == c1[1 + k]);
            }
            assert(bs.subrange(pos + 1, pos + 9) =~= spec_u64_to_le_bytes(
                spec_i64_bits(sequence_number),
            ));
            assert forall|k: int|
                0 <= k < 8 implies e[9 + k] == spec_u64_to_le_bytes(spec_i64_bits(timestamp_ns))[k]
            by {
                assert(e[9 + k] == c2[9 + k]);
            }
            assert(bs.subrange(pos + 9, pos + 17) =~= spec_u64_to_le_bytes(
                spec_i64_bits(timestamp_ns),
            ));
            assert forall|k: int| 0 <= k < tl implies e[17 + k] == spec_enc_trade(trade)[k] by {
                assert(e[17 + k] == c3[17 + k]);
            }
            assert(bs.subrange(pos + 17, pos + 17 + tl) =~= spec_enc_trade(trade));
        },
        EventV::OrderCancelled {
            order_id,
            market_id,
            side,
            price,
            cancelled_quantity,
            sequence_number,
            timestamp_ns,
        } => {
            let m = spec_enc_str(market_id).len();
            let c0 = seq![1u8];
            let c1 = c0 + spec_u64_to_le_bytes(spec_i64_bits(sequence_number));
            let c2 = c1 + spec_u64_to_le_bytes(spec_i64_bits(timestamp_ns));
            let c3 = c2 + spec_u128_to_le_bytes(order_id);
            let c4 = c3 + seq![side_byte(side)];
            let c5 = c4 + spec_enc_opt_price(price);
            let c6 = c5 + spec_u64_to_le_bytes(cancelled_quantity);
            let c7 = c6 + spec_enc_str(market_id);
            assert(e == c7);
            assert(spec_enc_opt_price(price).len() == 9);
            assert(c0.len() == 1 && c1.len() == 9 && c2.len() == 17 && c3.len() == 33 && c4.len()
                == 34 && c5.len() == 43 && c6.len() == 51 && c7.len() == 51 + m);
            assert(bs[pos] == e[0]);
            assert forall|k: int|
                0 <= k < 8 implies e[1 + k] == spec_u64_to_le_bytes(
                spec_i64_bits(sequence_number),
            )[k] by {
                assert(e[1 + k] == c1[1 + k]);
            }
            assert(bs.subrange(pos + 1, pos + 9) =~= spec_u64_to_le_bytes(
                spec_i64_bits(sequence_number),
            ));
            assert forall|k: int|
                0 <= k < 8 implies e[9 + k] == spec_u64_to_le_bytes(spec_i64_bits(timestamp_ns))[k]
            by {
                assert(e[9 + k] == c2[9 + k]);
            }
            assert(bs.subrange(pos + 9, pos + 17) =~= spec_u64_to_le_bytes(
                spec_i64_bits(timestamp_ns),
            ));
            assert forall|k: int|
                0 <= k < 16 implies e[17 + k] == spec_u128_to_le_bytes(order_id)[k] by {
                assert(e[17 + k] == c3[17 + k]);
            }
            assert(bs.subrange(pos + 17, pos + 33) =~= spec_u128_to_le_bytes(order_id));
            assert(bs[pos + 33] == e[33]);
            assert forall|k: int| 0 <= k < 9 implies e[34 + k] == spec_enc_opt_price(price)[k] by {
                assert(e[34 + k] == c5[34 + k]);
            }
            assert(bs.subrange(pos + 34, pos + 43) =~= spec_enc_opt_price(price));
            assert forall|k: int|
                0 <= k < 8 implies e[43 + k] == spec_u64_to_le_bytes(cancelled_quantity)[k] by {
                assert(e[43 + k] == c6[43 + k]);
            }
            assert(bs.subrange(pos + 43, pos + 51) =~= spec_u64_to_le_bytes(cancelled_quantity));
            assert forall|k: int| 0 <= k < m implies e[51 + k] == spec_enc_str(market_id)[k] by {
                assert(e[51 + k] == c7[51 + k]);
            }
            assert(bs.subrange(pos + 51, pos + 51 + m) =~= spec_enc_str(market_id));
        },
    }
}

/// An order's encoding is its fixed header plus its two strings.
proof fn lemma_enc_order_len(o0: OrderV)
    ensures
        spec_enc_order(o0).len() == 68 + spec_enc_str(o0.market_id).len() + spec_enc_str(
            o0.user_id,
        ).len(),
        spec_enc_str(o0.market_id).len() >= 8,
        spec_enc_str(o0.user_id).len() >= 8,
{
    assert(forall|x: u64| (#[trigger] spec_u64_to_le_bytes(x)).len() == 8) by {
        lemma_auto_spec_u64_to_from_le_bytes();
    }
    assert(spec_u128_to_le_bytes(o0.id).len() == 16) by {
        lemma_auto_spec_u128_to_from_le_bytes();
    }
    assert(spec_enc_opt_price(o0.price).len() == 9);
}

/// A trade's encoding is its fixed header plus its market string.
proof fn lemma_enc_trade_len(t0: TradeV)
    ensures
        spec_enc_trade(t0).len() == 81 + spec_enc_str(t0.market_id).len(),
        spec_enc_str(t0.market_id).len() >= 8,
{
    assert(forall|x: u64| (#[trigger] spec_u64_to_le_bytes(x)).len() == 8) by {
        lemma_auto_spec_u64_to_from_le_bytes();
    }
    assert(forall|x: u128| (#[trigger] spec_u128_to_le_bytes(x)).len() == 16) by {
        lemma_auto_spec_u128_to_from_le_bytes();
    }
}


proof fn lemma_assemble_placed(bs: Seq<u8>, pos: int, order: OrderV, sq: i64, tns: i64)
    requires
        0 <= pos,
        pos + 17 + spec_enc_order(order).len() <= bs.len(),
        bs[pos] == 0u8,
        bs.subrange(pos + 1, pos + 9) == spec_u64_to_le_bytes(spec_i64_bits(sq)),
        bs.subrange(pos + 9, pos + 17) == spec_u64_to_le_bytes(spec_i64_bits(tns)),
        bs.subrange(pos + 17, pos + 17 + spec_enc_order(order).len()) == spec_enc_order(order),
    ensures
        ({
            let e0 = EventV::OrderPlaced { order, sequence_number: sq, timestamp_ns: tns };
            &&& spec_enc_event(e0).len() == 17 + spec_enc_order(order).len()
            &&& bs.subrange(pos, pos + 17 + spec_enc_order(order).len()) == spec_enc_event(e0)
        }),
{
    let e0 = EventV::OrderPlaced { order, sequence_number: sq, timestamp_ns: tns };
    let e = spec_enc_event(e0);
    let ol = spec_enc_order(order).len();
    assert(forall|x: u64| (#[trigger] spec_u64_to_le_bytes(x)).len() == 8) by {
        lemma_auto_spec_u64_to_from_le_bytes();
    }
    let c0 = seq![0u8];
    let c1 = c0 + spec_u64_to_le_bytes(spec_i64_bits(sq));
    let c2 = c1 + spec_u64_to_le_bytes(spec_i64_bits(tns));
    let c3 = c2 + spec_enc_order(order);
    assert(e == c3);
    assert(c0.len() == 1 && c1.len() == 9 && c2.len() == 17 && c3.len() == 17 + ol);
    assert forall|k: int| 0 <= k < 17 + ol implies bs[pos + k] == e[k] by {
        assert(e[k] == c3[k]);
        if k < 1 {
        } else if k < 9 {
            assert(bs.subrange(pos + 1, pos + 9)[k - 1] == bs[pos + k]);
            assert(c3[k] == spec_u64_to_le_bytes(spec_i64_bits(sq))[k - 1]);
        } else if k < 17 {
            assert(bs.subrange(pos + 9, pos + 17)[k - 9] == bs[pos + k]);
            assert(c3[k] == spec_u64_to_le_bytes(spec_i64_bits(tns))[k - 9]);
        } else {
            assert(bs.subrange(pos + 17, pos + 17 + ol)[k - 17] == bs[pos + k]);
            assert(c3[k] == spec_enc_order(order)[k - 17]);
        }
    }
    assert(bs.subrange(pos, pos + 17 + ol) =~= e);
}

proof fn lemma_assemble_trade_event(bs: Seq<u8>, pos: int, trade: TradeV, sq: i64, tns: i64)
    requires
        0 <= pos,
        pos + 17 + spec_enc_trade(trade).len() <= bs.len(),
        bs[pos] == 2u8,
        bs.subrange(pos + 1, pos + 9) == spec_u64_to_le_bytes(spec_i64_bits(sq)),
        bs.subrange(pos + 9, pos + 17) == spec_u64_to_le_bytes(spec_i64_bits(tns)),
        bs.subrange(pos + 17, pos + 17 + spec_enc_trade(trade).len()) == spec_enc_trade(trade),
    ensures
        ({
            let e0 = EventV::TradeExecuted { trade, sequence_number: sq, timestamp_ns: tns };
            &&& spec_enc_event(e0).len() == 17 + spec_enc_trade(trade).len()
            &&& bs.subrange(pos, pos + 17 + spec_enc_trade(trade).len()) == spec_enc_event(e0)
        }),
{
    let e0 = EventV::TradeExecuted { trade, sequence_number: sq, timestamp_ns: tns };
    let e = spec_enc_event(e0);
    let tl = spec_enc_trade(trade).len();
    assert(forall|x: u64| (#[trigger] spec_u64_to_le_bytes(x)).len() == 8) by {
        lemma_auto_spec_u64_to_from_le_bytes();
    }
    let c0 = seq![2u8];
    let c1 = c0 + spec_u64_to_le_bytes(spec_i64_bits(sq));
    let c2 = c1 + spec_u64_to_le_bytes(spec_i64_bits(tns));
    let c3 = c2 + spec_enc_trade(trade);
    assert(e == c3);
    assert(c0.len() == 1 && c1.len() == 9 && c2.len() == 17 && c3.len() == 17 + tl);
    assert forall|k: int| 0 <= k < 17 + tl implies bs[pos + k] == e[k] by {
        assert(e[k] == c3[k]);
        if k < 1 {
        } else if k < 9 {
            assert(bs.subrange(pos + 1, pos + 9)[k - 1] == bs[pos + k]);
            assert(c3[k] == spec_u64_to_le_bytes(spec_i64_bits(sq))[k - 1]);
        } else if k < 17 {
            assert(bs.subrange(pos + 9, pos + 17)[k - 9] == bs[pos + k]);
            assert(c3[k] == spec_u64_to_le_bytes(spec_i64_bits(tns))[k - 9]);
        } else {
            assert(bs.subrange(pos + 17, pos + 17 + tl)[k - 17] == bs[pos + k]);
            assert(c3[k] == spec_enc_trade(trade)[k - 17]);
        }
    }
    assert(bs.subrange(pos, pos + 17 + tl) =~= e);
}

proof fn lemma_assemble_cancelled(
    bs: Seq<u8>,
    pos: int,
    order_id: u128,
    market_id: Seq<char>,
    side: OrderSide,
    price: Option<u64>,
    cancelled_quantity: u64,
    sq: i64,
    tns: i64,
)
    requires
        0 <= pos,
        pos + 51 + spec_enc_str(market_id).len() <= bs.len(),
        bs[pos] == 1u8,
        bs.subrange(pos + 1, pos + 9) == spec_u64_to_le_bytes(spec_i64_bits(sq)),
        bs.subrange(pos + 9, pos + 17) == spec_u64_to_le_bytes(spec_i64_bits(tns)),
        bs.subrange(pos + 17, pos + 33) == spec_u128_to_le_bytes(order_id),
        bs[pos + 33] == side_byte(side),
        bs.subrange(pos + 34, pos + 43) == spec_enc_opt_price(price),
        bs.subrange(pos + 43, pos + 51) == spec_u64_to_le_bytes(cancelled_quantity),
        bs.subrange(pos + 51, pos + 51 + spec_enc_str(market_id).len()) == spec_enc_str(market_id),
    ensures
        ({
            let e0 = EventV::OrderCancelled {
                order_id,
                market_id,
                side,
                price,
                cancelled_quantity,
                sequence_number: sq,
                timestamp_ns: tns,
            };
            &&& spec_enc_event(e0).len() == 51 + spec_enc_str(market_id).len()
            &&& bs.subrange(pos, pos + 51 + spec_enc_str(market_id).len()) == spec_enc_event(e0)
        }),
{
    let e0 = EventV::OrderCancelled {
        order_id,
        market_id,
        side,
        price,
        cancelled_quantity,
        sequence_number: sq,
        timestamp_ns: tns,
    };
    let e = spec_enc_event(e0);
    let m = spec_enc_str(market_id).len();
    assert(forall|x: u64| (#[trigger] spec_u64_to_le_bytes(x)).len() == 8) by {
        lemma_auto_spec_u64_to_from_le_bytes();
    }
    assert(spec_u128_to_le_bytes(order_id).len() == 16) by {
        lemma_auto_spec_u128_to_from_le_bytes();
    }
    let c0 = seq![1u8];
    let c1 = c0 + spec_u64_to_le_bytes(spec_i64_bits(sq));
    let c2 = c1 + spec_u64_to_le_bytes(spec_i64_bits(tns));
    let c3 = c2 + spec_u128_to_le_bytes(order_id);
    let c4 = c3 + seq![side_byte(side)];
    let c5 = c4 + spec_enc_opt_price(price);
    let c6 = c5 + spec_u64_to_le_bytes(cancelled_quantity);
    let c7 = c6 + spec_enc_str(market_id);
    assert(e == c7);
    assert(spec_enc_opt_price(price).len() == 9);
    assert(c0.len() == 1 && c1.len() == 9 && c2.len() == 17 && c3.len() == 33 && c4.len() == 34
        && c5.len() == 43 && c6.len() == 51 && c7.len() == 51 + m);
    assert forall|k: int| 0 <= k < 51 + m implies bs[pos + k] == e[k] by {
        assert(e[k] == c7[k]);
        if k < 1 {
        } else if k < 9 {
            assert(bs.subrange(pos + 1, pos + 9)[k - 1] == bs[pos + k]);
            assert(c7[k] == spec_u64_to_le_bytes(spec_i64_bits(sq))[k - 1]);
        } else if k < 17 {
            assert(bs.subrange(pos + 9, pos + 17)[k - 9] == bs[pos + k]);
            assert(c7[k] == spec_u64_to_le_bytes(spec_i64_bits(tns))[k - 9]);
        } else if k < 33 {
            assert(bs.subrange(pos + 17, pos + 33)[k - 17] == bs[pos + k]);
            assert(c7[k] == spec_u128_to_le_bytes(order_id)[k - 17]);
        } else if k < 34 {
        } else if k < 43 {
            assert(bs.subrange(pos + 34, pos + 43)[k - 34] == bs[pos + k]);
            assert(c7[k] == spec_enc_opt_price(price)[k - 34]);
        } else if k < 51 {
            assert(bs.subrange(pos + 43, pos + 51)[k - 43] == bs[pos + k]);
            assert(c7[k] == spec_u64_to_le_bytes(cancelled_quantity)[k - 43]);
        } else {
            assert(bs.subrange(pos + 51, pos + 51 + m)[k - 51] == bs[pos + k]);
            assert(c7[k] == spec_enc_str(market_id)[k - 51]);
        }
    }
    assert(bs.subrange(pos, pos + 51 + m) =~= e);
}


/// Decodes one event; any event whose encoding lies at `pos` is the one
/// returned.
#[verifier::rlimit(60)]
fn dec_event(b: &Vec<u8>, pos: usize) -> (r: Option<(Event, usize)>)
    requires
        pos <= b@.len(),
    ensures
        r matches Some((e, p2)) ==> pos < p2 <= b@.len() && b@.subrange(pos as int, p2 as int)
            == spec_enc_event(e@) && p2 == pos + spec_enc_event(e@).len(),
        forall|e0: EventV|
            pos + (#[trigger] spec_enc_event(e0)).len() <= b@.len() && b@.subrange(
                pos as int,
                pos + spec_enc_event(e0).len(),
            ) == spec_enc_event(e0) ==> (r matches Some((e, p2)) && e@ == e0 && p2 == pos
                + spec_enc_event(e0).len()),
{
    let blen = b.len();
    proof {
        lemma_auto_spec_u64_to_from_le_bytes();
        lemma_auto_spec_u128_to_from_le_bytes();
        assert(b@.len() == blen);
    }
    if blen - pos < 17 {
        proof {
            assert forall|e0: EventV|
                pos + (#[trigger] spec_enc_event(e0)).len() <= b@.len() && b@.subrange(
                    pos as int,
                    pos + spec_enc_event(e0).len(),
                ) == spec_enc_event(e0) implies false by {
                lemma_enc_event_fields(b@, pos as int, e0);
            }
        }
        return None;
    }
    let tag = b[pos];
    let sequence_number = read_i64(b, pos + 1);
    let timestamp_ns = read_i64(b, pos + 9);
    if tag == 0 {
        match dec_order(b, pos + 17) {
            Some((order, p2)) => {
                let ev = Event::OrderPlaced { order, sequence_number, timestamp_ns };
                proof {
                    lemma_assemble_placed(
                        b@,
                        pos as int,
                        ev->OrderPlaced_order@,
                        sequence_number,
                        timestamp_ns,
                    );
                    assert forall|e0: EventV|
                        pos + (#[trigger] spec_enc_event(e0)).len() <= b@.len() && b@.subrange(
                            pos as int,
                            pos + spec_enc_event(e0).len(),
                        ) == spec_enc_event(e0) implies ev@ == e0 && p2 == pos + spec_enc_event(
                        e0,
                    ).len() by {
                        lemma_enc_event_fields(b@, pos as int, e0);
                        assert(event_tag(e0) == 0);
                        let o0 = e0->OrderPlaced_order;
                        assert(order@ == o0);
                        let a = sequence_number;
                        let c = e0->OrderPlaced_sequence_number;
                        assert(spec_i64_bits(a) == spec_i64_bits(c));
                        assert(((a as u64) == (c as u64)) ==> a == c) by (bit_vector);
                        let a2 = timestamp_ns;
                        let c2 = e0->OrderPlaced_timestamp_ns;
                        assert(spec_i64_bits(a2) == spec_i64_bits(c2));
                        assert(((a2 as u64) == (c2 as u64)) ==> a2 == c2) by (bit_vector);
                        assert(ev@ =~~= e0);
                    }
                }
                Some((ev, p2))
            },
            None => {
                proof {
                    assert forall|e0: EventV|
                        pos + (#[trigger] spec_enc_event(e0)).len() <= b@.len() && b@.subrange(
                            pos as int,
                            pos + spec_enc_event(e0).len(),
                        ) == spec_enc_event(e0) implies false by {
                        lemma_enc_event_fields(b@, pos as int, e0);
                        assert(event_tag(e0) == 0);
                    }
                }
                None
            },
        }
    } else if tag == 2 {
        match dec_trade(b, pos + 17) {
            Some((trade, p2)) => {
                let ev = Event::TradeExecuted { trade, sequence_number, timestamp_ns };
                proof {
                    lemma_assemble_trade_event(
                        b@,
                        pos as int,
                        ev->TradeExecuted_trade@,
                        sequence_number,
                        timestamp_ns,
                    );
                    assert forall|e0: EventV|
                        pos + (#[trigger] spec_enc_event(e0)).len() <= b@.len() && b@.subrange(
                            pos as int,
                            pos + spec_enc_event(e0).len(),
                        ) == spec_enc_event(e0) implies ev@ == e0 && p2 == pos + spec_enc_event(
                        e0,
                    ).len() by {
                        lemma_enc_event_fields(b@, pos as int, e0);
                        assert(event_tag(e0) == 2);
                        let t0 = e0->TradeExecuted_trade;
                        assert(trade@ == t0);
                        let a = sequence_number;
                        let c = e0->TradeExecuted_sequence_number;
                        assert(spec_i64_bits(a) == spec_i64_bits(c));
                        assert(((a as u64) == (c as u64)) ==> a == c) by (bit_vector);
                        let a2 = timestamp_ns;
                        let c2 = e0->TradeExecuted_timestamp_ns;
                        assert(spec_i64_bits(a2) == spec_i64_bits(c2));
                        assert(((a2 as u64) == (c2 as u64)) ==> a2 == c2) by (bit_vector);
                        assert(ev@ =~~= e0);
                    }
                }
                Some((ev, p2))
            },
            None => {
                proof {
                    assert forall|e0: EventV|
                        pos + (#[trigger] spec_enc_event(e0)).len() <= b@.len() && b@.subrange(
                            pos as int,
                            pos + spec_enc_event(e0).len(),
                        ) == spec_enc_event(e0) implies false by {
                        lemma_enc_event_fields(b@, pos as int, e0);
                        assert(event_tag(e0) == 2);
                    }
                }
                None
            },
        }
    } else if tag == 1 {
        if blen - pos < 51 {
            proof {
                assert forall|e0: EventV|
                    pos + (#[trigger] spec_enc_event(e0)).len() <= b@.len() && b@.subrange(
                        pos as int,
                        pos + spec_enc_event(e0).len(),
                    ) == spec_enc_event(e0) implies false by {
                    lemma_enc_event_fields(b@, pos as int, e0);
                    assert(event_tag(e0) == 1);
                }
            }
            return None;
        }
        let order_id = read_u128(b, pos + 17);
        let side = match byte_to_side(b[pos + 33]) {
            Some(sd) => sd,
            None => {
                proof {
                    assert forall|e0: EventV|
                        pos + (#[trigger] spec_enc_event(e0)).len() <= b@.len() && b@.subrange(
                            pos as int,
                            pos + spec_enc_event(e0).len(),
                        ) == spec_enc_event(e0) implies false by {
                        lemma_enc_event_fields(b@, pos as int, e0);
                        assert(event_tag(e0) == 1);
                    }
                }
                return None;
            },
        };
        let price = match dec_opt_price(b, pos + 34) {
            Some(p) => p,
            None => {
                proof {
                    assert forall|e0: EventV|
                        pos + (#[trigger] spec_enc_event(e0)).len() <= b@.len() && b@.subrange(
                            pos as int,
                            pos + spec_enc_event(e0).len(),
                        ) == spec_enc_event(e0) implies false by {
                        lemma_enc_event_fields(b@, pos as int, e0);
                        assert(event_tag(e0) == 1);
                    }
                }
                return None;
            },
        };
        let cancelled_quantity = read_u64(b, pos + 43);
        match dec_str(b, pos + 51) {
            Some((market_id, p2)) => {
                let ev = Event::OrderCancelled {
                    order_id,
                    market_id,
                    side,
                    price,
                    cancelled_quantity,
                    sequence_number,
                    timestamp_ns,
                };
                proof {
                    lemma_assemble_cancelled(
                        b@,
                        pos as int,
                        order_id,
                        ev->OrderCancelled_market_id@,
                        side,
                        price,
                        cancelled_quantity,
                        sequence_number,
                        timestamp_ns,
                    );
                    assert forall|e0: EventV|
                        pos + (#[trigger] spec_enc_event(e0)).len() <= b@.len() && b@.subrange(
                            pos as int,
                            pos + spec_enc_event(e0).len(),
                        ) == spec_enc_event(e0) implies ev@ == e0 && p2 == pos + spec_enc_event(
                        e0,
                    ).len() by {
                        lemma_enc_event_fields(b@, pos as int, e0);
                        assert(event_tag(e0) == 1);
                        assert(order_id == e0->OrderCancelled_order_id);
                        assert(price == e0->OrderCancelled_price);
                        assert(cancelled_quantity == e0->OrderCancelled_cancelled_quantity);
                        assert(ev->OrderCancelled_market_id@ == e0->OrderCancelled_market_id);
                        let a = sequence_number;
                        let c = e0->OrderCancelled_sequence_number;
                        assert(spec_i64_bits(a) == spec_i64_bits(c));
                        assert(((a as u64) == (c as u64)) ==> a == c) by (bit_vector);
                        let a2 = timestamp_ns;
                        let c2 = e0->OrderCancelled_timestamp_ns;
                        assert(spec_i64_bits(a2) == spec_i64_bits(c2));
                        assert(((a2 as u64) == (c2 as u64)) ==> a2 == c2) by (bit_vector);
                        assert(ev@ =~~= e0);
                    }
                }
                Some((ev, p2))
            },
            None => {
                proof {
                    assert forall|e0: EventV|
                        pos + (#[trigger] spec_enc_event(e0)).len() <= b@.len() && b@.subrange(
                            pos as int,
                            pos + spec_enc_event(e0).len(),
                        ) == spec_enc_event(e0) implies false by {
                        lemma_enc_event_fields(b@, pos as int, e0);
                        assert(event_tag(e0) == 1);
                    }
                }
                None
            },
        }
    } else {
        proof {
            assert forall|e0: EventV|
                pos + (#[trigger] spec_enc_event(e0)).len() <= b@.len() && b@.subrange(
                    pos as int,
                    pos + spec_enc_event(e0).len(),
                ) == spec_enc_event(e0) implies false by {
                lemma_enc_event_fields(b@, pos as int, e0);
            }
        }
        None
    }
}


/// Mathematical model of a [`WALEntry`].
#[verifier::ext_equal]
pub ghost struct WalEntryV {
    pub sequence_number: i64,
    pub timestamp_ns: i64,
    pub event: EventV,
    pub checksum: u32,
}

/// One persisted record: the event, its sequence and timestamp, and the
/// CRC-32 of the event's canonical bytes.
#[derive(Debug, PartialEq)]
pub struct WALEntry {
    pub sequence_number: i64,
    pub timestamp_ns: i64,
    pub event: Event,
    pub checksum: u32,
}

impl View for WALEntry {
    type V = WalEntryV;

    open spec fn view(&self) -> WalEntryV {
        WalEntryV {
            sequence_number: self.sequence_number,
            timestamp_ns: self.timestamp_ns,
            event: self.event@,
            checksum: self.checksum,
        }
    }
}

impl Clone for WALEntry {
    fn clone(&self) -> (r: Self)
        ensures
            r@ == self@,
    {
        WALEntry {
            sequence_number: self.sequence_number,
            timestamp_ns: self.timestamp_ns,
            event: self.event.clone(),
            checksum: self.checksum,
        }
    }
}

/// The byte encoding of an entry: sequence, timestamp, checksum, event.
pub open spec fn spec_enc_entry(e: WalEntryV) -> Seq<u8> {
    spec_u64_to_le_bytes(spec_i64_bits(e.sequence_number)) + spec_u64_to_le_bytes(
        spec_i64_bits(e.timestamp_ns),
    ) + spec_u32_to_le_bytes(e.checksum) + spec_enc_event(e.event)
}

/// One framed record: the payload length, then the payload.
pub open spec fn spec_record(e: WalEntryV) -> Seq<u8> {
    spec_u64_to_le_bytes(spec_enc_entry(e).len() as u64) + spec_enc_entry(e)
}

/// The whole log as bytes: the records in order.
pub open spec fn spec_wal_bytes(entries: Seq<WalEntryV>) -> Seq<u8>
    decreases entries.len(),
{
    if entries.len() == 0 {
        Seq::empty()
    } else {
        spec_record(entries[0]) + spec_wal_bytes(entries.drop_first())
    }
}

/// The fixed file header: four magic bytes, a format version, and two
/// reserved bytes, guarding against mis-opened files.
pub open spec fn wal_header() -> Seq<u8> {
    seq![77u8, 69u8, 87u8, 76u8, 1u8, 0u8, 0u8, 0u8]
}

/// The whole log file: the header, then the records in order.
pub open spec fn spec_wal_image(entries: Seq<WalEntryV>) -> Seq<u8> {
    wal_header() + spec_wal_bytes(entries)
}

/// An entry is internally consistent: its checksum is the CRC-32 of its
/// event's bytes, and it carries its event's sequence and timestamp.
pub open spec fn valid_entry(e: WalEntryV) -> bool {
    &&& e.checksum == crc32_of(spec_enc_event(e.event))
    &&& e.sequence_number == e.event.seq_no()
    &&& e.timestamp_ns == e.event.ts()
}

/// A log is valid when every entry is and sequence numbers strictly grow.
pub open spec fn valid_log(es: Seq<WalEntryV>) -> bool {
    &&& forall|i: int| 0 <= i < es.len() ==> valid_entry(#[trigger] es[i])
    &&& forall|i: int, j: int|
        0 <= i < j < es.len() ==> (#[trigger] es[i]).sequence_number < (
        #[trigger] es[j]).sequence_number
}

/// The models of a list of entries.
pub open spec fn entries_view(es: Seq<WALEntry>) -> Seq<WalEntryV> {
    es.map_values(|e: WALEntry| e@)
}

/// Appending one entry appends its record.
proof fn lemma_wal_bytes_push(es: Seq<WalEntryV>, e: WalEntryV)
    ensures
        spec_wal_bytes(es.push(e)) == spec_wal_bytes(es) + spec_record(e),
    decreases es.len(),
{
    let s = es.push(e);
    if es.len() == 0 {
        assert(s.drop_first() =~= Seq::<WalEntryV>::empty());
        assert(s[0] == e);
        assert(spec_wal_bytes(s) == spec_record(e) + spec_wal_bytes(s.drop_first()));
        assert(spec_wal_bytes(Seq::<WalEntryV>::empty()) == Seq::<u8>::empty());
        assert(spec_wal_bytes(s) =~= spec_wal_bytes(es) + spec_record(e));
    } else {
        assert(s[0] == es[0]);
        assert(s.drop_first() =~= es.drop_first().push(e));
        lemma_wal_bytes_push(es.drop_first(), e);
        assert(spec_wal_bytes(s) == spec_record(es[0]) + spec_wal_bytes(s.drop_first()));
        assert(spec_wal_bytes(es) == spec_record(es[0]) + spec_wal_bytes(es.drop_first()));
        assert(spec_wal_bytes(s) =~= spec_wal_bytes(es) + spec_record(e));
    }
}

/// A log's bytes split at any entry boundary.
proof fn lemma_wal_bytes_split(es: Seq<WalEntryV>, i: int)
    requires
        0 <= i <= es.len(),
    ensures
        spec_wal_bytes(es) == spec_wal_bytes(es.take(i)) + spec_wal_bytes(es.skip(i)),
    decreases i,
{
    if i == 0 {
        assert(es.take(0) =~= Seq::<WalEntryV>::empty());
        assert(es.skip(0) =~= es);
        assert(spec_wal_bytes(es) =~= spec_wal_bytes(es.take(0)) + spec_wal_bytes(es.skip(0)));
    } else {
        lemma_wal_bytes_split(es, i - 1);
        assert(es.take(i) =~= es.take(i - 1).push(es[i - 1]));
        lemma_wal_bytes_push(es.take(i - 1), es[i - 1]);
        assert(es.skip(i - 1) =~= seq![es[i - 1]] + es.skip(i));
        assert(spec_wal_bytes(seq![es[i - 1]] + es.skip(i)) == spec_record(es[i - 1])
            + spec_wal_bytes((seq![es[i - 1]] + es.skip(i)).drop_first()));
        assert((seq![es[i - 1]] + es.skip(i)).drop_first() =~= es.skip(i));
        assert(spec_wal_bytes(es) =~= spec_wal_bytes(es.take(i)) + spec_wal_bytes(es.skip(i)));
    }
}

/// Every record is at least as long as its fixed header demands.
proof fn lemma_record_min_len(e: WalEntryV)
    ensures
        spec_enc_entry(e).len() >= 37,
        spec_record(e).len() == 8 + spec_enc_entry(e).len(),
        spec_record(e).len() >= 45,
{
    assert(forall|x: u64| (#[trigger] spec_u64_to_le_bytes(x)).len() == 8) by {
        lemma_auto_spec_u64_to_from_le_bytes();
    }
    assert(spec_u32_to_le_bytes(e.checksum).len() == 4) by {
        lemma_auto_spec_u32_to_from_le_bytes();
    }
    assert(spec_enc_event(e.event).len() >= 17) by {
        lemma_enc_event_min_len(e.event);
    }
}

/// Every event encoding carries at least its header.
proof fn lemma_enc_event_min_len(e0: EventV)
    ensures
        spec_enc_event(e0).len() >= 17,
{
    assert(forall|x: u64| (#[trigger] spec_u64_to_le_bytes(x)).len() == 8) by {
        lemma_auto_spec_u64_to_from_le_bytes();
    }
    match e0 {
        EventV::OrderPlaced { order, .. } => {
            lemma_enc_order_len(order);
        },
        EventV::TradeExecuted { trade, .. } => {
            lemma_enc_trade_len(trade);
        },
        EventV::OrderCancelled { .. } => {
            assert(forall|x: u128| (#[trigger] spec_u128_to_le_bytes(x)).len() == 16) by {
                lemma_auto_spec_u128_to_from_le_bytes();
            }
        },
    }
}

/// The field positions inside an entry's encoding.
proof fn lemma_enc_entry_fields(bs: Seq<u8>, e0: WalEntryV)
    requires
        bs == spec_enc_entry(e0),
    ensures
        bs.len() == 20 + spec_enc_event(e0.event).len(),
        bs.subrange(0, 8) == spec_u64_to_le_bytes(spec_i64_bits(e0.sequence_number)),
        bs.subrange(8, 16) == spec_u64_to_le_bytes(spec_i64_bits(e0.timestamp_ns)),
        bs.subrange(16, 20) == spec_u32_to_le_bytes(e0.checksum),
        bs.subrange(20, 20 + spec_enc_event(e0.event).len() as int) == spec_enc_event(e0.event),
{
    let e = spec_enc_entry(e0);
    let l = spec_enc_event(e0.event).len() as int;
    assert(forall|x: u64| (#[trigger] spec_u64_to_le_bytes(x)).len() == 8) by {
        lemma_auto_spec_u64_to_from_le_bytes();
    }
    assert(spec_u32_to_le_bytes(e0.checksum).len() == 4) by {
        lemma_auto_spec_u32_to_from_le_bytes();
    }
    let c0 = spec_u64_to_le_bytes(spec_i64_bits(e0.sequence_number));
    let c1 = c0 + spec_u64_to_le_bytes(spec_i64_bits(e0.timestamp_ns));
    let c2 = c1 + spec_u32_to_le_bytes(e0.checksum);
    let c3 = c2 + spec_enc_event(e0.event);
    assert(e == c3);
    assert(c0.len() == 8 && c1.len() == 16 && c2.len() == 20 && c3.len() == 20 + l);
    assert(bs.subrange(0, 8) =~= c0);
    assert forall|k: int|
        0 <= k < 8 implies e[8 + k] == spec_u64_to_le_bytes(spec_i64_bits(e0.timestamp_ns))[k] by {
        assert(e[8 + k] == c1[8 + k]);
    }
    assert(bs.subrange(8, 16) =~= spec_u64_to_le_bytes(spec_i64_bits(e0.timestamp_ns)));
    assert forall|k: int| 0 <= k < 4 implies e[16 + k] == spec_u32_to_le_bytes(e0.checksum)[k] by {
        assert(e[16 + k] == c2[16 + k]);
    }
    assert(bs.subrange(16, 20) =~= spec_u32_to_le_bytes(e0.checksum));
    assert forall|k: int| 0 <= k < l implies e[20 + k] == spec_enc_event(e0.event)[k] by {
        assert(e[20 + k] == c3[20 + k]);
    }
    assert(bs.subrange(20, 20 + l) =~= spec_enc_event(e0.event));
}

/// Assembles an entry's encoding from its field slices.
proof fn lemma_enc_entry_assemble(bs: Seq<u8>, e0: WalEntryV)
    requires
        bs.len() == 20 + spec_enc_event(e0.event).len(),
        bs.subrange(0, 8) == spec_u64_to_le_bytes(spec_i64_bits(e0.sequence_number)),
        bs.subrange(8, 16) == spec_u64_to_le_bytes(spec_i64_bits(e0.timestamp_ns)),
        bs.subrange(16, 20) == spec_u32_to_le_bytes(e0.checksum),
        bs.subrange(20, 20 + spec_enc_event(e0.event).len() as int) == spec_enc_event(e0.event),
    ensures
        bs == spec_enc_entry(e0),
{
    let e = spec_enc_entry(e0);
    let l = spec_enc_event(e0.event).len() as int;
    assert(forall|x: u64| (#[trigger] spec_u64_to_le_bytes(x)).len() == 8) by {
        lemma_auto_spec_u64_to_from_le_bytes();
    }
    assert(spec_u32_to_le_bytes(e0.checksum).len() == 4) by {
        lemma_auto_spec_u32_to_from_le_bytes();
    }
    let c0 = spec_u64_to_le_bytes(spec_i64_bits(e0.sequence_number));
    let c1 = c0 + spec_u64_to_le_bytes(spec_i64_bits(e0.timestamp_ns));
    let c2 = c1 + spec_u32_to_le_bytes(e0.checksum);
    let c3 = c2 + spec_enc_event(e0.event);
    assert(e == c3);
    assert(c0.len() == 8 && c1.len() == 16 && c2.len() == 20 && c3.len() == 20 + l);
    assert forall|k: int| 0 <= k < 20 + l implies bs[k] == e[k] by {
        assert(e[k] == c3[k]);
        if k < 8 {
            assert(bs.subrange(0, 8)[k] == bs[k]);
        } else if k < 16 {
            assert(bs.subrange(8, 16)[k - 8] == bs[k]);
            assert(c3[k] == spec_u64_to_le_bytes(spec_i64_bits(e0.timestamp_ns))[k - 8]);
        } else if k < 20 {
            assert(bs.subrange(16, 20)[k - 16] == bs[k]);
            assert(c3[k] == spec_u32_to_le_bytes(e0.checksum)[k - 16]);
        } else {
            assert(bs.subrange(20, 20 + l)[k - 20] == bs[k]);
            assert(c3[k] == spec_enc_event(e0.event)[k - 20]);
        }
    }
    assert(bs =~= e);
}

/// Appends the byte encoding of an entry.
fn enc_entry(out: &mut Vec<u8>, e: &WALEntry)
    ensures
        final(out)@ == old(out)@ + spec_enc_entry(e@),
{
    enc_i64(out, e.sequence_number);
    enc_i64(out, e.timestamp_ns);
    enc_u32(out, e.checksum);
    enc_event(out, &e.event);
    proof {
        assert(final(out)@ =~= old(out)@ + spec_enc_entry(e@));
    }
}

/// Decodes a whole payload as one entry; any entry whose encoding the
/// payload is, is the one returned.
fn dec_entry(payload: &Vec<u8>) -> (r: Option<WALEntry>)
    ensures
        r matches Some(en) ==> payload@ == spec_enc_entry(en@),
        forall|e0: WalEntryV|
            payload@ == spec_enc_entry(e0) ==> (r matches Some(en) && en@ == e0),
{
    let blen = payload.len();
    proof {
        lemma_auto_spec_u64_to_from_le_bytes();
        lemma_auto_spec_u32_to_from_le_bytes();
        assert(payload@.len() == blen);
    }
    if blen < 20 {
        proof {
            assert forall|e0: WalEntryV| payload@ != spec_enc_entry(e0) by {
                if payload@ == spec_enc_entry(e0) {
                    lemma_enc_entry_fields(payload@, e0);
                    lemma_enc_event_min_len(e0.event);
                }
            }
        }
        return None;
    }
    let sequence_number = read_i64(payload, 0);
    let timestamp_ns = read_i64(payload, 8);
    let checksum = read_u32(payload, 16);
    match dec_event(payload, 20) {
        Some((event, p2)) => {
            if p2 != blen {
                proof {
                    assert forall|e0: WalEntryV| payload@ != spec_enc_entry(e0) by {
                        if payload@ == spec_enc_entry(e0) {
                            lemma_enc_entry_fields(payload@, e0);
                            assert(payload@.subrange(
                                20,
                                20 + spec_enc_event(e0.event).len() as int,
                            ) == spec_enc_event(e0.event));
                        }
                    }
                }
                return None;
            }
            let en = WALEntry { sequence_number, timestamp_ns, event, checksum };
            proof {
                lemma_enc_entry_assemble(payload@, en@);
                assert forall|e0: WalEntryV| payload@ == spec_enc_entry(e0) implies en@ == e0 by {
                    lemma_enc_entry_fields(payload@, e0);
                    let a = sequence_number;
                    let c = e0.sequence_number;
                    assert(spec_i64_bits(a) == spec_i64_bits(c));
                    assert(((a as u64) == (c as u64)) ==> a == c) by (bit_vector);
                    let a2 = timestamp_ns;
                    let c2 = e0.timestamp_ns;
                    assert(spec_i64_bits(a2) == spec_i64_bits(c2));
                    assert(((a2 as u64) == (c2 as u64)) ==> a2 == c2) by (bit_vector);
                    assert(event@ == e0.event);
                    assert(en@ =~~= e0);
                }
            }
            Some(en)
        },
        None => {
            proof {
                assert forall|e0: WalEntryV| payload@ != spec_enc_entry(e0) by {
                    if payload@ == spec_enc_entry(e0) {
                        lemma_enc_entry_fields(payload@, e0);
                        assert(payload@.subrange(
                            20,
                            20 + spec_enc_event(e0.event).len() as int,
                        ) == spec_enc_event(e0.event));
                    }
                }
            }
            None
        },
    }
}


/// The sequence number a next record must exceed: the last entry's, if any.
pub open spec fn last_seq_of(es: Seq<WalEntryV>) -> Option<i64> {
    if es.len() == 0 {
        None
    } else {
        Some(es.last().sequence_number)
    }
}

/// The bytes cannot open a complete record: fewer than eight bytes remain,
/// or the length prefix promises more bytes than there are. This is the
/// shape a crash leaves behind a partial write.
pub open spec fn torn_tail(suffix: Seq<u8>) -> bool {
    suffix.len() < 8 || 8 + (spec_u64_from_le_bytes(suffix.subrange(0, 8)) as int) > suffix.len()
}

/// A complete record frame starts at `pos`: its length prefix and as many
/// payload bytes as it promises are all there.
pub open spec fn record_frame_at(bs: Seq<u8>, pos: int) -> bool {
    &&& 0 <= pos
    &&& pos + 8 <= bs.len()
    &&& pos + 8 + (spec_u64_from_le_bytes(bs.subrange(pos, pos + 8)) as int) <= bs.len()
}

/// The payload of the record framed at `pos`.
pub open spec fn record_payload_at(bs: Seq<u8>, pos: int) -> Seq<u8> {
    bs.subrange(pos + 8, pos + 8 + spec_u64_from_le_bytes(bs.subrange(pos, pos + 8)) as int)
}

/// A complete record at `pos` that cannot validly continue a log whose last
/// sequence is `prev`: its payload is no entry at all, or an entry whose
/// checksum, self-description or ordering is wrong.
pub open spec fn corrupt_record_at(bs: Seq<u8>, pos: int, prev: Option<i64>) -> bool {
    &&& record_frame_at(bs, pos)
    &&& !(exists|e: WalEntryV|
        record_payload_at(bs, pos) == spec_enc_entry(e) && valid_entry(e) && (prev matches Some(p)
            ==> e.sequence_number > p))
}

/// A valid log standing at the front of the image that the scan cannot
/// continue past: what follows it is a torn tail or a corrupt record.
pub open spec fn blocked_prefix(bs: Seq<u8>, es0: Seq<WalEntryV>) -> bool {
    &&& valid_log(es0)
    &&& spec_wal_bytes(es0).len() <= bs.len()
    &&& bs.subrange(0, spec_wal_bytes(es0).len() as int) == spec_wal_bytes(es0)
    &&& (torn_tail(bs.skip(spec_wal_bytes(es0).len() as int)) || corrupt_record_at(
        bs,
        spec_wal_bytes(es0).len() as int,
        last_seq_of(es0),
    ))
}

/// Inside a valid log image, the record of entry `i` sits right after the
/// bytes of the entries before it.
proof fn lemma_suffix_record(bs: Seq<u8>, pos: int, es0: Seq<WalEntryV>, rest: Seq<u8>, i: int)
    requires
        bs == spec_wal_bytes(es0) + rest,
        0 <= i < es0.len(),
        pos == spec_wal_bytes(es0.take(i)).len(),
    ensures
        ({
            let ln = spec_enc_entry(es0[i]).len();
            &&& pos + 8 + ln <= spec_wal_bytes(es0).len()
            &&& spec_wal_bytes(es0).len() <= bs.len()
            &&& bs.subrange(pos, pos + 8) == spec_u64_to_le_bytes(ln as u64)
            &&& bs.subrange(pos + 8, pos + 8 + ln as int) == spec_enc_entry(es0[i])
        }),
{
    let ln = spec_enc_entry(es0[i]).len() as int;
    lemma_wal_bytes_split(es0, i);
    lemma_record_min_len(es0[i]);
    assert(forall|x: u64| (#[trigger] spec_u64_to_le_bytes(x)).len() == 8) by {
        lemma_auto_spec_u64_to_from_le_bytes();
    }
    let wtail = spec_wal_bytes(es0.skip(i));
    assert(es0.skip(i).len() > 0);
    assert(es0.skip(i)[0] == es0[i]);
    assert(wtail == spec_record(es0[i]) + spec_wal_bytes(es0.skip(i).drop_first()));
    assert(spec_wal_bytes(es0).len() == pos + wtail.len());
    assert(wtail.len() >= 8 + ln);
    assert forall|k: int| 0 <= k < wtail.len() implies bs[pos + k] == wtail[k] by {
        assert(bs == (spec_wal_bytes(es0.take(i)) + wtail) + rest);
        assert(spec_wal_bytes(es0)[pos + k] == wtail[k]);
        assert(bs[pos + k] == spec_wal_bytes(es0)[pos + k]);
    }
    assert forall|k: int| 0 <= k < 8 implies wtail[k] == spec_u64_to_le_bytes((ln as u64))[k] by {
        assert(wtail[k] == spec_record(es0[i])[k]);
    }
    assert(bs.subrange(pos, pos + 8) =~= spec_u64_to_le_bytes((ln as u64)));
    assert forall|k: int| 0 <= k < ln implies wtail[8 + k] == spec_enc_entry(es0[i])[k] by {
        assert(wtail[8 + k] == spec_record(es0[i])[8 + k]);
    }
    assert(bs.subrange(pos + 8, pos + 8 + ln) =~= spec_enc_entry(es0[i]));
}



/// Two strings with the same encoding are the same string.
proof fn lemma_enc_str_inj(c1: Seq<char>, c2: Seq<char>)
    requires
        spec_enc_str(c1) == spec_enc_str(c2),
    ensures
        c1 == c2,
{
    lemma_auto_spec_u64_to_from_le_bytes();
    let e = spec_enc_str(c1);
    assert(e.subrange(0, 8) =~= spec_u64_to_le_bytes(encode_utf8(c1).len() as u64));
    assert(e.subrange(0, 8) =~= spec_u64_to_le_bytes(encode_utf8(c2).len() as u64));
    assert(encode_utf8(c1).len() as u64 == encode_utf8(c2).len() as u64);
    assert(e.len() == 8 + encode_utf8(c1).len());
    assert(e.len() == 8 + encode_utf8(c2).len());
    assert(encode_utf8(c1) =~= e.subrange(8, e.len() as int));
    assert(encode_utf8(c2) =~= e.subrange(8, e.len() as int));
    encode_utf8_decode_utf8(c1);
    encode_utf8_decode_utf8(c2);
}

/// Two orders with the same encoding are the same order.
proof fn lemma_enc_order_inj(o1: OrderV, o2: OrderV)
    requires
        spec_enc_order(o1) == spec_enc_order(o2),
        spec_enc_order(o1).len() < 0x1_0000_0000_0000_0000,
    ensures
        o1 == o2,
{
    lemma_auto_spec_u64_to_from_le_bytes();
    lemma_auto_spec_u128_to_from_le_bytes();
    let e = spec_enc_order(o1);
    lemma_enc_order_len(o1);
    lemma_enc_order_len(o2);
    assert(e.subrange(0, spec_enc_order(o1).len() as int) =~= e);
    assert(e.subrange(0, spec_enc_order(o2).len() as int) =~= e);
    lemma_enc_order_fields(e, 0, o1);
    lemma_enc_order_fields(e, 0, o2);
    assert(o1.id == o2.id);
    assert(side_byte(o1.side) == side_byte(o2.side));
    assert(o1.side == o2.side) by {
        match o1.side {
            OrderSide::Buy => {},
            OrderSide::Sell => {},
        }
    }
    assert(type_byte(o1.order_type) == type_byte(o2.order_type));
    assert(o1.order_type == o2.order_type) by {
        match o1.order_type {
            OrderType::Limit => {},
            OrderType::Market => {},
            OrderType::IOC => {},
        }
    }
    assert(status_byte(o1.status) == status_byte(o2.status));
    assert(o1.status == o2.status) by {
        match o1.status {
            OrderStatus::Pending => {},
            OrderStatus::PartiallyFilled => {},
            OrderStatus::Filled => {},
            OrderStatus::Cancelled => {},
            OrderStatus::Rejected => {},
        }
    }
    assert(o1.price == o2.price) by {
        let p = spec_enc_opt_price(o1.price);
        assert(p == spec_enc_opt_price(o2.price));
        assert(p[0] == (match o1.price {
            None => 0u8,
            Some(_) => 1u8,
        }));
        assert(p[0] == (match o2.price {
            None => 0u8,
            Some(_) => 1u8,
        }));
        match (o1.price, o2.price) {
            (Some(x1), Some(x2)) => {
                assert(p.subrange(1, 9) =~= spec_u64_to_le_bytes(x1));
                assert(p.subrange(1, 9) =~= spec_u64_to_le_bytes(x2));
                assert(x1 == x2);
            },
            _ => {},
        }
    }
    assert(o1.quantity == o2.quantity);
    assert(o1.remaining_quantity == o2.remaining_quantity);
    assert(o1.filled_quantity == o2.filled_quantity);
    let a = o1.timestamp_ns;
    let c = o2.timestamp_ns;
    assert(spec_i64_bits(a) == spec_i64_bits(c));
    assert(((a as u64) == (c as u64)) ==> a == c) by (bit_vector);
    let a2 = o1.sequence_number;
    let c2 = o2.sequence_number;
    assert(spec_i64_bits(a2) == spec_i64_bits(c2));
    assert(((a2 as u64) == (c2 as u64)) ==> a2 == c2) by (bit_vector);
    // The market strings share their length field, and both fit the
    // encoding, so both strings align.
    let m1 = spec_enc_str(o1.market_id).len() as int;
    let m2 = spec_enc_str(o2.market_id).len() as int;
    assert(encode_utf8(o1.market_id).len() < 0x1_0000_0000_0000_0000);
    assert(encode_utf8(o2.market_id).len() < 0x1_0000_0000_0000_0000);
    assert(e.subrange(68, 68 + m1).subrange(0, 8) =~= spec_u64_to_le_bytes(
        encode_utf8(o1.market_id).len() as u64,
    ));
    assert(e.subrange(68, 68 + m2).subrange(0, 8) =~= spec_u64_to_le_bytes(
        encode_utf8(o2.market_id).len() as u64,
    ));
    assert(e.subrange(68, 68 + m1).subrange(0, 8) =~= e.subrange(68, 76));
    assert(e.subrange(68, 68 + m2).subrange(0, 8) =~= e.subrange(68, 76));
    assert(encode_utf8(o1.market_id).len() as u64 == encode_utf8(o2.market_id).len() as u64);
    assert(m1 == m2);
    assert(spec_enc_str(o1.market_id) == e.subrange(68, 68 + m1));
    assert(spec_enc_str(o2.market_id) == e.subrange(68, 68 + m1));
    lemma_enc_str_inj(o1.market_id, o2.market_id);
    let u1 = spec_enc_str(o1.user_id).len() as int;
    let u2 = spec_enc_str(o2.user_id).len() as int;
    assert(68 + m1 + u1 == e.len());
    assert(68 + m2 + u2 == e.len());
    assert(u1 == u2);
    assert(spec_enc_str(o1.user_id) == e.subrange(68 + m1, 68 + m1 + u1));
    assert(spec_enc_str(o2.user_id) == e.subrange(68 + m1, 68 + m1 + u1));
    lemma_enc_str_inj(o1.user_id, o2.user_id);
    assert(o1 =~~= o2);
}

/// Two trades with the same encoding are the same trade.
proof fn lemma_enc_trade_inj(t1: TradeV, t2: TradeV)
    requires
        spec_enc_trade(t1) == spec_enc_trade(t2),
    ensures
        t1 == t2,
{
    lemma_auto_spec_u64_to_from_le_bytes();
    lemma_auto_spec_u128_to_from_le_bytes();
    let e = spec_enc_trade(t1);
    lemma_enc_trade_len(t1);
    lemma_enc_trade_len(t2);
    assert(e.subrange(0, spec_enc_trade(t1).len() as int) =~= e);
    assert(e.subrange(0, spec_enc_trade(t2).len() as int) =~= e);
    lemma_enc_trade_fields(e, 0, t1);
    lemma_enc_trade_fields(e, 0, t2);
    assert(t1.id == t2.id);
    assert(t1.taker_order_id == t2.taker_order_id);
    assert(t1.maker_order_id == t2.maker_order_id);
    assert(side_byte(t1.side) == side_byte(t2.side));
    assert(t1.side == t2.side) by {
        match t1.side {
            OrderSide::Buy => {},
            OrderSide::Sell => {},
        }
    }
    assert(t1.price == t2.price);
    assert(t1.quantity == t2.quantity);
    let a = t1.timestamp_ns;
    let c = t2.timestamp_ns;
    assert(spec_i64_bits(a) == spec_i64_bits(c));
    assert(((a as u64) == (c as u64)) ==> a == c) by (bit_vector);
    let a2 = t1.sequence_number;
    let c2 = t2.sequence_number;
    assert(spec_i64_bits(a2) == spec_i64_bits(c2));
    assert(((a2 as u64) == (c2 as u64)) ==> a2 == c2) by (bit_vector);
    let m1 = spec_enc_str(t1.market_id).len() as int;
    let m2 = spec_enc_str(t2.market_id).len() as int;
    assert(81 + m1 == e.len());
    assert(81 + m2 == e.len());
    assert(spec_enc_str(t1.market_id) == e.subrange(81, 81 + m1));
    assert(spec_enc_str(t2.market_id) == e.subrange(81, 81 + m1));
    lemma_enc_str_inj(t1.market_id, t2.market_id);
    assert(t1 =~~= t2);
}

/// Two events with the same encoding are the same event.
proof fn lemma_enc_event_inj(v1: EventV, v2: EventV)
    requires
        spec_enc_event(v1) == spec_enc_event(v2),
        spec_enc_event(v1).len() < 0x1_0000_0000_0000_0000,
    ensures
        v1 == v2,
{
    lemma_auto_spec_u64_to_from_le_bytes();
    lemma_auto_spec_u128_to_from_le_bytes();
    let e = spec_enc_event(v1);
    assert(e.subrange(0, spec_enc_event(v1).len() as int) =~= e);
    assert(e.subrange(0, spec_enc_event(v2).len() as int) =~= e);
    lemma_enc_event_fields(e, 0, v1);
    lemma_enc_event_fields(e, 0, v2);
    assert(event_tag(v1) == event_tag(v2));
    let a = v1.seq_no();
    let c = v2.seq_no();
    assert(spec_i64_bits(a) == spec_i64_bits(c));
    assert(((a as u64) == (c as u64)) ==> a == c) by (bit_vector);
    let a2 = v1.ts();
    let c2 = v2.ts();
    assert(spec_i64_bits(a2) == spec_i64_bits(c2));
    assert(((a2 as u64) == (c2 as u64)) ==> a2 == c2) by (bit_vector);
    match (v1, v2) {
        (
            EventV::OrderPlaced { order: o1, .. },
            EventV::OrderPlaced { order: o2, .. },
        ) => {
            assert(e.len() == 17 + spec_enc_order(o1).len());
            assert(e.len() == 17 + spec_enc_order(o2).len());
            assert(spec_enc_order(o1) == e.subrange(17, e.len() as int));
            assert(spec_enc_order(o2) == e.subrange(17, e.len() as int));
            lemma_enc_order_inj(o1, o2);
            assert(v1 =~~= v2);
        },
        (
            EventV::TradeExecuted { trade: t1, .. },
            EventV::TradeExecuted { trade: t2, .. },
        ) => {
            assert(e.len() == 17 + spec_enc_trade(t1).len());
            assert(e.len() == 17 + spec_enc_trade(t2).len());
            assert(spec_enc_trade(t1) == e.subrange(17, e.len() as int));
            assert(spec_enc_trade(t2) == e.subrange(17, e.len() as int));
            lemma_enc_trade_inj(t1, t2);
            assert(v1 =~~= v2);
        },
        (
            EventV::OrderCancelled { order_id: i1, market_id: k1, side: s1, price: p1, cancelled_quantity: q1, .. },
            EventV::OrderCancelled { order_id: i2, market_id: k2, side: s2, price: p2, cancelled_quantity: q2, .. },
        ) => {
            assert(i1 == i2);
            assert(side_byte(s1) == side_byte(s2));
            assert(s1 == s2) by {
                match s1 {
                    OrderSide::Buy => {},
                    OrderSide::Sell => {},
                }
            }
            assert(p1 == p2) by {
                let p = spec_enc_opt_price(p1);
                assert(p == spec_enc_opt_price(p2));
                assert(p[0] == (match p1 {
                    None => 0u8,
                    Some(_) => 1u8,
                }));
                assert(p[0] == (match p2 {
                    None => 0u8,
                    Some(_) => 1u8,
                }));
                match (p1, p2) {
                    (Some(x1), Some(x2)) => {
                        assert(p.subrange(1, 9) =~= spec_u64_to_le_bytes(x1));
                        assert(p.subrange(1, 9) =~= spec_u64_to_le_bytes(x2));
                        assert(x1 == x2);
                    },
                    _ => {},
                }
            }
            assert(q1 == q2);
            let m1 = spec_enc_str(k1).len() as int;
            let m2 = spec_enc_str(k2).len() as int;
            assert(51 + m1 == e.len());
            assert(51 + m2 == e.len());
            assert(spec_enc_str(k1) == e.subrange(51, 51 + m1));
            assert(spec_enc_str(k2) == e.subrange(51, 51 + m1));
            lemma_enc_str_inj(k1, k2);
            assert(v1 =~~= v2);
        },
        _ => {
            assert(false);
        },
    }
}

/// Two entries with the same encoding are the same entry.
proof fn lemma_enc_entry_inj(e1: WalEntryV, e2: WalEntryV)
    requires
        spec_enc_entry(e1) == spec_enc_entry(e2),
        spec_enc_entry(e1).len() < 0x1_0000_0000_0000_0000,
    ensures
        e1 == e2,
{
    lemma_auto_spec_u64_to_from_le_bytes();
    lemma_auto_spec_u32_to_from_le_bytes();
    let e = spec_enc_entry(e1);
    lemma_enc_entry_fields(e, e1);
    lemma_enc_entry_fields(e, e2);
    let a = e1.sequence_number;
    let c = e2.sequence_number;
    assert(spec_i64_bits(a) == spec_i64_bits(c));
    assert(((a as u64) == (c as u64)) ==> a == c) by (bit_vector);
    let a2 = e1.timestamp_ns;
    let c2 = e2.timestamp_ns;
    assert(spec_i64_bits(a2) == spec_i64_bits(c2));
    assert(((a2 as u64) == (c2 as u64)) ==> a2 == c2) by (bit_vector);
    assert(e1.checksum == e2.checksum);
    assert(e.len() == 20 + spec_enc_event(e1.event).len());
    assert(e.len() == 20 + spec_enc_event(e2.event).len());
    assert(spec_enc_event(e1.event) == e.subrange(20, e.len() as int));
    assert(spec_enc_event(e2.event) == e.subrange(20, e.len() as int));
    lemma_enc_event_inj(e1.event, e2.event);
    assert(e1 =~~= e2);
}

/// A complete record whose payload is a bad entry blocks the scan: no
/// valid entry shares an encoding with a bad one.
pub proof fn lemma_bad_entry_corrupt(bs: Seq<u8>, pos: int, prev: Option<i64>, e: WalEntryV)
    requires
        bs.len() < 0x1_0000_0000_0000_0000,
        record_frame_at(bs, pos),
        record_payload_at(bs, pos) == spec_enc_entry(e),
        !(valid_entry(e) && (prev matches Some(p) ==> e.sequence_number > p)),
    ensures
        corrupt_record_at(bs, pos, prev),
{
    assert(spec_enc_entry(e).len() < 0x1_0000_0000_0000_0000);
    if exists|e2: WalEntryV|
        record_payload_at(bs, pos) == spec_enc_entry(e2) && valid_entry(e2) && (prev matches Some(
            p,
        ) ==> e2.sequence_number > p) {
        let e2 = choose|e2: WalEntryV|
            record_payload_at(bs, pos) == spec_enc_entry(e2) && valid_entry(e2) && (
            prev matches Some(p) ==> e2.sequence_number > p);
        lemma_enc_entry_inj(e, e2);
    }
}

/// What the scan knows at a record boundary of a blocked image: the next
/// record of the prefix, if one is owed, sits right here; past the whole
/// prefix the boundary is the prefix's end.
proof fn lemma_blocked_step(bs: Seq<u8>, es0: Seq<WalEntryV>, out_v: Seq<WalEntryV>, pos: int)
    requires
        valid_log(es0),
        spec_wal_bytes(es0).len() <= bs.len(),
        bs.subrange(0, spec_wal_bytes(es0).len() as int) == spec_wal_bytes(es0),
        out_v.len() <= es0.len(),
        out_v == es0.take(out_v.len() as int),
        pos == spec_wal_bytes(out_v).len(),
    ensures
        out_v.len() < es0.len() ==> ({
            let ln = spec_enc_entry(es0[out_v.len() as int]).len();
            &&& pos + 8 + ln <= spec_wal_bytes(es0).len()
            &&& bs.subrange(pos, pos + 8) == spec_u64_to_le_bytes(ln as u64)
            &&& bs.subrange(pos + 8, pos + 8 + ln as int) == spec_enc_entry(
                es0[out_v.len() as int],
            )
        }),
        out_v.len() == es0.len() ==> pos == spec_wal_bytes(es0).len(),
        0 <= pos <= spec_wal_bytes(es0).len(),
    decreases 0int,
{
    let i = out_v.len() as int;
    lemma_wal_bytes_split(es0, i);
    assert(es0.take(i) == out_v);
    if i < es0.len() {
        assert(bs =~= spec_wal_bytes(es0) + bs.skip(spec_wal_bytes(es0).len() as int));
        lemma_suffix_record(bs, pos, es0, bs.skip(spec_wal_bytes(es0).len() as int), i);
    } else {
        assert(es0.take(i) =~= es0);
    }
}


/// Seen from a record boundary of a blocked image, with the length prefix
/// read and its frame complete: either the prefix still owes a record,
/// which is exactly the one framed here, or the scan stands at the
/// prefix's end and the blocker is this very record, corrupt.
proof fn lemma_scan_boundary(
    bs: Seq<u8>,
    pos: int,
    cur: Seq<WalEntryV>,
    len64: u64,
    es0: Seq<WalEntryV>,
)
    requires
        0 <= pos,
        pos + 8 <= bs.len(),
        bs.len() < 0x1_0000_0000_0000_0000,
        pos == spec_wal_bytes(cur).len(),
        blocked_prefix(bs, es0),
        cur.len() <= es0.len(),
        cur == es0.take(cur.len() as int),
        spec_u64_to_le_bytes(len64) == bs.subrange(pos, pos + 8),
        8 + len64 <= bs.len() - pos,
    ensures
        cur.len() < es0.len() ==> ({
            let ln = spec_enc_entry(es0[cur.len() as int]).len();
            &&& len64 == ln
            &&& bs.subrange(pos + 8, pos + 8 + len64 as int) == spec_enc_entry(
                es0[cur.len() as int],
            )
        }),
        cur.len() == es0.len() ==> ({
            &&& pos == spec_wal_bytes(es0).len()
            &&& !torn_tail(bs.skip(pos))
            &&& record_frame_at(bs, pos)
            &&& record_payload_at(bs, pos) == bs.subrange(pos + 8, pos + 8 + len64 as int)
            &&& corrupt_record_at(bs, pos, last_seq_of(es0))
        }),
{
    lemma_auto_spec_u64_to_from_le_bytes();
    lemma_blocked_step(bs, es0, cur, pos);
    let i = cur.len() as int;
    if i < es0.len() {
        let ln = spec_enc_entry(es0[i]).len();
        assert(ln < 0x1_0000_0000_0000_0000);
        assert(spec_u64_to_le_bytes(len64) == spec_u64_to_le_bytes((ln as u64)));
        assert(len64 == ln as u64);
        assert(len64 == ln);
    } else {
        assert(es0.take(i) =~= es0);
        assert(pos == spec_wal_bytes(es0).len());
        let rest = bs.skip(pos);
        assert(rest.len() == bs.len() - pos);
        assert(rest.subrange(0, 8) =~= bs.subrange(pos, pos + 8));
        assert(spec_u64_from_le_bytes(rest.subrange(0, 8)) == len64);
        assert(!torn_tail(rest));
        assert(spec_u64_from_le_bytes(bs.subrange(pos, pos + 8)) == len64);
        assert(record_frame_at(bs, pos));
        assert(record_payload_at(bs, pos) =~= bs.subrange(pos + 8, pos + 8 + len64 as int));
        assert(corrupt_record_at(bs, pos, last_seq_of(es0)));
    }
}

/// A whole valid image, or one followed by a torn tail, is a blocked
/// prefix: nothing past the valid records can be scanned.
proof fn lemma_image_blocked(bs: Seq<u8>, es0: Seq<WalEntryV>, suffix: Seq<u8>)
    requires
        valid_log(es0),
        bs == spec_wal_bytes(es0) + suffix,
        suffix.len() == 0 || torn_tail(suffix),
    ensures
        blocked_prefix(bs, es0),
        bs.skip(spec_wal_bytes(es0).len() as int) == suffix,
{
    assert(bs.subrange(0, spec_wal_bytes(es0).len() as int) =~= spec_wal_bytes(es0));
    assert(bs.skip(spec_wal_bytes(es0).len() as int) =~= suffix);
    if suffix.len() == 0 {
        assert(torn_tail(suffix));
    }
}

/// Scans a log image record by record. The valid prefix comes back as
/// entries together with how many bytes it covers; a torn tail ends the
/// scan cleanly, while a fault inside a complete record is an error. A
/// fully valid image always comes back whole: exactly its entries, with
/// every byte consumed.
#[verifier::rlimit(100)]
pub fn parse_log(b: &Vec<u8>) -> (r: (Result<Vec<WALEntry>, WalError>, usize))
    ensures
        ({
            let (res, consumed) = r;
            &&& consumed <= b@.len()
            &&& (res matches Ok(es) ==> b@.subrange(0, consumed as int) == spec_wal_bytes(
                entries_view(es@),
            ) && valid_log(entries_view(es@)))
            &&& (forall|es0: Seq<WalEntryV>|
                valid_log(es0) && b@ == spec_wal_bytes(es0) ==> (res matches Ok(es)
                    && entries_view(es@) == es0 && consumed == b@.len()))
            &&& (forall|es0: Seq<WalEntryV>, suffix: Seq<u8>|
                valid_log(es0) && b@ == spec_wal_bytes(es0) + suffix && torn_tail(suffix) ==> (
                res matches Ok(es) && entries_view(es@) == es0 && consumed == spec_wal_bytes(
                    es0,
                ).len()))
            &&& (forall|es0: Seq<WalEntryV>|
                valid_log(es0) && spec_wal_bytes(es0).len() <= b@.len() && b@.subrange(
                    0,
                    spec_wal_bytes(es0).len() as int,
                ) == spec_wal_bytes(es0) && corrupt_record_at(
                    b@,
                    spec_wal_bytes(es0).len() as int,
                    last_seq_of(es0),
                ) ==> res is Err)
            &&& (forall|es0: Seq<WalEntryV>, e: WalEntryV|
                valid_log(es0) && spec_wal_bytes(es0).len() <= b@.len() && b@.subrange(
                    0,
                    spec_wal_bytes(es0).len() as int,
                ) == spec_wal_bytes(es0) && record_frame_at(
                    b@,
                    spec_wal_bytes(es0).len() as int,
                ) && record_payload_at(b@, spec_wal_bytes(es0).len() as int) == spec_enc_entry(e)
                    && e.sequence_number == e.event.seq_no() && e.timestamp_ns == e.event.ts()
                    && e.checksum != crc32_of(spec_enc_event(e.event)) ==> res == Err::<
                    Vec<WALEntry>,
                    WalError,
                >(WalError::ChecksumMismatch { sequence_number: e.sequence_number }))
        }),
{
    let blen = b.len();
    proof {
        lemma_auto_spec_u64_to_from_le_bytes();
        assert(b@.len() == blen);
    }
    let mut out: Vec<WALEntry> = Vec::new();
    let mut pos: usize = 0;
    proof {
        assert(entries_view(out@) =~= Seq::<WalEntryV>::empty());
        assert(b@.subrange(0, 0) =~= spec_wal_bytes(entries_view(out@)));
        assert forall|es0: Seq<WalEntryV>| blocked_prefix(b@, es0) implies entries_view(out@)
            == es0.take(entries_view(out@).len() as int) by {
            assert(es0.take(0) =~= Seq::<WalEntryV>::empty());
        }
    }
    loop
        invariant
            blen == b@.len(),
            pos <= blen,
            b@.subrange(0, pos as int) == spec_wal_bytes(entries_view(out@)),
            pos as int == spec_wal_bytes(entries_view(out@)).len(),
            valid_log(entries_view(out@)),
            forall|es0: Seq<WalEntryV>|
                blocked_prefix(b@, es0) ==> out@.len() <= es0.len() && entries_view(out@)
                    == es0.take(out@.len() as int),
        decreases blen - pos,
    {
        let ghost cur = entries_view(out@);
        if blen - pos < 8 {
            proof {
                lemma_auto_spec_u64_to_from_le_bytes();
                // Any blocked prefix ends exactly at this boundary, and no
                // complete record frame can start here.
                assert forall|es0: Seq<WalEntryV>| blocked_prefix(b@, es0) implies entries_view(
                    out@,
                ) == es0 && pos == spec_wal_bytes(es0).len() && !record_frame_at(
                    b@,
                    spec_wal_bytes(es0).len() as int,
                ) by {
                    lemma_blocked_step(b@, es0, cur, pos as int);
                    if (cur.len() as int) < es0.len() {
                        assert(false);
                    }
                    assert(es0.take(cur.len() as int) =~= es0);
                    if record_frame_at(b@, pos as int) {
                        assert(pos + 8 <= blen);
                        assert(false);
                    }
                }
                assert forall|es0: Seq<WalEntryV>|
                    valid_log(es0) && b@ == spec_wal_bytes(es0) implies entries_view(out@) == es0
                    && pos == b@.len() by {
                    assert(b@.subrange(0, spec_wal_bytes(es0).len() as int) =~= spec_wal_bytes(
                        es0,
                    ));
                    assert(b@.skip(spec_wal_bytes(es0).len() as int) =~= Seq::<u8>::empty());
                    assert(blocked_prefix(b@, es0));
                }
                assert forall|es0: Seq<WalEntryV>, suffix: Seq<u8>|
                    valid_log(es0) && b@ == spec_wal_bytes(es0) + suffix && torn_tail(
                        suffix,
                    ) implies entries_view(out@) == es0 && pos == spec_wal_bytes(es0).len() by {
                    assert(b@.subrange(0, spec_wal_bytes(es0).len() as int) =~= spec_wal_bytes(
                        es0,
                    ));
                    assert(b@.skip(spec_wal_bytes(es0).len() as int) =~= suffix);
                    assert(blocked_prefix(b@, es0));
                }
                assert forall|es0: Seq<WalEntryV>|
                    valid_log(es0) && spec_wal_bytes(es0).len() <= b@.len() && b@.subrange(
                        0,
                        spec_wal_bytes(es0).len() as int,
                    ) == spec_wal_bytes(es0) && corrupt_record_at(
                        b@,
                        spec_wal_bytes(es0).len() as int,
                        last_seq_of(es0),
                    ) implies false by {
                    assert(blocked_prefix(b@, es0));
                    assert(record_frame_at(b@, spec_wal_bytes(es0).len() as int));
                }
                assert forall|es0: Seq<WalEntryV>, e: WalEntryV|
                    valid_log(es0) && spec_wal_bytes(es0).len() <= b@.len() && b@.subrange(
                        0,
                        spec_wal_bytes(es0).len() as int,
                    ) == spec_wal_bytes(es0) && record_frame_at(
                        b@,
                        spec_wal_bytes(es0).len() as int,
                    ) && record_payload_at(b@, spec_wal_bytes(es0).len() as int)
                        == spec_enc_entry(e) && e.checksum != crc32_of(
                        spec_enc_event(e.event),
                    ) implies false by {
                    assert(b@.len() < 0x1_0000_0000_0000_0000);
                    lemma_bad_entry_corrupt(
                        b@,
                        spec_wal_bytes(es0).len() as int,
                        last_seq_of(es0),
                        e,
                    );
                    assert(blocked_prefix(b@, es0));
                    assert(record_frame_at(b@, spec_wal_bytes(es0).len() as int));
                }
            }
            return (Ok(out), pos);
        }
        let len64 = read_u64(b, pos);
        if len64 > (blen - (pos + 8)) as u64 {
            proof {
                lemma_auto_spec_u64_to_from_le_bytes();
                // The length prefix promises more bytes than remain, so no
                // blocked prefix still owes a record, and no complete frame
                // starts here.
                assert forall|es0: Seq<WalEntryV>| blocked_prefix(b@, es0) implies entries_view(
                    out@,
                ) == es0 && pos == spec_wal_bytes(es0).len() && !record_frame_at(
                    b@,
                    spec_wal_bytes(es0).len() as int,
                ) by {
                    lemma_blocked_step(b@, es0, cur, pos as int);
                    let i = cur.len() as int;
                    if i < es0.len() {
                        let ln = spec_enc_entry(es0[i]).len();
                        assert(spec_u64_to_le_bytes(len64) == spec_u64_to_le_bytes((ln as u64)));
                        assert(len64 == ln as u64);
                        assert(len64 as int == ln as int);
                        assert(false);
                    }
                    assert(es0.take(i) =~= es0);
                    if record_frame_at(b@, pos as int) {
                        assert(spec_u64_from_le_bytes(b@.subrange(pos as int, pos + 8))
                            == len64);
                        assert(false);
                    }
                }
                assert forall|es0: Seq<WalEntryV>|
                    valid_log(es0) && b@ == spec_wal_bytes(es0) implies false by {
                    assert(b@.subrange(0, spec_wal_bytes(es0).len() as int) =~= spec_wal_bytes(
                        es0,
                    ));
                    assert(b@.skip(spec_wal_bytes(es0).len() as int) =~= Seq::<u8>::empty());
                    assert(blocked_prefix(b@, es0));
                    assert(pos == spec_wal_bytes(es0).len());
                    assert(pos == blen);
                }
                assert forall|es0: Seq<WalEntryV>, suffix: Seq<u8>|
                    valid_log(es0) && b@ == spec_wal_bytes(es0) + suffix && torn_tail(
                        suffix,
                    ) implies entries_view(out@) == es0 && pos == spec_wal_bytes(es0).len() by {
                    assert(b@.subrange(0, spec_wal_bytes(es0).len() as int) =~= spec_wal_bytes(
                        es0,
                    ));
                    assert(b@.skip(spec_wal_bytes(es0).len() as int) =~= suffix);
                    assert(blocked_prefix(b@, es0));
                }
                assert forall|es0: Seq<WalEntryV>|
                    valid_log(es0) && spec_wal_bytes(es0).len() <= b@.len() && b@.subrange(
                        0,
                        spec_wal_bytes(es0).len() as int,
                    ) == spec_wal_bytes(es0) && corrupt_record_at(
                        b@,
                        spec_wal_bytes(es0).len() as int,
                        last_seq_of(es0),
                    ) implies false by {
                    assert(blocked_prefix(b@, es0));
                    assert(record_frame_at(b@, spec_wal_bytes(es0).len() as int));
                }
                assert forall|es0: Seq<WalEntryV>, e: WalEntryV|
                    valid_log(es0) && spec_wal_bytes(es0).len() <= b@.len() && b@.subrange(
                        0,
                        spec_wal_bytes(es0).len() as int,
                    ) == spec_wal_bytes(es0) && record_frame_at(
                        b@,
                        spec_wal_bytes(es0).len() as int,
                    ) && record_payload_at(b@, spec_wal_bytes(es0).len() as int)
                        == spec_enc_entry(e) && e.checksum != crc32_of(
                        spec_enc_event(e.event),
                    ) implies false by {
                    assert(b@.len() < 0x1_0000_0000_0000_0000);
                    lemma_bad_entry_corrupt(
                        b@,
                        spec_wal_bytes(es0).len() as int,
                        last_seq_of(es0),
                        e,
                    );
                    assert(blocked_prefix(b@, es0));
                    assert(record_frame_at(b@, spec_wal_bytes(es0).len() as int));
                }
            }
            return (Ok(out), pos);
        }
        let plen = len64 as usize;
        let payload = take_bytes(b, pos + 8, plen);
        proof {
            lemma_auto_spec_u64_to_from_le_bytes();
            assert(payload@ == b@.subrange(pos + 8, pos + 8 + len64 as int));
            // Boundary analysis for every blocked prefix of the image.
            assert forall|es0: Seq<WalEntryV>| blocked_prefix(b@, es0) implies ({
                let i = cur.len() as int;
                &&& cur.len() <= es0.len()
                &&& (i < es0.len() ==> payload@ == spec_enc_entry(es0[i]))
                &&& (i == es0.len() ==> pos == spec_wal_bytes(es0).len() && !torn_tail(
                    b@.skip(pos as int),
                ) && record_payload_at(b@, pos as int) == payload@ && corrupt_record_at(
                    b@,
                    pos as int,
                    last_seq_of(es0),
                ))
            }) by {
                lemma_scan_boundary(b@, pos as int, cur, len64, es0);
            }
        }
        let entry_opt = dec_entry(&payload);
        match entry_opt {
            None => {
                proof {
                    // No blocked prefix admits an undecodable payload here:
                    // an owed record or the corrupt blocker would decode to
                    // the entry the hypothesis names.
                    assert forall|es0: Seq<WalEntryV>|
                        valid_log(es0) && b@ == spec_wal_bytes(es0) implies false by {
                        lemma_image_blocked(b@, es0, Seq::<u8>::empty());
                        assert(b@ =~= spec_wal_bytes(es0) + Seq::<u8>::empty());
                        if cur.len() == es0.len() {
                            assert(pos == spec_wal_bytes(es0).len());
                            assert(pos == blen);
                        } else {
                            assert(payload@ == spec_enc_entry(es0[cur.len() as int]));
                        }
                    }
                    assert forall|es0: Seq<WalEntryV>, suffix: Seq<u8>|
                        valid_log(es0) && b@ == spec_wal_bytes(es0) + suffix && torn_tail(
                            suffix,
                        ) implies false by {
                        lemma_image_blocked(b@, es0, suffix);
                        if cur.len() == es0.len() {
                            assert(!torn_tail(b@.skip(pos as int)));
                            assert(pos == spec_wal_bytes(es0).len());
                        } else {
                            assert(payload@ == spec_enc_entry(es0[cur.len() as int]));
                        }
                    }
                    assert forall|es0: Seq<WalEntryV>, e: WalEntryV|
                        valid_log(es0) && spec_wal_bytes(es0).len() <= b@.len() && b@.subrange(
                            0,
                            spec_wal_bytes(es0).len() as int,
                        ) == spec_wal_bytes(es0) && record_frame_at(
                            b@,
                            spec_wal_bytes(es0).len() as int,
                        ) && record_payload_at(b@, spec_wal_bytes(es0).len() as int)
                            == spec_enc_entry(e) && e.checksum != crc32_of(
                            spec_enc_event(e.event),
                        ) implies false by {
                        assert(b@.len() < 0x1_0000_0000_0000_0000);
                        lemma_bad_entry_corrupt(
                            b@,
                            spec_wal_bytes(es0).len() as int,
                            last_seq_of(es0),
                            e,
                        );
                        assert(blocked_prefix(b@, es0));
                        if cur.len() == es0.len() {
                            assert(payload@ == spec_enc_entry(e));
                        } else {
                            assert(payload@ == spec_enc_entry(es0[cur.len() as int]));
                        }
                    }
                }
                return (Err(WalError::Malformed), pos);
            },
            Some(entry) => {
                let ev_seq = entry.event.sequence_number();
                let ev_ts = entry.event.timestamp_ns();
                if entry.sequence_number != ev_seq || entry.timestamp_ns != ev_ts {
                    proof {
                        // An owed record is valid and self-consistent; a
                        // corrupt blocker matching the hypothesis entry is
                        // self-consistent by that hypothesis.
                        assert forall|es0: Seq<WalEntryV>|
                            valid_log(es0) && b@ == spec_wal_bytes(es0) implies false by {
                            lemma_image_blocked(b@, es0, Seq::<u8>::empty());
                            assert(b@ =~= spec_wal_bytes(es0) + Seq::<u8>::empty());
                            if cur.len() == es0.len() {
                                assert(pos == spec_wal_bytes(es0).len());
                                assert(pos == blen);
                            } else {
                                assert(payload@ == spec_enc_entry(es0[cur.len() as int]));
                                assert(entry@ == es0[cur.len() as int]);
                                assert(valid_entry(es0[cur.len() as int]));
                            }
                        }
                        assert forall|es0: Seq<WalEntryV>, suffix: Seq<u8>|
                            valid_log(es0) && b@ == spec_wal_bytes(es0) + suffix && torn_tail(
                                suffix,
                            ) implies false by {
                            lemma_image_blocked(b@, es0, suffix);
                            if cur.len() == es0.len() {
                                assert(!torn_tail(b@.skip(pos as int)));
                            } else {
                                assert(payload@ == spec_enc_entry(es0[cur.len() as int]));
                                assert(entry@ == es0[cur.len() as int]);
                                assert(valid_entry(es0[cur.len() as int]));
                            }
                        }
                        assert forall|es0: Seq<WalEntryV>, e: WalEntryV|
                            valid_log(es0) && spec_wal_bytes(es0).len() <= b@.len()
                                && b@.subrange(0, spec_wal_bytes(es0).len() as int)
                                == spec_wal_bytes(es0) && record_frame_at(
                                b@,
                                spec_wal_bytes(es0).len() as int,
                            ) && record_payload_at(b@, spec_wal_bytes(es0).len() as int)
                                == spec_enc_entry(e) && e.sequence_number == e.event.seq_no()
                                && e.timestamp_ns == e.event.ts() && e.checksum != crc32_of(
                                spec_enc_event(e.event),
                            ) implies false by {
                            assert(b@.len() < 0x1_0000_0000_0000_0000);
                            lemma_bad_entry_corrupt(
                                b@,
                                spec_wal_bytes(es0).len() as int,
                                last_seq_of(es0),
                                e,
                            );
                            assert(blocked_prefix(b@, es0));
                            if cur.len() == es0.len() {
                                assert(payload@ == spec_enc_entry(e));
                                assert(entry@ == e);
                            } else {
                                assert(payload@ == spec_enc_entry(es0[cur.len() as int]));
                                assert(entry@ == es0[cur.len() as int]);
                                assert(valid_entry(es0[cur.len() as int]));
                            }
                        }
                    }
                    return (Err(WalError::Malformed), pos);
                }
                let mut ebytes: Vec<u8> = Vec::new();
                enc_event(&mut ebytes, &entry.event);
                let crc = crc32(&ebytes);
                proof {
                    assert(ebytes@ =~= spec_enc_event(entry@.event));
                }
                if crc != entry.checksum {
                    proof {
                        assert forall|es0: Seq<WalEntryV>|
                            valid_log(es0) && b@ == spec_wal_bytes(es0) implies false by {
                            lemma_image_blocked(b@, es0, Seq::<u8>::empty());
                            assert(b@ =~= spec_wal_bytes(es0) + Seq::<u8>::empty());
                            if cur.len() == es0.len() {
                                assert(pos == spec_wal_bytes(es0).len());
                                assert(pos == blen);
                            } else {
                                assert(payload@ == spec_enc_entry(es0[cur.len() as int]));
                                assert(entry@ == es0[cur.len() as int]);
                                assert(valid_entry(es0[cur.len() as int]));
                            }
                        }
                        assert forall|es0: Seq<WalEntryV>, suffix: Seq<u8>|
                            valid_log(es0) && b@ == spec_wal_bytes(es0) + suffix && torn_tail(
                                suffix,
                            ) implies false by {
                            lemma_image_blocked(b@, es0, suffix);
                            if cur.len() == es0.len() {
                                assert(!torn_tail(b@.skip(pos as int)));
                            } else {
                                assert(payload@ == spec_enc_entry(es0[cur.len() as int]));
                                assert(entry@ == es0[cur.len() as int]);
                                assert(valid_entry(es0[cur.len() as int]));
                            }
                        }
                        // The checksum error cites the corrupt record's own
                        // sequence number.
                        assert forall|es0: Seq<WalEntryV>, e: WalEntryV|
                            valid_log(es0) && spec_wal_bytes(es0).len() <= b@.len()
                                && b@.subrange(0, spec_wal_bytes(es0).len() as int)
                                == spec_wal_bytes(es0) && record_frame_at(
                                b@,
                                spec_wal_bytes(es0).len() as int,
                            ) && record_payload_at(b@, spec_wal_bytes(es0).len() as int)
                                == spec_enc_entry(e) && e.checksum != crc32_of(
                                spec_enc_event(e.event),
                            ) implies entry@.sequence_number == e.sequence_number by {
                            assert(b@.len() < 0x1_0000_0000_0000_0000);
                            lemma_bad_entry_corrupt(
                                b@,
                                spec_wal_bytes(es0).len() as int,
                                last_seq_of(es0),
                                e,
                            );
                            assert(blocked_prefix(b@, es0));
                            if cur.len() == es0.len() {
                                assert(payload@ == spec_enc_entry(e));
                                assert(entry@ == e);
                            } else {
                                assert(payload@ == spec_enc_entry(es0[cur.len() as int]));
                                assert(entry@ == es0[cur.len() as int]);
                                assert(valid_entry(es0[cur.len() as int]));
                            }
                        }
                    }
                    return (
                        Err(WalError::ChecksumMismatch { sequence_number: entry.sequence_number }),
                        pos,
                    );
                }
                if out.len() > 0 {
                    let prev = out[out.len() - 1].sequence_number;
                    if entry.sequence_number <= prev {
                        proof {
                            assert forall|es0: Seq<WalEntryV>|
                                valid_log(es0) && b@ == spec_wal_bytes(es0) implies false by {
                                lemma_image_blocked(b@, es0, Seq::<u8>::empty());
                                assert(b@ =~= spec_wal_bytes(es0) + Seq::<u8>::empty());
                                let i = cur.len() as int;
                                if i == es0.len() {
                                    assert(pos == spec_wal_bytes(es0).len());
                                    assert(pos == blen);
                                } else {
                                    assert(payload@ == spec_enc_entry(es0[i]));
                                    assert(entry@ == es0[i]);
                                    assert(cur[i - 1] == es0[i - 1]);
                                    assert(es0[i - 1].sequence_number < es0[i].sequence_number);
                                }
                            }
                            assert forall|es0: Seq<WalEntryV>, suffix: Seq<u8>|
                                valid_log(es0) && b@ == spec_wal_bytes(es0) + suffix
                                    && torn_tail(suffix) implies false by {
                                lemma_image_blocked(b@, es0, suffix);
                                let i = cur.len() as int;
                                if i == es0.len() {
                                    assert(!torn_tail(b@.skip(pos as int)));
                                } else {
                                    assert(payload@ == spec_enc_entry(es0[i]));
                                    assert(entry@ == es0[i]);
                                    assert(cur[i - 1] == es0[i - 1]);
                                    assert(es0[i - 1].sequence_number < es0[i].sequence_number);
                                }
                            }
                            // A corrupt blocker with a bad checksum cannot
                            // reach the ordering check: the recomputation
                            // just matched.
                            assert forall|es0: Seq<WalEntryV>, e: WalEntryV|
                                valid_log(es0) && spec_wal_bytes(es0).len() <= b@.len()
                                    && b@.subrange(0, spec_wal_bytes(es0).len() as int)
                                    == spec_wal_bytes(es0) && record_frame_at(
                                    b@,
                                    spec_wal_bytes(es0).len() as int,
                                ) && record_payload_at(b@, spec_wal_bytes(es0).len() as int)
                                    == spec_enc_entry(e) && e.checksum != crc32_of(
                                    spec_enc_event(e.event),
                                ) implies false by {
                                assert(b@.len() < 0x1_0000_0000_0000_0000);
                                lemma_bad_entry_corrupt(
                                    b@,
                                    spec_wal_bytes(es0).len() as int,
                                    last_seq_of(es0),
                                    e,
                                );
                                assert(blocked_prefix(b@, es0));
                                let i = cur.len() as int;
                                if i == es0.len() {
                                    assert(payload@ == spec_enc_entry(e));
                                    assert(entry@ == e);
                                    assert(entry@.checksum == crc32_of(
                                        spec_enc_event(entry@.event),
                                    ));
                                } else {
                                    assert(payload@ == spec_enc_entry(es0[i]));
                                    assert(entry@ == es0[i]);
                                    assert(cur[i - 1] == es0[i - 1]);
                                    assert(es0[i - 1].sequence_number < es0[i].sequence_number);
                                }
                            }
                        }
                        return (
                            Err(
                                WalError::SequenceOutOfOrder {
                                    sequence_number: entry.sequence_number,
                                },
                            ),
                            pos,
                        );
                    }
                }
                let ghost prev_out = out@;
                let ghost prev_pos = pos as int;
                out.push(entry);
                pos = pos + 8 + plen;
                proof {
                    let env = entries_view(out@);
                    assert(entries_view(out@) =~= entries_view(prev_out).push(out@.last()@));
                    lemma_wal_bytes_push(entries_view(prev_out), out@.last()@);
                    // The consumed prefix grew by exactly this record.
                    assert(payload@ == spec_enc_entry(out@.last()@));
                    assert(plen as int == spec_enc_entry(out@.last()@).len());
                    assert(spec_u64_to_le_bytes(len64) == spec_u64_to_le_bytes(
                        (spec_enc_entry(out@.last()@).len() as u64),
                    ));
                    assert(spec_record(out@.last()@) =~= spec_u64_to_le_bytes(len64) + payload@);
                    assert(b@.subrange(0, pos as int) =~= b@.subrange(0, prev_pos)
                        + b@.subrange(prev_pos, prev_pos + 8) + b@.subrange(
                        prev_pos + 8,
                        prev_pos + 8 + plen as int,
                    ));
                    assert(b@.subrange(prev_pos, prev_pos + 8) == spec_u64_to_le_bytes(len64));
                    assert(b@.subrange(prev_pos + 8, prev_pos + 8 + plen as int) == payload@);
                    assert(b@.subrange(0, pos as int) =~= spec_wal_bytes(env));
                    // The new entry keeps the log valid.
                    assert(valid_entry(out@.last()@));
                    assert forall|i: int, j: int| 0 <= i < j < env.len() implies (
                    #[trigger] env[i]).sequence_number < (#[trigger] env[j]).sequence_number by {
                        if j < env.len() - 1 {
                            assert(env[i] == entries_view(prev_out)[i]);
                            assert(env[j] == entries_view(prev_out)[j]);
                        } else {
                            assert(env[j] == out@.last()@);
                            if i < env.len() - 1 && prev_out.len() > 0 {
                                assert(env[i] == entries_view(prev_out)[i]);
                                if i < prev_out.len() - 1 {
                                    assert(entries_view(prev_out)[i].sequence_number
                                        < entries_view(
                                        prev_out,
                                    )[prev_out.len() - 1].sequence_number);
                                }
                            }
                        }
                    }
                    // Completeness: the parsed prefix still agrees with any
                    // blocked prefix of the image; the accepted record
                    // cannot be a blocker, having just passed every check.
                    assert forall|es0: Seq<WalEntryV>| blocked_prefix(b@, es0) implies out@.len()
                        <= es0.len() && entries_view(out@) == es0.take(out@.len() as int) by {
                        let i = prev_out.len() as int;
                        if i < es0.len() {
                            assert(payload@ == spec_enc_entry(es0[i]));
                            assert(out@.last()@ == es0[i]);
                            assert(es0.take(i + 1) =~= es0.take(i).push(es0[i]));
                            assert(entries_view(out@) =~= es0.take(i + 1));
                        } else {
                            assert(record_payload_at(b@, prev_pos) == payload@);
                            assert(corrupt_record_at(b@, prev_pos, last_seq_of(es0)));
                            let w = out@.last()@;
                            assert(record_payload_at(b@, prev_pos) == spec_enc_entry(w));
                            assert(valid_entry(w));
                            if es0.len() > 0 {
                                assert(entries_view(prev_out) =~= es0);
                                assert(entries_view(prev_out)[prev_out.len() - 1]
                                    == es0[es0.len() - 1]);
                                assert(w.sequence_number > es0.last().sequence_number);
                            }
                            assert(false);
                        }
                    }
                }
            },
        }
    }
}

/// The write-ahead log of one engine: an append-only, length-prefixed,
/// checksummed record of every emitted event, held as the byte image that
/// durable storage carries.
pub struct WAL {
    buf: Vec<u8>,
    entries: Ghost<Seq<WalEntryV>>,
    sequence_number: i64,
}

impl WAL {
    /// The entries the log holds, in order.
    pub closed spec fn spec_entries(&self) -> Seq<WalEntryV> {
        self.entries@
    }

    /// The byte image of the log.
    pub closed spec fn spec_bytes(&self) -> Seq<u8> {
        self.buf@
    }

    /// The sequence number of the last persisted entry, or the initial
    /// floor when the log is empty.
    pub closed spec fn spec_last_sequence(&self) -> i64 {
        self.sequence_number
    }

    /// Invariant: the bytes are exactly the entries' records, the entries
    /// are valid and strictly ordered, and the counter tracks the last one.
    pub open spec fn wf(&self) -> bool {
        &&& self.spec_bytes() == spec_wal_image(self.spec_entries())
        &&& valid_log(self.spec_entries())
        &&& forall|i: int|
            0 <= i < self.spec_entries().len() ==> (
            #[trigger] self.spec_entries()[i]).sequence_number <= self.spec_last_sequence()
        &&& self.spec_entries().len() > 0 ==> self.spec_entries().last().sequence_number
            == self.spec_last_sequence()
    }

    /// Creates an empty log whose next entry must exceed `initial_sequence`.
    pub fn new(initial_sequence: i64) -> (r: Self)
        ensures
            r.wf(),
            r.spec_entries().len() == 0,
            r.spec_bytes() == wal_header(),
            r.spec_last_sequence() == initial_sequence,
    {
        let mut buf: Vec<u8> = Vec::new();
        buf.push(77);
        buf.push(69);
        buf.push(87);
        buf.push(76);
        buf.push(1);
        buf.push(0);
        buf.push(0);
        buf.push(0);
        let r = WAL { buf, entries: Ghost(Seq::empty()), sequence_number: initial_sequence };
        proof {
            assert(r.spec_bytes() =~= wal_header());
            assert(spec_wal_bytes(r.spec_entries()) =~= Seq::<u8>::empty());
            assert(r.spec_bytes() =~= spec_wal_image(r.spec_entries()));
        }
        r
    }

    /// Opens a log from the byte image durable storage handed back: after
    /// the header is checked, the valid prefix becomes the log, a torn
    /// tail is dropped so later appends overwrite it, and corruption
    /// inside a complete record is refused, a checksum fault citing the
    /// offending record's sequence number. An empty image is a fresh log;
    /// a fully valid image reopens to exactly its entries.
    pub fn open(bytes: Vec<u8>) -> (r: Result<WAL, WalError>)
        ensures
            r matches Ok(w) ==> w.wf(),
            forall|es0: Seq<WalEntryV>|
                valid_log(es0) && bytes@ == spec_wal_image(es0) ==> (r matches Ok(w)
                    && w.spec_entries() == es0),
            bytes@.len() == 0 ==> (r matches Ok(w) && w.spec_entries().len() == 0
                && w.spec_last_sequence() == 0),
            forall|es0: Seq<WalEntryV>, suffix: Seq<u8>|
                valid_log(es0) && bytes@ == wal_header() + (spec_wal_bytes(es0) + suffix)
                    && torn_tail(suffix) ==> (r matches Ok(w) && w.spec_entries() == es0
                    && w.spec_last_sequence() == (if es0.len() == 0 {
                    0i64
                } else {
                    es0.last().sequence_number
                })),
            forall|es0: Seq<WalEntryV>|
                valid_log(es0) && bytes@.len() >= 8 && bytes@.subrange(0, 8) == wal_header()
                    && spec_wal_bytes(es0).len() <= bytes@.skip(8).len() && bytes@.skip(
                    8,
                ).subrange(0, spec_wal_bytes(es0).len() as int) == spec_wal_bytes(es0)
                    && corrupt_record_at(
                    bytes@.skip(8),
                    spec_wal_bytes(es0).len() as int,
                    last_seq_of(es0),
                ) ==> r is Err,
            forall|es0: Seq<WalEntryV>, e: WalEntryV|
                valid_log(es0) && bytes@.len() >= 8 && bytes@.subrange(0, 8) == wal_header()
                    && spec_wal_bytes(es0).len() <= bytes@.skip(8).len() && bytes@.skip(
                    8,
                ).subrange(0, spec_wal_bytes(es0).len() as int) == spec_wal_bytes(es0)
                    && record_frame_at(
                    bytes@.skip(8),
                    spec_wal_bytes(es0).len() as int,
                ) && record_payload_at(bytes@.skip(8), spec_wal_bytes(es0).len() as int)
                    == spec_enc_entry(e) && e.sequence_number == e.event.seq_no()
                    && e.timestamp_ns == e.event.ts() && e.checksum != crc32_of(
                    spec_enc_event(e.event),
                ) ==> r == Err::<WAL, WalError>(WalError::ChecksumMismatch {
                    sequence_number: e.sequence_number,
                }),
    {
        let ghost bytes0 = bytes@;
        proof {
            // A log image always starts with the eight header bytes.
            assert forall|es0: Seq<WalEntryV>, suffix: Seq<u8>|
                bytes0 == wal_header() + (spec_wal_bytes(es0) + suffix) implies bytes0.len() >= 8
                && bytes0.subrange(0, 8) == wal_header() && bytes0.skip(8) == spec_wal_bytes(es0)
                + suffix by {
                assert(bytes0.subrange(0, 8) =~= wal_header());
                assert(bytes0.skip(8) =~= spec_wal_bytes(es0) + suffix);
            }
            assert forall|es0: Seq<WalEntryV>|
                bytes0 == spec_wal_image(es0) implies bytes0 == wal_header() + (spec_wal_bytes(
                es0,
            ) + Seq::<u8>::empty()) && torn_tail(Seq::<u8>::empty()) by {
                assert(bytes0 =~= wal_header() + (spec_wal_bytes(es0) + Seq::<u8>::empty()));
            }
        }
        if bytes.len() == 0 {
            return Ok(WAL::new(0));
        }
        if bytes.len() < 8 {
            return Err(WalError::Malformed);
        }
        if !(bytes[0] == 77 && bytes[1] == 69 && bytes[2] == 87 && bytes[3] == 76 && bytes[4] == 1
            && bytes[5] == 0 && bytes[6] == 0 && bytes[7] == 0) {
            proof {
                if bytes0.len() >= 8 && bytes0.subrange(0, 8) == wal_header() {
                    assert(bytes0[0] == bytes0.subrange(0, 8)[0]);
                    assert(bytes0[1] == bytes0.subrange(0, 8)[1]);
                    assert(bytes0[2] == bytes0.subrange(0, 8)[2]);
                    assert(bytes0[3] == bytes0.subrange(0, 8)[3]);
                    assert(bytes0[4] == bytes0.subrange(0, 8)[4]);
                    assert(bytes0[5] == bytes0.subrange(0, 8)[5]);
                    assert(bytes0[6] == bytes0.subrange(0, 8)[6]);
                    assert(bytes0[7] == bytes0.subrange(0, 8)[7]);
                    assert(false);
                }
            }
            return Err(WalError::Malformed);
        }
        proof {
            assert(bytes0.subrange(0, 8) =~= wal_header());
        }
        let body = take_bytes(&bytes, 8, bytes.len() - 8);
        proof {
            assert(body@ =~= bytes0.skip(8));
        }
        let (res, consumed) = parse_log(&body);
        match res {
            Ok(entries) => {
                proof {
                    // No corrupt record can follow the valid prefix of an
                    // image the scan accepted.
                    assert forall|es0: Seq<WalEntryV>|
                        valid_log(es0) && spec_wal_bytes(es0).len() <= bytes0.skip(8).len()
                            && bytes0.skip(8).subrange(0, spec_wal_bytes(es0).len() as int)
                            == spec_wal_bytes(es0) && corrupt_record_at(
                            bytes0.skip(8),
                            spec_wal_bytes(es0).len() as int,
                            last_seq_of(es0),
                        ) implies false by {
                        assert(body@ == bytes0.skip(8));
                    }
                    assert forall|es0: Seq<WalEntryV>, ew: WalEntryV|
                        valid_log(es0) && spec_wal_bytes(es0).len() <= bytes0.skip(8).len()
                            && bytes0.skip(8).subrange(0, spec_wal_bytes(es0).len() as int)
                            == spec_wal_bytes(es0) && record_frame_at(
                            bytes0.skip(8),
                            spec_wal_bytes(es0).len() as int,
                        ) && record_payload_at(bytes0.skip(8), spec_wal_bytes(es0).len() as int)
                            == spec_enc_entry(ew) && ew.checksum != crc32_of(
                            spec_enc_event(ew.event),
                        ) implies false by {
                        assert(body@ == bytes0.skip(8));
                        assert(body@.len() < 0x1_0000_0000_0000_0000);
                        lemma_bad_entry_corrupt(
                            body@,
                            spec_wal_bytes(es0).len() as int,
                            last_seq_of(es0),
                            ew,
                        );
                    }
                }
                let last = if entries.len() > 0 {
                    entries[entries.len() - 1].sequence_number
                } else {
                    0
                };
                let mut buf = bytes;
                buf.truncate(8 + consumed);
                let w = WAL { buf, entries: Ghost(entries_view(entries@)), sequence_number: last };
                proof {
                    assert(w.spec_bytes() =~= spec_wal_image(w.spec_entries()));
                    if w.spec_entries().len() > 0 {
                        assert(w.spec_entries().last() == entries@[entries@.len() - 1]@);
                        assert forall|i: int| 0 <= i < w.spec_entries().len() implies (
                        #[trigger] w.spec_entries()[i]).sequence_number
                            <= w.spec_last_sequence() by {
                            if i < w.spec_entries().len() - 1 {
                                assert(w.spec_entries()[i].sequence_number < w.spec_entries()[
                                    w.spec_entries().len() - 1].sequence_number);
                            }
                        }
                    }
                    assert forall|es0: Seq<WalEntryV>, suffix: Seq<u8>|
                        valid_log(es0) && bytes0 == wal_header() + (spec_wal_bytes(es0) + suffix)
                            && torn_tail(suffix) implies entries_view(entries@) == es0 && (if es0.len() == 0 {
                        0i64
                    } else {
                        es0.last().sequence_number
                    }) == w.spec_last_sequence() by {
                        assert(body@ == spec_wal_bytes(es0) + suffix);
                        assert(entries_view(entries@) == es0);
                        if es0.len() > 0 {
                            assert(entries@.len() == es0.len());
                            assert(entries@[entries@.len() - 1]@ == es0.last());
                        }
                    }
                }
                Ok(w)
            },
            Err(e) => {
                proof {
                    assert forall|es0: Seq<WalEntryV>, suffix: Seq<u8>|
                        valid_log(es0) && bytes0 == wal_header() + (spec_wal_bytes(es0) + suffix)
                            && torn_tail(suffix) implies false by {
                        assert(body@ == spec_wal_bytes(es0) + suffix);
                    }
                    assert forall|es0: Seq<WalEntryV>, ew: WalEntryV|
                        valid_log(es0) && bytes0.len() >= 8 && bytes0.subrange(0, 8)
                            == wal_header() && spec_wal_bytes(es0).len() <= bytes0.skip(8).len()
                            && bytes0.skip(8).subrange(0, spec_wal_bytes(es0).len() as int)
                            == spec_wal_bytes(es0) && record_frame_at(
                            bytes0.skip(8),
                            spec_wal_bytes(es0).len() as int,
                        ) && record_payload_at(bytes0.skip(8), spec_wal_bytes(es0).len() as int)
                            == spec_enc_entry(ew) && ew.sequence_number == ew.event.seq_no()
                            && ew.timestamp_ns == ew.event.ts() && ew.checksum != crc32_of(
                            spec_enc_event(ew.event),
                        ) implies e == (WalError::ChecksumMismatch {
                            sequence_number: ew.sequence_number,
                        }) by {
                        assert(body@ == bytes0.skip(8));
                    }
                }
                Err(e)
            },
        }
    }

    /// Appends one event: frames and checksums it under the event's own
    /// sequence number, which must exceed everything already logged, and
    /// returns that sequence number. The new bytes are flushed to storage
    /// by whoever owns the file.
    pub fn append(&mut self, event: Event) -> (r: i64)
        requires
            old(self).wf(),
            event@.seq_no() > old(self).spec_last_sequence(),
        ensures
            final(self).wf(),
            r == event@.seq_no(),
            final(self).spec_last_sequence() == event@.seq_no(),
            final(self).spec_entries() == old(self).spec_entries().push(
                WalEntryV {
                    sequence_number: event@.seq_no(),
                    timestamp_ns: event@.ts(),
                    event: event@,
                    checksum: crc32_of(spec_enc_event(event@)),
                },
            ),
            final(self).spec_bytes() == spec_wal_image(final(self).spec_entries()),
    {
        let sequence_number = event.sequence_number();
        let timestamp_ns = event.timestamp_ns();
        let mut ebytes: Vec<u8> = Vec::new();
        enc_event(&mut ebytes, &event);
        let checksum = crc32(&ebytes);
        let entry = WALEntry { sequence_number, timestamp_ns, event, checksum };
        let mut payload: Vec<u8> = Vec::new();
        enc_entry(&mut payload, &entry);
        let ghost prev = self.entries@;
        proof {
            assert(ebytes@ =~= spec_enc_event(entry@.event));
            assert(payload@ =~= spec_enc_entry(entry@));
        }
        enc_u64(&mut self.buf, payload.len() as u64);
        enc_bytes(&mut self.buf, payload.as_slice());
        self.sequence_number = sequence_number;
        proof {
            self.entries@ = prev.push(entry@);
        }
        proof {
            lemma_wal_bytes_push(prev, entry@);
            assert(spec_record(entry@) =~= spec_u64_to_le_bytes(payload@.len() as u64)
                + payload@);
            assert(self.buf@ =~= spec_wal_image(self.entries@));
            let es = self.entries@;
            assert forall|i: int, j: int| 0 <= i < j < es.len() implies (
            #[trigger] es[i]).sequence_number < (#[trigger] es[j]).sequence_number by {
                if j < es.len() - 1 {
                    assert(es[i] == prev[i] && es[j] == prev[j]);
                } else {
                    assert(es[j] == entry@);
                    if i < es.len() - 1 {
                        assert(es[i] == prev[i]);
                        assert(prev[i].sequence_number <= old(self).spec_last_sequence());
                    }
                }
            }
            assert forall|i: int| 0 <= i < es.len() implies (#[trigger] es[i]).sequence_number
                <= self.sequence_number by {
                if i < es.len() - 1 {
                    assert(es[i] == prev[i]);
                    assert(prev[i].sequence_number <= old(self).spec_last_sequence());
                }
            }
        }
        sequence_number
    }

    /// Reads the whole log back: for a well-formed log this returns exactly
    /// the entries that were appended, in order.
    pub fn read_all(&self) -> (r: Result<Vec<WALEntry>, WalError>)
        requires
            self.wf(),
        ensures
            r matches Ok(es) && entries_view(es@) == self.spec_entries(),
    {
        let body = take_bytes(&self.buf, 8, self.buf.len() - 8);
        proof {
            assert(self.buf@.len() >= 8);
            assert(body@ =~= spec_wal_bytes(self.spec_entries()));
        }
        let (res, _consumed) = parse_log(&body);
        match res {
            Ok(es) => Ok(es),
            Err(e) => {
                proof {
                    assert(false);
                }
                Err(e)
            },
        }
    }

    /// The sequence number of the last persisted entry.
    pub fn current_sequence(&self) -> (r: i64)
        ensures
            r == self.spec_last_sequence(),
    {
        self.sequence_number
    }

    /// The log's byte image, exactly as durable storage should hold it.
    pub fn bytes(&self) -> (r: &Vec<u8>)
        ensures
            r@ == self.spec_bytes(),
    {
        &self.buf
    }
}

} // verus!
