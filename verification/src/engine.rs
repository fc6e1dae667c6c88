//! The engine facade of one market: validation at the boundary, matching,
//! and the log, coupled by an invariant that makes the book the replay of
//! its own event history.

use vstd::prelude::*;

use crate::matching::{
    apply_events, empty_book, fills_of_trades, spec_fills, spec_residual, sum_fills, taker_after,
    trades_view, MatchingEngine,
};
use crate::orderbook::{flat, opposite, BookV, OrderbookSnapshot};
use crate::types::{EventV, Order, OrderSide, OrderStatus, OrderType, OrderV, Trade};
use crate::wal::{crc32_of, spec_enc_event, WalEntryV, WAL};

verus! {

/// Why the engine refuses a request, surfaced before any state changes.
#[derive(Clone, Copy, PartialEq, Eq, Structural, Debug)]
pub enum EngineError {
    /// The order's quantity is not strictly positive.
    InvalidQuantity,
    /// A limit order arrived without a price.
    MissingPrice,
    /// A market or immediate-or-cancel order arrived with a price.
    UnexpectedPrice,
    /// The order names another market than this engine's.
    WrongMarket,
    /// The order is not a fresh one: something of it is already filled.
    NotFresh,
    /// An active order with the same id already rests in the book.
    DuplicateOrderId,
    /// The sequence counter cannot number every event this order may emit.
    SequenceExhausted,
    /// No resting order with the given id exists.
    NotFound,
}

/// The entry the log gains when an event is appended.
pub open spec fn entry_of(e: EventV) -> WalEntryV {
    WalEntryV {
        sequence_number: e.seq_no(),
        timestamp_ns: e.ts(),
        event: e,
        checksum: crc32_of(spec_enc_event(e)),
    }
}

/// The entries a list of events becomes in the log.
pub open spec fn entries_of(events: Seq<EventV>) -> Seq<WalEntryV> {
    events.map_values(|e: EventV| entry_of(e))
}

/// What the engine's validation says about an incoming order, in order of
/// precedence; `None` means the order is accepted.
pub open spec fn spec_validate(b: BookV, market: Seq<char>, o: OrderV) -> Option<EngineError> {
    if o.quantity == 0 {
        Some(EngineError::InvalidQuantity)
    } else if o.order_type == OrderType::Limit && o.price is None {
        Some(EngineError::MissingPrice)
    } else if o.order_type != OrderType::Limit && o.price is Some {
        Some(EngineError::UnexpectedPrice)
    } else if o.market_id != market {
        Some(EngineError::WrongMarket)
    } else if o.remaining_quantity != o.quantity || o.filled_quantity != 0 || o.status
        != OrderStatus::Pending {
        Some(EngineError::NotFresh)
    } else if b.has_id(o.id) {
        Some(EngineError::DuplicateOrderId)
    } else {
        None
    }
}

/// One market's engine: the book, the matching core's sequence source, and
/// the write-ahead log, every mutation flowing through all three in step.
pub struct Engine {
    market_id: String,
    matching: MatchingEngine,
    wal: WAL,
    base: Ghost<Seq<WalEntryV>>,
    history: Ghost<Seq<EventV>>,
}

impl Engine {
    /// The model of the book.
    pub closed spec fn spec_book(&self) -> BookV {
        self.matching.spec_book()
    }

    /// The most recently issued sequence number.
    pub closed spec fn spec_sequence(&self) -> i64 {
        self.matching.spec_sequence()
    }

    /// This market's identifier.
    pub closed spec fn spec_market(&self) -> Seq<char> {
        self.market_id@
    }

    /// Every event this engine has emitted, in emission order.
    pub closed spec fn spec_history(&self) -> Seq<EventV> {
        self.history@
    }

    /// The log entries that predate this engine instance.
    pub closed spec fn spec_base(&self) -> Seq<WalEntryV> {
        self.base@
    }

    /// The log's entries.
    pub closed spec fn spec_wal_entries(&self) -> Seq<WalEntryV> {
        self.wal.spec_entries()
    }

    /// The sequence number of the last logged entry.
    pub closed spec fn spec_wal_sequence(&self) -> i64 {
        self.wal.spec_last_sequence()
    }

    /// The two components' own invariants.
    pub closed spec fn parts_wf(&self) -> bool {
        self.matching.wf() && self.wal.wf()
    }

    /// The engine invariant. Beyond the parts' own invariants it states the
    /// couplings everything else rests on: matching and the log share one
    /// sequence stream; the log holds exactly the emitted events, in order,
    /// behind whatever it held at start-up; the emitted events' sequence
    /// numbers are contiguous; and the book is exactly the emitted events
    /// replayed over an empty book.
    pub open spec fn wf(&self) -> bool {
        &&& self.parts_wf()
        &&& self.spec_book().market_id == self.spec_market()
        &&& self.spec_sequence() == self.spec_wal_sequence()
        &&& self.spec_wal_entries() == self.spec_base() + entries_of(self.spec_history())
        &&& self.spec_book() == apply_events(empty_book(self.spec_market()), self.spec_history())
        &&& forall|k: int|
            0 <= k < self.spec_history().len() ==> (#[trigger] self.spec_history()[k]).seq_no()
                == self.spec_sequence() - self.spec_history().len() + 1 + k
    }

    /// A well-formed engine's book replays from its own event history: the
    /// essence of write-ahead logging.
    pub proof fn lemma_replay_rebuilds_book(&self)
        requires
            self.wf(),
        ensures
            self.spec_book() == apply_events(empty_book(self.spec_market()), self.spec_history()),
            self.spec_wal_entries() == self.spec_base() + entries_of(self.spec_history()),
    {
    }

    /// Creates an engine over a log: the book starts empty and sequence
    /// numbers continue strictly above everything the log already holds.
    pub fn new(market_id: String, wal: WAL) -> (r: Engine)
        requires
            wal.wf(),
        ensures
            r.wf(),
            r.spec_market() == market_id@,
            r.spec_book() == empty_book(market_id@),
            r.spec_history().len() == 0,
            r.spec_base() == wal.spec_entries(),
            r.spec_sequence() == wal.spec_last_sequence(),
    {
        let initial = wal.current_sequence();
        let matching = MatchingEngine::new(market_id.clone(), initial);
        let ghost base = wal.spec_entries();
        let r = Engine { market_id, matching, wal, base: Ghost(base), history: Ghost(Seq::empty()) };
        proof {
            assert(entries_of(r.history@) =~= Seq::<WalEntryV>::empty());
            assert(r.wal.spec_entries() =~= r.base@ + entries_of(r.history@));
            assert(r.spec_book() =~~= empty_book(r.market_id@));
            assert(apply_events(empty_book(r.market_id@), r.history@) == empty_book(
                r.market_id@,
            ));
        }
        r
    }

    /// The sequence number of the most recently emitted event.
    pub fn current_sequence(&self) -> (r: i64)
        ensures
            r == self.spec_sequence(),
    {
        self.matching.current_sequence()
    }

    /// The log's byte image, for whoever persists it.
    pub fn wal_bytes(&self) -> (r: &Vec<u8>)
        requires
            self.wf(),
        ensures
            r@ == crate::wal::spec_wal_image(self.spec_wal_entries()),
    {
        self.wal.bytes()
    }

    /// Read-only lookup of an active order.
    pub fn status(&self, order_id: u128) -> (r: Option<Order>)
        requires
            self.wf(),
        ensures
            (r is Some) == self.spec_book().has_id(order_id),
            r matches Some(o) ==> o@ == self.spec_book().get(order_id),
    {
        self.matching.book_ref().get_order(order_id)
    }

    /// Read-only top-of-book view plus the current sequence number.
    pub fn snapshot(&self, depth: usize) -> (r: (OrderbookSnapshot, i64))
        requires
            self.wf(),
        ensures
            r.0@.market_id == self.spec_market(),
            crate::orderbook::summary_matches(r.0@.bids, self.spec_book().bids, depth),
            crate::orderbook::summary_matches(r.0@.asks, self.spec_book().asks, depth),
            r.1 == self.spec_sequence(),
    {
        let snap = self.matching.book_ref().snapshot(depth);
        let seq_no = self.matching.current_sequence();
        (snap, seq_no)
    }

    /// Places an order: validates it, matches it against the book, appends
    /// every emitted event to the log in emission order, and reports the
    /// trades, the residual, the terminal status and the last sequence
    /// number used. A refused order changes nothing.
    #[verifier::rlimit(100)]
    pub fn place(&mut self, order: Order) -> (r: Result<
        (Vec<Trade>, Option<Order>, OrderStatus, i64),
        EngineError,
    >)
        requires
            old(self).wf(),
        ensures
            final(self).wf(),
            final(self).spec_market() == old(self).spec_market(),
            ({
                let book0 = old(self).spec_book();
                let market = old(self).spec_market();
                let v = spec_validate(book0, market, order@);
                &&& (v matches Some(err) ==> r == Err::<
                    (Vec<Trade>, Option<Order>, OrderStatus, i64),
                    EngineError,
                >(err) && final(self).spec_history() == old(self).spec_history()
                    && final(self).spec_book() == book0 && final(self).spec_sequence() == old(self).spec_sequence())
                &&& (v is None ==> ({
                    &&& r matches Err(e) ==> e == EngineError::SequenceExhausted && final(self).spec_history() == old(self).spec_history() && final(self).spec_book()
                        == book0
                }))
                &&& (v is None && flat(book0.side(opposite(order@.side))).len() < i64::MAX
                    - old(self).spec_sequence() ==> r is Ok)
                &&& (r is Err ==> final(self).spec_book() == book0 && final(self).spec_history()
                    == old(self).spec_history() && final(self).spec_sequence() == old(self).spec_sequence())
                &&& (r matches Ok(out) ==> ({
                    let o0 = order@;
                    let mside = opposite(o0.side);
                    let fills = spec_fills(book0.side(mside), o0);
                    let after = taker_after(o0, fills);
                    let n = fills.len() as int;
                    let start = old(self).spec_sequence();
                    let tail_cnt: int = if after.remaining_quantity > 0 && o0.order_type
                        != OrderType::Market {
                        1
                    } else {
                        0
                    };
                    &&& v is None
                    &&& fills_of_trades(trades_view(out.0@)) == fills
                    &&& out.0@.len() == n
                    &&& forall|i: int|
                        0 <= i < n ==> ({
                            let tv = (#[trigger] out.0@[i])@;
                            &&& tv.taker_order_id == o0.id
                            &&& tv.market_id == o0.market_id
                            &&& tv.side == o0.side
                            &&& tv.sequence_number == start + 1 + i
                        })
                    &&& sum_fills(fills) + after.remaining_quantity == o0.quantity
                    &&& (after.remaining_quantity == 0 ==> out.1 is None)
                    &&& (after.remaining_quantity > 0 ==> ({
                        &&& out.1 matches Some(res) && res@ == spec_residual(o0, fills)
                    }))
                    &&& out.2 == (if after.remaining_quantity == 0 {
                        OrderStatus::Filled
                    } else if n > 0 {
                        OrderStatus::PartiallyFilled
                    } else {
                        OrderStatus::Pending
                    })
                    &&& out.3 == final(self).spec_sequence()
                    &&& final(self).spec_sequence() == start + n + tail_cnt
                    &&& final(self).spec_history().len() == old(self).spec_history().len() + n
                        + tail_cnt
                    &&& forall|i: int|
                        0 <= i < final(self).spec_history().len() ==> (
                        #[trigger] final(self).spec_history()[i]).seq_no()
                            == old(self).spec_sequence() - old(self).spec_history().len() + 1 + i
                    &&& final(self).spec_history().take(old(self).spec_history().len() as int)
                        == old(self).spec_history()
                }))
            }),
    {
        let ghost book0 = self.spec_book();
        let ghost market = self.market_id@;
        // Validation: reject before any state changes.
        if order.quantity == 0 {
            return Err(EngineError::InvalidQuantity);
        }
        if order.order_type == OrderType::Limit && order.price.is_none() {
            return Err(EngineError::MissingPrice);
        }
        if order.order_type != OrderType::Limit && order.price.is_some() {
            return Err(EngineError::UnexpectedPrice);
        }
        if !(order.market_id == self.market_id) {
            return Err(EngineError::WrongMarket);
        }
        if order.remaining_quantity != order.quantity || order.filled_quantity != 0 || !(
        order.status == OrderStatus::Pending) {
            return Err(EngineError::NotFresh);
        }
        if self.matching.book_ref().get_order(order.id).is_some() {
            return Err(EngineError::DuplicateOrderId);
        }
        // Room in the sequence space for every event this order may emit.
        let opp_count = self.matching.book_ref().resting_count(
            match order.side {
                OrderSide::Buy => OrderSide::Sell,
                OrderSide::Sell => OrderSide::Buy,
            },
        );
        let start = self.matching.current_sequence();
        let room_i = (i64::MAX as i128) - (start as i128);
        let room = room_i as u128;
        if opp_count >= room {
            proof {
                assert(opp_count as int == flat(book0.side(opposite(order@.side))).len());
                assert(room as int == i64::MAX - old(self).spec_sequence());
            }
            return Err(EngineError::SequenceExhausted);
        }
        proof {
            assert(opp_count as int == flat(book0.side(opposite(order@.side))).len());
        }
        proof {
            assert(spec_validate(book0, market, order@) is None);
            assert(order@.wf());
        }
        let ghost o0 = order@;
        let ghost mside = opposite(o0.side);
        let ghost fills = spec_fills(book0.side(mside), o0);
        let ghost hist0 = self.history@;
        let (trades, residual, events) = self.matching.match_order(order);
        // Append every event to the log, in emission order.
        let ghost evs = crate::matching::events_view(events@);
        let ghost msnap = self.matching;
        let n_events = events.len();
        proof {
            assert forall|k: int| 0 <= k < evs.len() implies (#[trigger] evs[k]).seq_no() == start
                + 1 + k by {
                assert(evs[k] == events@[k]@);
                if k < trades@.len() {
                    assert(events@[k]@ == (EventV::TradeExecuted {
                        trade: trades@[k]@,
                        sequence_number: trades@[k]@.sequence_number,
                        timestamp_ns: trades@[k]@.timestamp_ns,
                    }));
                }
            }
            assert(evs.take(0) =~= Seq::<EventV>::empty());
            assert(entries_of(evs.take(0)) =~= Seq::<WalEntryV>::empty());
            assert(self.wal.spec_entries() =~= old(self).wal.spec_entries() + entries_of(
                evs.take(0),
            ));
        }
        let mut i: usize = 0;
        #[verifier::loop_isolation(false)]
        while i < n_events
            invariant
                0 <= i <= n_events,
                self.wal.wf(),
                self.wal.spec_last_sequence() == start + i,
                self.matching == msnap,
                self.market_id == old(self).market_id,
                self.base == old(self).base,
                self.history == old(self).history,
                self.wal.spec_entries() == old(self).wal.spec_entries() + entries_of(
                    evs.take(i as int),
                ),
            decreases n_events - i,
        {
            proof {
                assert(events@[i as int]@ == evs[i as int]);
            }
            let _ = self.wal.append(events[i].clone());
            proof {
                assert(evs.take(i + 1) =~= evs.take(i as int).push(evs[i as int]));
                assert(entries_of(evs.take(i + 1)) =~= entries_of(evs.take(i as int)).push(
                    entry_of(evs[i as int]),
                ));
                assert(self.wal.spec_entries() =~= old(self).wal.spec_entries() + entries_of(
                    evs.take(i + 1),
                ));
            }
            i = i + 1;
        }
        proof {
            assert(evs.take(n_events as int) =~= evs);
            self.history@ = hist0 + evs;
            assert(entries_of(hist0 + evs) =~= entries_of(hist0) + entries_of(evs));
            assert(self.wal.spec_entries() =~= self.base@ + entries_of(self.history@));
            crate::matching::lemma_apply_events_concat(
                empty_book(self.market_id@),
                hist0,
                evs,
            );
            assert forall|k: int| 0 <= k < self.history@.len() implies (
            #[trigger] self.history@[k]).seq_no() == old(self).spec_sequence()
                - hist0.len() + 1 + k by {
                if k < hist0.len() {
                    assert(self.history@[k] == hist0[k]);
                    assert(entries_of(hist0)[k].sequence_number == hist0[k].seq_no());
                    assert(old(self).wal.spec_entries()[self.base@.len() + k]
                        == entries_of(hist0)[k]);
                } else {
                    assert(self.history@[k] == evs[k - hist0.len()]);
                }
            }
            assert(self.history@.take(hist0.len() as int) =~= hist0);
        }
        let status = if residual.is_none() {
            OrderStatus::Filled
        } else if trades.len() > 0 {
            OrderStatus::PartiallyFilled
        } else {
            OrderStatus::Pending
        };
        let last = self.matching.current_sequence();
        proof {
            crate::matching::lemma_fills_facts(book0.side(mside), o0, mside);
        }
        Ok((trades, residual, status, last))
    }

    /// Cancels a resting order of this market: removes it, appends the
    /// cancellation event, and returns its sequence number. An unknown id
    /// changes nothing.
    pub fn cancel(&mut self, order_id: u128) -> (r: Result<i64, EngineError>)
        requires
            old(self).wf(),
        ensures
            final(self).wf(),
            final(self).spec_market() == old(self).spec_market(),
            ({
                let book0 = old(self).spec_book();
                let found = book0.has_id(order_id) && book0.get(order_id).market_id == old(self).spec_market();
                &&& (found && old(self).spec_sequence() == i64::MAX ==> r == Err::<
                    i64,
                    EngineError,
                >(EngineError::SequenceExhausted))
                &&& (!found ==> r == Err::<i64, EngineError>(EngineError::NotFound))
                &&& (r is Err ==> final(self).spec_book() == book0 && final(self).spec_history()
                    == old(self).spec_history() && final(self).spec_sequence() == old(self).spec_sequence())
                &&& (found && old(self).spec_sequence() < i64::MAX ==> r matches Ok(s))
                &&& (r matches Ok(s) ==> ({
                    &&& found
                    &&& s == old(self).spec_sequence() + 1
                    &&& final(self).spec_sequence() == s
                    &&& final(self).spec_book() == book0.remove(order_id)
                    &&& !final(self).spec_book().has_id(order_id)
                    &&& final(self).spec_history().len() == old(self).spec_history().len() + 1
                    &&& final(self).spec_history().last() matches EventV::OrderCancelled {
                        order_id: oid,
                        cancelled_quantity,
                        sequence_number,
                        ..
                    } && oid == order_id && cancelled_quantity == book0.get(
                        order_id,
                    ).remaining_quantity && sequence_number == s
                }))
            }),
    {
        // Not-found, including a foreign market's order, wins over every
        // other refusal: no state is read beyond the lookup.
        match self.matching.book_ref().get_order(order_id) {
            None => {
                return Err(EngineError::NotFound);
            },
            Some(existing) => {
                if !(existing.market_id == self.market_id) {
                    return Err(EngineError::NotFound);
                }
            },
        }
        let start = self.matching.current_sequence();
        if start == i64::MAX {
            return Err(EngineError::SequenceExhausted);
        }
        let ghost book0 = self.spec_book();
        let ghost hist0 = self.history@;
        let m = self.market_id.clone();
        let ev_opt = self.matching.cancel_order(order_id, m.as_str());
        match ev_opt {
            Some(ev) => {
                proof {
                    crate::orderbook::lemma_book_get_id(book0, order_id);
                }
                let seq_no = self.wal.append(ev);
                proof {
                    self.history@ = hist0.push(self.wal.spec_entries().last().event);
                    assert(entries_of(hist0.push(self.history@.last())) =~= entries_of(
                        hist0,
                    ).push(entry_of(self.history@.last())));
                    assert(self.wal.spec_entries() =~= self.base@ + entries_of(self.history@));
                    crate::matching::lemma_apply_events_push(
                        empty_book(self.market_id@),
                        hist0,
                        self.history@.last(),
                    );
                }
                Ok(seq_no)
            },
            None => {
                proof {
                    assert(false);
                }
                Err(EngineError::NotFound)
            },
        }
    }
}

} // verus!
