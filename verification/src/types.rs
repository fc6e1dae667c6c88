//! The value model: orders, trades, events, and the per-engine sequence
//! source. Prices and quantities are exact fixed-point decimals carried as
//! integer multiples of the market's smallest unit; order ids are 128-bit.

use vstd::prelude::*;

verus! {

/// Side of an order: whether it buys or sells.
#[derive(Clone, Copy, PartialEq, Eq, Structural, Debug)]
pub enum OrderSide {
    Buy,
    Sell,
}

/// Kind of an order. `IOC` (immediate-or-cancel) matches what it can and
/// cancels any residual instead of resting on the book.
#[derive(Clone, Copy, PartialEq, Eq, Structural, Debug)]
pub enum OrderType {
    Limit,
    Market,
    IOC,
}

/// Lifecycle state of an order.
#[derive(Clone, Copy, PartialEq, Eq, Structural, Debug)]
pub enum OrderStatus {
    Pending,
    PartiallyFilled,
    Filled,
    Cancelled,
    Rejected,
}

/// Mathematical model of an [`Order`]: the same fields with strings taken
/// as character sequences.
#[verifier::ext_equal]
pub ghost struct OrderV {
    pub id: u128,
    pub market_id: Seq<char>,
    pub user_id: Seq<char>,
    pub side: OrderSide,
    pub order_type: OrderType,
    pub price: Option<u64>,
    pub quantity: u64,
    pub remaining_quantity: u64,
    pub filled_quantity: u64,
    pub status: OrderStatus,
    pub timestamp_ns: i64,
    pub sequence_number: i64,
}

impl OrderV {
    /// Basic well-formedness of the quantity accounting: the filled and the
    /// remaining part always add up to the order's full size.
    pub open spec fn wf(self) -> bool {
        &&& self.remaining_quantity <= self.quantity
        &&& self.filled_quantity + self.remaining_quantity == self.quantity
    }

    /// The order as it looks after `qty` more units have been filled.
    pub open spec fn filled_by(self, qty: u64) -> OrderV {
        OrderV {
            remaining_quantity: (self.remaining_quantity - qty) as u64,
            filled_quantity: (self.filled_quantity + qty) as u64,
            status: if self.remaining_quantity == qty {
                OrderStatus::Filled
            } else {
                OrderStatus::PartiallyFilled
            },
            ..self
        }
    }
}

/// An order: the central entity. Prices and quantities are exact fixed-point
/// decimals held as integer multiples of the market's smallest unit.
#[derive(Debug, PartialEq)]
#[verifier::ext_equal]
pub struct Order {
    pub id: u128,
    pub market_id: String,
    pub user_id: String,
    pub side: OrderSide,
    pub order_type: OrderType,
    /// Present exactly for limit orders.
    pub price: Option<u64>,
    pub quantity: u64,
    pub remaining_quantity: u64,
    pub filled_quantity: u64,
    pub status: OrderStatus,
    pub timestamp_ns: i64,
    pub sequence_number: i64,
}

impl View for Order {
    type V = OrderV;

    open spec fn view(&self) -> OrderV {
        OrderV {
            id: self.id,
            market_id: self.market_id@,
            user_id: self.user_id@,
            side: self.side,
            order_type: self.order_type,
            price: self.price,
            quantity: self.quantity,
            remaining_quantity: self.remaining_quantity,
            filled_quantity: self.filled_quantity,
            status: self.status,
            timestamp_ns: self.timestamp_ns,
            sequence_number: self.sequence_number,
        }
    }
}

impl Clone for Order {
    fn clone(&self) -> (r: Self)
        ensures
            r@ == self@,
    {
        Order {
            id: self.id,
            market_id: self.market_id.clone(),
            user_id: self.user_id.clone(),
            side: self.side,
            order_type: self.order_type,
            price: self.price,
            quantity: self.quantity,
            remaining_quantity: self.remaining_quantity,
            filled_quantity: self.filled_quantity,
            status: self.status,
            timestamp_ns: self.timestamp_ns,
            sequence_number: self.sequence_number,
        }
    }
}

impl Order {
    /// Creates a fresh order: nothing filled yet, status `Pending`.
    pub fn new(
        id: u128,
        market_id: String,
        user_id: String,
        side: OrderSide,
        order_type: OrderType,
        price: Option<u64>,
        quantity: u64,
        timestamp_ns: i64,
        sequence_number: i64,
    ) -> (r: Self)
        ensures
            r@ == (OrderV {
                id,
                market_id: market_id@,
                user_id: user_id@,
                side,
                order_type,
                price,
                quantity,
                remaining_quantity: quantity,
                filled_quantity: 0,
                status: OrderStatus::Pending,
                timestamp_ns,
                sequence_number,
            }),
            r@.wf(),
    {
        Order {
            id,
            market_id,
            user_id,
            side,
            order_type,
            price,
            quantity,
            remaining_quantity: quantity,
            filled_quantity: 0,
            status: OrderStatus::Pending,
            timestamp_ns,
            sequence_number,
        }
    }

    /// An order is filled exactly when nothing remains of it.
    pub fn is_filled(&self) -> (r: bool)
        ensures
            r == (self.remaining_quantity == 0),
    {
        self.remaining_quantity == 0
    }

    /// Applies a fill of `min(quantity, remaining)` units. The price is the
    /// trade's concern and is not stored on the order.
    pub fn fill(&mut self, quantity: u64, _price: u64)
        requires
            old(self)@.wf(),
        ensures
            final(self)@ == old(self)@.filled_by(
                if quantity <= old(self).remaining_quantity {
                    quantity
                } else {
                    old(self).remaining_quantity
                },
            ),
            final(self)@.wf(),
    {
        let fill_amount: u64 = if quantity <= self.remaining_quantity {
            quantity
        } else {
            self.remaining_quantity
        };
        self.remaining_quantity = self.remaining_quantity - fill_amount;
        self.filled_quantity = self.filled_quantity + fill_amount;
        if self.remaining_quantity == 0 {
            self.status = OrderStatus::Filled;
        } else {
            self.status = OrderStatus::PartiallyFilled;
        }
    }
}

/// Mathematical model of a [`Trade`].
#[verifier::ext_equal]
pub ghost struct TradeV {
    pub id: u128,
    pub market_id: Seq<char>,
    pub taker_order_id: u128,
    pub maker_order_id: u128,
    pub side: OrderSide,
    pub price: u64,
    pub quantity: u64,
    pub timestamp_ns: i64,
    pub sequence_number: i64,
}

/// A trade: emitted whenever the matching core crosses two orders, and
/// immutable from then on. The price is always the maker's limit price and
/// the side is the taker's.
#[derive(Debug, PartialEq)]
#[verifier::ext_equal]
pub struct Trade {
    pub id: u128,
    pub market_id: String,
    pub taker_order_id: u128,
    pub maker_order_id: u128,
    pub side: OrderSide,
    pub price: u64,
    pub quantity: u64,
    pub timestamp_ns: i64,
    pub sequence_number: i64,
}

impl View for Trade {
    type V = TradeV;

    open spec fn view(&self) -> TradeV {
        TradeV {
            id: self.id,
            market_id: self.market_id@,
            taker_order_id: self.taker_order_id,
            maker_order_id: self.maker_order_id,
            side: self.side,
            price: self.price,
            quantity: self.quantity,
            timestamp_ns: self.timestamp_ns,
            sequence_number: self.sequence_number,
        }
    }
}

impl Clone for Trade {
    fn clone(&self) -> (r: Self)
        ensures
            r@ == self@,
    {
        Trade {
            id: self.id,
            market_id: self.market_id.clone(),
            taker_order_id: self.taker_order_id,
            maker_order_id: self.maker_order_id,
            side: self.side,
            price: self.price,
            quantity: self.quantity,
            timestamp_ns: self.timestamp_ns,
            sequence_number: self.sequence_number,
        }
    }
}

/// Mathematical model of an [`Event`].
#[verifier::ext_equal]
pub ghost enum EventV {
    OrderPlaced { order: OrderV, sequence_number: i64, timestamp_ns: i64 },
    OrderCancelled {
        order_id: u128,
        market_id: Seq<char>,
        side: OrderSide,
        price: Option<u64>,
        cancelled_quantity: u64,
        sequence_number: i64,
        timestamp_ns: i64,
    },
    TradeExecuted { trade: TradeV, sequence_number: i64, timestamp_ns: i64 },
}

impl EventV {
    /// The sequence number an event carries, whatever its variant.
    pub open spec fn seq_no(self) -> i64 {
        match self {
            EventV::OrderPlaced { sequence_number, .. } => sequence_number,
            EventV::OrderCancelled { sequence_number, .. } => sequence_number,
            EventV::TradeExecuted { sequence_number, .. } => sequence_number,
        }
    }

    /// The timestamp an event carries, whatever its variant.
    pub open spec fn ts(self) -> i64 {
        match self {
            EventV::OrderPlaced { timestamp_ns, .. } => timestamp_ns,
            EventV::OrderCancelled { timestamp_ns, .. } => timestamp_ns,
            EventV::TradeExecuted { timestamp_ns, .. } => timestamp_ns,
        }
    }
}

/// A state-transition record: everything the write-ahead log persists and
/// everything replay needs to rebuild the book.
#[derive(Debug, PartialEq)]
#[verifier::ext_equal]
pub enum Event {
    OrderPlaced { order: Order, sequence_number: i64, timestamp_ns: i64 },
    OrderCancelled {
        order_id: u128,
        market_id: String,
        side: OrderSide,
        price: Option<u64>,
        cancelled_quantity: u64,
        sequence_number: i64,
        timestamp_ns: i64,
    },
    TradeExecuted { trade: Trade, sequence_number: i64, timestamp_ns: i64 },
}

impl View for Event {
    type V = EventV;

    open spec fn view(&self) -> EventV {
        match self {
            Event::OrderPlaced { order, sequence_number, timestamp_ns } => EventV::OrderPlaced {
                order: order@,
                sequence_number: *sequence_number,
                timestamp_ns: *timestamp_ns,
            },
            Event::OrderCancelled {
                order_id,
                market_id,
                side,
                price,
                cancelled_quantity,
                sequence_number,
                timestamp_ns,
            } => EventV::OrderCancelled {
                order_id: *order_id,
                market_id: market_id@,
                side: *side,
                price: *price,
                cancelled_quantity: *cancelled_quantity,
                sequence_number: *sequence_number,
                timestamp_ns: *timestamp_ns,
            },
            Event::TradeExecuted { trade, sequence_number, timestamp_ns } => EventV::TradeExecuted {
                trade: trade@,
                sequence_number: *sequence_number,
                timestamp_ns: *timestamp_ns,
            },
        }
    }
}

impl Clone for Event {
    fn clone(&self) -> (r: Self)
        ensures
            r@ == self@,
    {
        match self {
            Event::OrderPlaced { order, sequence_number, timestamp_ns } => Event::OrderPlaced {
                order: order.clone(),
                sequence_number: *sequence_number,
                timestamp_ns: *timestamp_ns,
            },
            Event::OrderCancelled {
                order_id,
                market_id,
                side,
                price,
                cancelled_quantity,
                sequence_number,
                timestamp_ns,
            } => Event::OrderCancelled {
                order_id: *order_id,
                market_id: market_id.clone(),
                side: *side,
                price: *price,
                cancelled_quantity: *cancelled_quantity,
                sequence_number: *sequence_number,
                timestamp_ns: *timestamp_ns,
            },
            Event::TradeExecuted { trade, sequence_number, timestamp_ns } => Event::TradeExecuted {
                trade: trade.clone(),
                sequence_number: *sequence_number,
                timestamp_ns: *timestamp_ns,
            },
        }
    }
}

impl Event {
    /// The sequence number this event was emitted under.
    pub fn sequence_number(&self) -> (r: i64)
        ensures
            r == self@.seq_no(),
    {
        match self {
            Event::OrderPlaced { sequence_number, .. } => *sequence_number,
            Event::OrderCancelled { sequence_number, .. } => *sequence_number,
            Event::TradeExecuted { sequence_number, .. } => *sequence_number,
        }
    }

    /// The timestamp this event carries.
    pub fn timestamp_ns(&self) -> (r: i64)
        ensures
            r == self@.ts(),
    {
        match self {
            Event::OrderPlaced { timestamp_ns, .. } => *timestamp_ns,
            Event::OrderCancelled { timestamp_ns, .. } => *timestamp_ns,
            Event::TradeExecuted { timestamp_ns, .. } => *timestamp_ns,
        }
    }
}

/// Strictly monotonic source of per-engine sequence numbers.
pub struct SequenceGenerator {
    counter: i64,
}

impl SequenceGenerator {
    /// The most recently issued value.
    pub closed spec fn spec_current(&self) -> i64 {
        self.counter
    }

    /// Creates a counter whose next issued value will be `initial + 1`.
    pub fn new(initial: i64) -> (r: Self)
        ensures
            r.spec_current() == initial,
    {
        SequenceGenerator { counter: initial }
    }

    /// Issues the next sequence number: strictly greater than every value
    /// issued before it on this counter.
    pub fn next(&mut self) -> (r: i64)
        requires
            old(self).spec_current() < i64::MAX,
        ensures
            final(self).spec_current() == old(self).spec_current() + 1,
            r == final(self).spec_current(),
            r > old(self).spec_current(),
    {
        self.counter = self.counter + 1;
        self.counter
    }

    /// Returns the most recently issued value without advancing.
    pub fn current(&self) -> (r: i64)
        ensures
            r == self.spec_current(),
    {
        self.counter
    }
}

/// Source of wall-clock timestamps in nanoseconds since the epoch.
pub struct TimestampGenerator {}

impl TimestampGenerator {
    /// Relies on chrono's `Utc::now().timestamp_nanos_opt()`: the current
    /// wall-clock time. Nothing can be promised of a clock reading, so the
    /// contract is empty; every caller states what holds of any timestamp.
    /// chrono's `now` panics if the system clock reads before the Unix
    /// epoch — an environmental fault outside the library's control.
    #[verifier::external_body]
    pub fn now_ns() -> i64 {
        chrono::Utc::now().timestamp_nanos_opt().unwrap_or(0)
    }
}

} // verus!
