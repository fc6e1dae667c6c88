//! The matching core: the greedy price-time-priority walk over the
//! opposite side, specified as a recursion the executable loop provably
//! follows, plus the event-application semantics replay is built on.

use vstd::prelude::*;

use crate::orderbook::{
    find_level, find_order, flat, get_in_levels, levels_have_id, opposite, order_fits_level,
    orders_have_id, side_wf, spec_better_px, spec_remove_id, spec_update_id, BookV, LevelV,
    Orderbook,
};
use crate::types::{
    Event, EventV, Order, OrderSide, OrderStatus, OrderType, OrderV, SequenceGenerator,
    TimestampGenerator, Trade, TradeV,
};

verus! {

/// Whether the incoming taker may cross a maker resting at `maker_price`.
/// Market and immediate-or-cancel orders cross whenever a maker exists; a
/// limit order crosses only when its limit allows the maker's price.
pub open spec fn crossable(taker: OrderV, maker_price: u64) -> bool {
    match taker.order_type {
        OrderType::Limit => match taker.side {
            OrderSide::Buy => taker.price->0 >= maker_price,
            OrderSide::Sell => taker.price->0 <= maker_price,
        },
        OrderType::Market => true,
        OrderType::IOC => true,
    }
}

/// One fill of the matching loop: which maker, at what price, how much.
#[verifier::ext_equal]
pub ghost struct FillV {
    pub maker_id: u128,
    pub price: u64,
    pub qty: u64,
}

/// The smaller of two quantities.
pub open spec fn min_qty(a: u64, b: u64) -> u64 {
    if a <= b {
        a
    } else {
        b
    }
}

/// Length of the front level's queue; zero when the side is empty.
pub open spec fn first_orders_len(levels: Seq<LevelV>) -> int {
    if levels.len() == 0 {
        0
    } else {
        levels[0].orders.len() as int
    }
}

/// The opposite side as the matching loop leaves it after one fill: the
/// front maker's queue slot is consumed.
pub open spec fn consume_front(levels: Seq<LevelV>) -> Seq<LevelV> {
    if levels[0].orders.len() == 1 {
        levels.drop_first()
    } else {
        levels.update(0, LevelV { price: levels[0].price, orders: levels[0].orders.drop_first() })
    }
}

/// The greedy fill sequence of price-time-priority matching: while the taker
/// has quantity left and the front maker is crossable, trade the smaller of
/// the two remaining quantities at the maker's price, then move on.
pub open spec fn spec_fills(levels: Seq<LevelV>, taker: OrderV) -> Seq<FillV>
    decreases levels.len(), first_orders_len(levels),
{
    if levels.len() == 0 || taker.remaining_quantity == 0 || !crossable(taker, levels[0].price)
        || levels[0].orders.len() == 0 {
        Seq::empty()
    } else {
        let m = levels[0].orders[0];
        let q = min_qty(taker.remaining_quantity, m.remaining_quantity);
        seq![FillV { maker_id: m.id, price: levels[0].price, qty: q }] + spec_fills(
            consume_front(levels),
            taker.filled_by(q),
        )
    }
}

/// The sum of the quantities of a fill sequence.
pub open spec fn sum_fills(fills: Seq<FillV>) -> int
    decreases fills.len(),
{
    if fills.len() == 0 {
        0
    } else {
        fills[0].qty + sum_fills(fills.drop_first())
    }
}

/// The taker after a sequence of fills has been applied to it.
pub open spec fn taker_after(taker: OrderV, fills: Seq<FillV>) -> OrderV
    decreases fills.len(),
{
    if fills.len() == 0 {
        taker
    } else {
        taker_after(taker.filled_by(fills[0].qty), fills.drop_first())
    }
}

/// Everything of an order except its fill accounting: what matching never
/// touches on the taker.
pub open spec fn core_eq(a: OrderV, b: OrderV) -> bool {
    &&& a.id == b.id
    &&& a.market_id == b.market_id
    &&& a.user_id == b.user_id
    &&& a.side == b.side
    &&& a.order_type == b.order_type
    &&& a.price == b.price
    &&& a.quantity == b.quantity
    &&& a.timestamp_ns == b.timestamp_ns
    &&& a.sequence_number == b.sequence_number
}

/// The fills a list of trades describes.
pub open spec fn fills_of_trades(trades: Seq<TradeV>) -> Seq<FillV> {
    trades.map_values(
        |t: TradeV| FillV { maker_id: t.maker_order_id, price: t.price, qty: t.quantity },
    )
}

/// The models of a list of trades.
pub open spec fn trades_view(trades: Seq<Trade>) -> Seq<TradeV> {
    trades.map_values(|t: Trade| t@)
}

/// The models of a list of events.
pub open spec fn events_view(events: Seq<Event>) -> Seq<EventV> {
    events.map_values(|e: Event| e@)
}

/// How one event transforms the book: exactly the mutation the engine made
/// when it emitted the event, so that replaying a log rebuilds the book.
pub open spec fn apply_event(b: BookV, e: EventV) -> BookV {
    match e {
        EventV::OrderPlaced { order, .. } => {
            if order.order_type == OrderType::Limit && order.price is Some
                && order.remaining_quantity > 0 && order.wf() && !b.has_id(order.id) {
                b.add(order)
            } else {
                b
            }
        },
        EventV::OrderCancelled { order_id, .. } => b.remove(order_id),
        EventV::TradeExecuted { trade, .. } => {
            let side = opposite(trade.side);
            let levels = b.side(side);
            if levels_have_id(levels, trade.maker_order_id) {
                let m = get_in_levels(levels, trade.maker_order_id);
                let new_levels = if m.remaining_quantity <= trade.quantity {
                    spec_remove_id(levels, trade.maker_order_id)
                } else {
                    spec_update_id(levels, m.filled_by(trade.quantity))
                };
                match side {
                    OrderSide::Buy => BookV { bids: new_levels, ..b },
                    OrderSide::Sell => BookV { asks: new_levels, ..b },
                }
            } else {
                b
            }
        },
    }
}

/// The book after a whole sequence of events, applied in order.
pub open spec fn apply_events(b: BookV, events: Seq<EventV>) -> BookV
    decreases events.len(),
{
    if events.len() == 0 {
        b
    } else {
        apply_events(apply_event(b, events[0]), events.drop_first())
    }
}

/// Appending one event to a replay applies it last.
pub proof fn lemma_apply_events_push(b: BookV, events: Seq<EventV>, e: EventV)
    ensures
        apply_events(b, events.push(e)) == apply_event(apply_events(b, events), e),
    decreases events.len(),
{
    let s = events.push(e);
    if events.len() == 0 {
        assert(s.drop_first() =~= Seq::<EventV>::empty());
        assert(s[0] == e);
        assert(apply_events(b, s) == apply_events(apply_event(b, e), s.drop_first()));
        assert(apply_events(apply_event(b, e), Seq::<EventV>::empty()) == apply_event(b, e));
        assert(apply_events(b, Seq::<EventV>::empty()) == b);
    } else {
        assert(s[0] == events[0]);
        assert(s.drop_first() =~= events.drop_first().push(e));
        lemma_apply_events_push(apply_event(b, events[0]), events.drop_first(), e);
        assert(apply_events(b, s) == apply_events(apply_event(b, events[0]), s.drop_first()));
        assert(apply_events(b, events) == apply_events(apply_event(b, events[0]), events.drop_first()));
    }
}

/// Applying one more fill to the taker folds from the right.
pub proof fn lemma_taker_after_push(taker: OrderV, fills: Seq<FillV>, f: FillV)
    ensures
        taker_after(taker, fills.push(f)) == taker_after(taker, fills).filled_by(f.qty),
    decreases fills.len(),
{
    let s = fills.push(f);
    if fills.len() == 0 {
        assert(s.drop_first() =~= Seq::<FillV>::empty());
        assert(s[0] == f);
        assert(taker_after(taker, s) == taker_after(taker.filled_by(f.qty), s.drop_first()));
        assert(taker_after(taker.filled_by(f.qty), Seq::<FillV>::empty()) == taker.filled_by(
            f.qty,
        ));
        assert(taker_after(taker, Seq::<FillV>::empty()) == taker);
    } else {
        assert(s[0] == fills[0]);
        assert(s.drop_first() =~= fills.drop_first().push(f));
        lemma_taker_after_push(taker.filled_by(fills[0].qty), fills.drop_first(), f);
        assert(taker_after(taker, s) == taker_after(taker.filled_by(fills[0].qty), s.drop_first()));
        assert(taker_after(taker, fills) == taker_after(
            taker.filled_by(fills[0].qty),
            fills.drop_first(),
        ));
    }
}

/// Summing one more fill folds from the right.
pub proof fn lemma_sum_fills_push(fills: Seq<FillV>, f: FillV)
    ensures
        sum_fills(fills.push(f)) == sum_fills(fills) + f.qty,
    decreases fills.len(),
{
    let s = fills.push(f);
    if fills.len() == 0 {
        assert(s.drop_first() =~= Seq::<FillV>::empty());
        assert(s[0] == f);
        assert(sum_fills(s) == f.qty + sum_fills(s.drop_first()));
        assert(sum_fills(Seq::<FillV>::empty()) == 0);
    } else {
        assert(s[0] == fills[0]);
        assert(s.drop_first() =~= fills.drop_first().push(f));
        lemma_sum_fills_push(fills.drop_first(), f);
        assert(sum_fills(s) == fills[0].qty + sum_fills(s.drop_first()));
        assert(sum_fills(fills) == fills[0].qty + sum_fills(fills.drop_first()));
    }
}

/// Consuming the front maker keeps the side well formed.
proof fn lemma_consume_front_wf(levels: Seq<LevelV>, side: OrderSide)
    requires
        side_wf(levels, side),
        levels.len() > 0,
    ensures
        side_wf(consume_front(levels), side),
{
    let r = consume_front(levels);
    if levels[0].orders.len() == 1 {
        assert forall|i: int, j: int| 0 <= i < j < r.len() implies
            crate::orderbook::spec_better_px(side, #[trigger] r[i].price, #[trigger] r[j].price)
        by {
            assert(r[i] == levels[i + 1] && r[j] == levels[j + 1]);
        }
        assert forall|i: int, k: int|
            0 <= i < r.len() && 0 <= k < r[i].orders.len() implies
            crate::orderbook::order_fits_level(#[trigger] r[i].orders[k], r[i].price, side)
        by {
            assert(r[i] == levels[i + 1]);
        }
    } else {
        assert forall|i: int, j: int| 0 <= i < j < r.len() implies
            crate::orderbook::spec_better_px(side, #[trigger] r[i].price, #[trigger] r[j].price)
        by {
            assert(r[i].price == levels[i].price && r[j].price == levels[j].price);
        }
        assert forall|i: int, k: int|
            0 <= i < r.len() && 0 <= k < r[i].orders.len() implies
            crate::orderbook::order_fits_level(#[trigger] r[i].orders[k], r[i].price, side)
        by {
            if i == 0 {
                assert(r[0].orders[k] == levels[0].orders[k + 1]);
            } else {
                assert(r[i] == levels[i]);
            }
        }
    }
}

/// What greedy matching guarantees for any well-formed side: quantity is
/// conserved, the taker's identity survives untouched, every fill was
/// crossable for the taker, and its price is the front maker's limit.
pub proof fn lemma_fills_facts(levels: Seq<LevelV>, taker: OrderV, side: OrderSide)
    requires
        side_wf(levels, side),
        taker.wf(),
    ensures
        ({
            let fills = spec_fills(levels, taker);
            let after = taker_after(taker, fills);
            &&& sum_fills(fills) + after.remaining_quantity == taker.remaining_quantity
            &&& after.wf()
            &&& core_eq(after, taker)
            &&& sum_fills(fills) >= 0
            &&& forall|j: int|
                0 <= j < fills.len() ==> crossable(taker, (#[trigger] fills[j]).price)
            &&& forall|j: int| 0 <= j < fills.len() ==> (#[trigger] fills[j]).qty > 0
        }),
    decreases levels.len(), first_orders_len(levels),
{
    if levels.len() == 0 || taker.remaining_quantity == 0 || !crossable(taker, levels[0].price)
        || levels[0].orders.len() == 0 {
    } else {
        let m = levels[0].orders[0];
        let q = min_qty(taker.remaining_quantity, m.remaining_quantity);
        let taker2 = taker.filled_by(q);
        let rest = consume_front(levels);
        lemma_consume_front_wf(levels, side);
        assert(crate::orderbook::order_fits_level(m, levels[0].price, side));
        lemma_fills_facts(rest, taker2, side);
        let fills = spec_fills(levels, taker);
        let tail = spec_fills(rest, taker2);
        assert(fills[0] == FillV { maker_id: m.id, price: levels[0].price, qty: q });
        assert(fills.drop_first() =~= tail);
        assert forall|j: int| 0 <= j < fills.len() implies crossable(
            taker,
            (#[trigger] fills[j]).price,
        ) by {
            if j > 0 {
                assert(fills[j] == tail[j - 1]);
                assert(crossable(taker2, fills[j].price));
            }
        }
        assert forall|j: int| 0 <= j < fills.len() implies (#[trigger] fills[j]).qty > 0 by {
            if j > 0 {
                assert(fills[j] == tail[j - 1]);
            }
        }
    }
}


/// Consuming the front maker shortens the priority queue by exactly one.
proof fn lemma_flat_consume_front(levels: Seq<LevelV>)
    requires
        levels.len() > 0,
        levels[0].orders.len() > 0,
    ensures
        flat(consume_front(levels)).len() == flat(levels).len() - 1,
{
    assert(flat(levels) == levels[0].orders + flat(levels.drop_first()));
    if levels[0].orders.len() == 1 {
        assert(consume_front(levels) == levels.drop_first());
    } else {
        let cf = consume_front(levels);
        assert(cf[0].orders == levels[0].orders.drop_first());
        assert(cf.drop_first() =~= levels.drop_first());
        assert(flat(cf) == cf[0].orders + flat(cf.drop_first()));
    }
}

/// There are never more fills than resting orders on the opposite side.
pub proof fn lemma_fills_len(levels: Seq<LevelV>, taker: OrderV, side: OrderSide)
    requires
        side_wf(levels, side),
    ensures
        spec_fills(levels, taker).len() <= flat(levels).len(),
    decreases levels.len(), first_orders_len(levels),
{
    if levels.len() == 0 || taker.remaining_quantity == 0 || !crossable(taker, levels[0].price)
        || levels[0].orders.len() == 0 {
        if levels.len() > 0 {
            assert(flat(levels) == levels[0].orders + flat(levels.drop_first()));
            lemma_flat_len_nonneg(levels.drop_first());
        }
    } else {
        let m = levels[0].orders[0];
        let q = min_qty(taker.remaining_quantity, m.remaining_quantity);
        let rest = consume_front(levels);
        lemma_consume_front_wf(levels, side);
        lemma_flat_consume_front(levels);
        lemma_fills_len(rest, taker.filled_by(q), side);
    }
}

proof fn lemma_flat_len_nonneg(levels: Seq<LevelV>)
    ensures
        flat(levels).len() >= 0,
{
}

/// One step of the matching recursion, phrased as the book mutation the
/// engine performs: the front maker is either removed (filled) or replaced
/// with its filled self, and the fill list starts with that trade.
pub proof fn lemma_fills_step(levels: Seq<LevelV>, taker: OrderV, side: OrderSide)
    requires
        side_wf(levels, side),
        taker.wf(),
        levels.len() > 0,
        taker.remaining_quantity > 0,
        crossable(taker, levels[0].price),
    ensures
        ({
            let m = levels[0].orders[0];
            let q = min_qty(taker.remaining_quantity, m.remaining_quantity);
            let transformed = if m.remaining_quantity <= q {
                spec_remove_id(levels, m.id)
            } else {
                spec_update_id(levels, m.filled_by(q))
            };
            &&& orders_have_id(levels[0].orders, m.id)
            &&& levels_have_id(levels, m.id)
            &&& find_level(levels, m.id) == 0
            &&& get_in_levels(levels, m.id) == m
            &&& m.price == Some(levels[0].price)
            &&& m.wf()
            &&& m.remaining_quantity > 0
            &&& m.side == side
            &&& m.order_type == OrderType::Limit
            &&& spec_fills(levels, taker) == seq![
                FillV { maker_id: m.id, price: levels[0].price, qty: q },
            ] + spec_fills(transformed, taker.filled_by(q))
            &&& side_wf(transformed, side)
        }),
{
    let m = levels[0].orders[0];
    assert(levels[0].orders.len() > 0);
    assert(order_fits_level(m, levels[0].price, side));
    let q = min_qty(taker.remaining_quantity, m.remaining_quantity);
    assert(find_order(levels[0].orders, m.id) == 0);
    assert(orders_have_id(levels[0].orders, m.id));
    assert(find_level(levels, m.id) == 0);
    assert(get_in_levels(levels, m.id) == m);
    let cf = consume_front(levels);
    let transformed = if m.remaining_quantity <= q {
        spec_remove_id(levels, m.id)
    } else {
        spec_update_id(levels, m.filled_by(q))
    };
    if m.remaining_quantity <= q {
        // The maker leaves the book entirely.
        if levels[0].orders.len() == 1 {
            assert(levels.remove(0) =~= levels.drop_first());
            assert(transformed =~~= cf);
        } else {
            assert(levels[0].orders.remove(0) =~= levels[0].orders.drop_first());
            assert(transformed =~~= cf);
        }
        assert(spec_fills(levels, taker) == seq![
            FillV { maker_id: m.id, price: levels[0].price, qty: q },
        ] + spec_fills(cf, taker.filled_by(q)));
        crate::orderbook::lemma_remove_keeps_side_wf(levels, m.id, side);
    } else {
        // The taker is exhausted: both remainders of the recursion are empty.
        assert(q == taker.remaining_quantity);
        assert(taker.filled_by(q).remaining_quantity == 0);
        assert(spec_fills(cf, taker.filled_by(q)) =~= Seq::<FillV>::empty());
        assert(spec_fills(transformed, taker.filled_by(q)) =~= Seq::<FillV>::empty());
        assert(spec_fills(levels, taker) == seq![
            FillV { maker_id: m.id, price: levels[0].price, qty: q },
        ] + spec_fills(cf, taker.filled_by(q)));
        crate::orderbook::lemma_update_keeps_side_wf(levels, m.filled_by(q), side);
    }
}

/// Relies on uuid's `Uuid::new_v4`: a freshly generated random trade
/// identifier. Nothing can be promised of a random value, so the contract
/// is empty. If the operating system's random source fails, uuid aborts
/// the process — an environmental fault, like running out of memory.
#[verifier::external_body]
fn fresh_trade_id() -> u128 {
    uuid::Uuid::new_v4().as_u128()
}

/// The matching engine of one market: the book plus the sequence source
/// that numbers every emitted event.
pub struct MatchingEngine {
    orderbook: Orderbook,
    sequence_gen: SequenceGenerator,
}

impl MatchingEngine {
    /// The book as a value, for specification purposes.
    pub closed spec fn spec_orderbook(&self) -> Orderbook {
        self.orderbook
    }

    /// The model of the book.
    pub open spec fn spec_book(&self) -> BookV {
        self.spec_orderbook()@
    }

    /// The most recently issued sequence number.
    pub closed spec fn spec_sequence(&self) -> i64 {
        self.sequence_gen.spec_current()
    }

    /// Invariant: the book is well formed.
    pub open spec fn wf(&self) -> bool {
        self.spec_orderbook().wf()
    }

    /// Creates an engine with an empty book for one market, issuing
    /// sequence numbers strictly above `initial_sequence`.
    pub fn new(market_id: String, initial_sequence: i64) -> (r: Self)
        ensures
            r.wf(),
            r.spec_book().market_id == market_id@,
            r.spec_book().bids.len() == 0,
            r.spec_book().asks.len() == 0,
            r.spec_sequence() == initial_sequence,
    {
        MatchingEngine {
            orderbook: Orderbook::new(market_id),
            sequence_gen: SequenceGenerator::new(initial_sequence),
        }
    }

    /// The book itself; mutations through it leave the sequence counter
    /// alone.
    pub fn orderbook(&mut self) -> (r: &mut Orderbook)
        ensures
            *r == old(self).spec_orderbook(),
            final(self).spec_orderbook() == *final(r),
            final(self).spec_sequence() == old(self).spec_sequence(),
    {
        &mut self.orderbook
    }

    /// The sequence number of the most recently emitted event.
    pub fn current_sequence(&self) -> (r: i64)
        ensures
            r == self.spec_sequence(),
    {
        self.sequence_gen.current()
    }

    /// Executes one trade between the incoming taker and the resting front
    /// maker: fills both, removes or updates the maker in the book, and
    /// builds the trade record under a fresh sequence number.
    fn execute_trade(&mut self, taker: &mut Order, maker: Order) -> (t: Option<Trade>)
        requires
            old(self).wf(),
            old(taker)@.wf(),
            old(taker)@.remaining_quantity > 0,
            old(self).spec_sequence() < i64::MAX,
            ({
                let opp = old(self).spec_book().side(opposite(old(taker)@.side));
                opp.len() > 0 && opp[0].orders.len() > 0 && maker@ == opp[0].orders[0]
            }),
        ensures
            final(self).wf(),
            t is Some,
            ({
                let q = min_qty(old(taker)@.remaining_quantity, maker@.remaining_quantity);
                let tr = t->0@;
                &&& tr.maker_order_id == maker@.id
                &&& tr.taker_order_id == old(taker)@.id
                &&& tr.side == old(taker)@.side
                &&& tr.market_id == old(taker)@.market_id
                &&& tr.price == maker@.price->0
                &&& tr.quantity == q
                &&& tr.sequence_number == old(self).spec_sequence() + 1
                &&& final(taker)@ == old(taker)@.filled_by(q)
                &&& final(taker)@.wf()
                &&& final(self).spec_sequence() == old(self).spec_sequence() + 1
                &&& final(self).spec_book() == apply_event(
                    old(self).spec_book(),
                    EventV::TradeExecuted {
                        trade: tr,
                        sequence_number: tr.sequence_number,
                        timestamp_ns: tr.timestamp_ns,
                    },
                )
                &&& forall|x: u128|
                    !old(self).spec_book().has_id(x) ==> !final(self).spec_book().has_id(x)
            }),
    {
        let ghost book_pre = self.spec_book();
        let ghost mside = opposite(taker@.side);
        let ghost opp = book_pre.side(mside);
        proof {
            if mside == OrderSide::Buy {
                assert(side_wf(book_pre.bids, OrderSide::Buy));
            } else {
                assert(side_wf(book_pre.asks, OrderSide::Sell));
            }
            assert(side_wf(opp, mside));
            assert(order_fits_level(opp[0].orders[0], opp[0].price, mside));
            assert(maker@.price is Some);
            assert(find_order(opp[0].orders, maker@.id) == 0);
            assert(orders_have_id(opp[0].orders, maker@.id));
            assert(find_level(opp, maker@.id) == 0);
            assert(get_in_levels(opp, maker@.id) == maker@);
        }
        let trade_price = maker.price.unwrap();
        let trade_quantity = if taker.remaining_quantity <= maker.remaining_quantity {
            taker.remaining_quantity
        } else {
            maker.remaining_quantity
        };
        let ghost q = min_qty(taker@.remaining_quantity, maker@.remaining_quantity);
        taker.fill(trade_quantity, trade_price);
        let mut updated_maker = maker.clone();
        updated_maker.fill(trade_quantity, trade_price);
        proof {
            assert(updated_maker@ == maker@.filled_by(q));
        }
        if updated_maker.is_filled() {
            let _ = self.orderbook.remove_on_side(updated_maker.id, updated_maker.side);
            proof {
                assert(maker@.remaining_quantity <= q);
                assert forall|x: u128| !levels_have_id(opp, x) implies !levels_have_id(
                    spec_remove_id(opp, maker@.id),
                    x,
                ) by {
                    crate::orderbook::lemma_remove_keeps_absent(opp, maker@.id, x);
                }
            }
        } else {
            self.orderbook.update_order(&updated_maker);
            proof {
                assert(maker@.remaining_quantity > q);
                assert forall|x: u128| !levels_have_id(opp, x) implies !levels_have_id(
                    spec_update_id(opp, maker@.filled_by(q)),
                    x,
                ) by {
                    crate::orderbook::lemma_update_keeps_absent(opp, maker@.filled_by(q), x);
                }
            }
        }
        let sequence = self.sequence_gen.next();
        let ts = TimestampGenerator::now_ns();
        let tid = fresh_trade_id();
        let trade = Trade {
            id: tid,
            market_id: taker.market_id.clone(),
            taker_order_id: taker.id,
            maker_order_id: maker.id,
            side: taker.side,
            price: trade_price,
            quantity: trade_quantity,
            timestamp_ns: ts,
            sequence_number: sequence,
        };
        proof {
            let tr = trade@;
            let te = EventV::TradeExecuted {
                trade: tr,
                sequence_number: tr.sequence_number,
                timestamp_ns: tr.timestamp_ns,
            };
            assert(opposite(tr.side) == mside);
            assert(self.spec_book() =~~= apply_event(book_pre, te));
        }
        Some(trade)
    }
}


/// The residual the matching loop leaves: the taker after all fills, with
/// an immediate-or-cancel residual marked cancelled.
pub open spec fn spec_residual(taker0: OrderV, fills: Seq<FillV>) -> OrderV {
    let after = taker_after(taker0, fills);
    if taker0.order_type == OrderType::IOC && after.remaining_quantity > 0 {
        OrderV { status: OrderStatus::Cancelled, ..after }
    } else {
        after
    }
}

impl MatchingEngine {
    /// Matches an incoming order against the book under price-time priority.
    ///
    /// Returns the trades executed, the residual order when anything is left
    /// unfilled, and the ordered event stream of every mutation: one
    /// `TradeExecuted` per trade, then `OrderPlaced` for a resting limit
    /// residual or `OrderCancelled` for an immediate-or-cancel residual.
    /// Sequence numbers are assigned contiguously in emission order, and the
    /// final book is exactly the event stream applied to the initial one.
    pub fn match_order(&mut self, order: Order) -> (r: (Vec<Trade>, Option<Order>, Vec<Event>))
        requires
            old(self).wf(),
            order@.wf(),
            (order@.order_type == OrderType::Limit) == (order@.price is Some),
            !old(self).spec_book().has_id(order@.id),
            old(self).spec_sequence() + flat(
                old(self).spec_book().side(opposite(order@.side)),
            ).len() + 1 <= i64::MAX,
        ensures
            final(self).wf(),
            ({
                let book0 = old(self).spec_book();
                let o0 = order@;
                let mside = opposite(o0.side);
                let fills = spec_fills(book0.side(mside), o0);
                let after = taker_after(o0, fills);
                let n = fills.len() as int;
                let start = old(self).spec_sequence();
                let trades = r.0@;
                let events = r.2@;
                let tail_cnt: int = if after.remaining_quantity > 0 && o0.order_type
                    != OrderType::Market {
                    1
                } else {
                    0
                };
                &&& fills_of_trades(trades_view(trades)) == fills
                &&& trades.len() == n
                &&& forall|i: int|
                    0 <= i < n ==> {
                        let tv = (#[trigger] trades[i])@;
                        &&& tv.taker_order_id == o0.id
                        &&& tv.market_id == o0.market_id
                        &&& tv.side == o0.side
                        &&& tv.sequence_number == start + 1 + i
                    }
                &&& events.len() == n + tail_cnt
                &&& forall|i: int|
                    0 <= i < n ==> (#[trigger] events[i])@ == (EventV::TradeExecuted {
                        trade: trades[i]@,
                        sequence_number: trades[i]@.sequence_number,
                        timestamp_ns: trades[i]@.timestamp_ns,
                    })
                &&& (o0.order_type == OrderType::Limit && after.remaining_quantity > 0 ==> ({
                    &&& events[n]@ matches EventV::OrderPlaced { order: po, sequence_number, .. }
                        && po == after && sequence_number == start + n + 1
                }))
                &&& (o0.order_type == OrderType::IOC && after.remaining_quantity > 0 ==> ({
                    &&& events[n]@ matches EventV::OrderCancelled {
                        order_id,
                        market_id,
                        side,
                        price,
                        cancelled_quantity,
                        sequence_number,
                        ..
                    } && order_id == o0.id && market_id == o0.market_id && side == o0.side
                        && price == o0.price && cancelled_quantity == after.remaining_quantity
                        && sequence_number == start + n + 1
                }))
                &&& final(self).spec_sequence() == start + events.len()
                &&& (after.remaining_quantity == 0 ==> r.1 is None)
                &&& (after.remaining_quantity > 0 ==> ({
                    &&& r.1 matches Some(res) && res@ == spec_residual(o0, fills)
                }))
                &&& final(self).spec_book() == apply_events(book0, events_view(events))
                &&& final(self).spec_book().market_id == book0.market_id
                &&& (o0.order_type != OrderType::Limit ==> !final(self).spec_book().has_id(o0.id))
                &&& sum_fills(fills) + after.remaining_quantity == o0.remaining_quantity
                &&& after.wf()
                &&& core_eq(after, o0)
            }),
    {
        let ghost book0 = self.spec_book();
        let ghost o0 = order@;
        let ghost mside = opposite(o0.side);
        let ghost fills = spec_fills(book0.side(mside), o0);
        let ghost start = self.spec_sequence();
        proof {
            if mside == OrderSide::Buy {
                assert(side_wf(book0.side(mside), mside));
            } else {
                assert(side_wf(book0.side(mside), mside));
            }
            lemma_fills_facts(book0.side(mside), o0, mside);
            lemma_fills_len(book0.side(mside), o0, mside);
        }
        let mut taker = order;
        let mut trades: Vec<Trade> = Vec::new();
        let mut events: Vec<Event> = Vec::new();
        loop
            invariant
                self.wf(),
                taker@.wf(),
                core_eq(taker@, o0),
                o0.wf(),
                (o0.order_type == OrderType::Limit) == (o0.price is Some),
                mside == opposite(o0.side),
                fills == spec_fills(book0.side(mside), o0),
                self.spec_book() == apply_events(book0, events_view(events@)),
                self.spec_book().market_id == book0.market_id,
                fills == fills_of_trades(trades_view(trades@)) + spec_fills(
                    self.spec_book().side(mside),
                    taker@,
                ),
                taker@ == taker_after(o0, fills_of_trades(trades_view(trades@))),
                trades@.len() == events@.len(),
                trades@.len() <= fills.len(),
                self.spec_sequence() == start + events@.len(),
                start + fills.len() + 1 <= i64::MAX,
                forall|i: int|
                    0 <= i < trades@.len() ==> {
                        let tv = (#[trigger] trades@[i])@;
                        &&& tv.taker_order_id == o0.id
                        &&& tv.market_id == o0.market_id
                        &&& tv.side == o0.side
                        &&& tv.sequence_number == start + 1 + i
                    },
                forall|i: int|
                    0 <= i < trades@.len() ==> (#[trigger] events@[i])@
                        == (EventV::TradeExecuted {
                        trade: trades@[i]@,
                        sequence_number: trades@[i]@.sequence_number,
                        timestamp_ns: trades@[i]@.timestamp_ns,
                    }),
                !self.spec_book().has_id(o0.id),
            ensures
                self.wf(),
                taker@.wf(),
                core_eq(taker@, o0),
                self.spec_book() == apply_events(book0, events_view(events@)),
                self.spec_book().market_id == book0.market_id,
                fills == fills_of_trades(trades_view(trades@)),
                spec_fills(self.spec_book().side(mside), taker@) =~= Seq::<FillV>::empty(),
                taker@ == taker_after(o0, fills),
                trades@.len() == events@.len(),
                self.spec_sequence() == start + events@.len(),
                forall|i: int|
                    0 <= i < trades@.len() ==> {
                        let tv = (#[trigger] trades@[i])@;
                        &&& tv.taker_order_id == o0.id
                        &&& tv.market_id == o0.market_id
                        &&& tv.side == o0.side
                        &&& tv.sequence_number == start + 1 + i
                    },
                forall|i: int|
                    0 <= i < trades@.len() ==> (#[trigger] events@[i])@
                        == (EventV::TradeExecuted {
                        trade: trades@[i]@,
                        sequence_number: trades@[i]@.sequence_number,
                        timestamp_ns: trades@[i]@.timestamp_ns,
                    }),
                !self.spec_book().has_id(o0.id),
            decreases fills.len() - trades@.len(),
        {
            let ghost cur = self.spec_book().side(mside);
            let ghost done = fills_of_trades(trades_view(trades@));
            if taker.is_filled() {
                proof {
                    assert(spec_fills(cur, taker@) =~= Seq::<FillV>::empty());
                    assert(fills =~= done);
                }
                break ;
            }
            let maker_opt = self.orderbook.get_next_maker(taker.side);
            match maker_opt {
                None => {
                    proof {
                        assert(cur.len() == 0);
                        assert(spec_fills(cur, taker@) =~= Seq::<FillV>::empty());
                        assert(fills =~= done);
                    }
                    break ;
                },
                Some(maker) => {
                    proof {
                        if mside == OrderSide::Buy {
                            assert(side_wf(cur, mside));
                        } else {
                            assert(side_wf(cur, mside));
                        }
                        assert(cur[0].orders.len() > 0);
                        assert(maker@ == cur[0].orders[0]);
                        assert(order_fits_level(cur[0].orders[0], cur[0].price, mside));
                        assert(maker@.price == Some(cur[0].price));
                    }
                    let cross = match taker.order_type {
                        OrderType::Limit => match taker.side {
                            OrderSide::Buy => taker.price.unwrap() >= maker.price.unwrap(),
                            OrderSide::Sell => taker.price.unwrap() <= maker.price.unwrap(),
                        },
                        OrderType::Market => true,
                        OrderType::IOC => true,
                    };
                    if !cross {
                        proof {
                            assert(!crossable(taker@, cur[0].price));
                            assert(spec_fills(cur, taker@) =~= Seq::<FillV>::empty());
                            assert(fills =~= done);
                        }
                        break ;
                    }
                    let ghost mk = maker@;
                    proof {
                        assert(crossable(taker@, cur[0].price));
                        lemma_fills_step(cur, taker@, mside);
                        // One more sequence number fits: a fill is still owed.
                        assert(spec_fills(cur, taker@).len() > 0);
                        assert(fills.len() >= done.len() + 1);
                        assert(self.spec_sequence() < i64::MAX);
                    }
                    let ghost taker_pre = taker@;
                    let ghost book_pre = self.spec_book();
                    let ghost prev_events = events@;
                    let ghost prev_trades = trades@;
                    let t_opt = self.execute_trade(&mut taker, maker);
                    let t = t_opt.unwrap();
                    let seq_no = t.sequence_number;
                    let ts = t.timestamp_ns;
                    let ghost q = min_qty(taker_pre.remaining_quantity, mk.remaining_quantity);
                    let ghost head = FillV { maker_id: mk.id, price: cur[0].price, qty: q };
                    let ghost te = EventV::TradeExecuted {
                        trade: t@,
                        sequence_number: t@.sequence_number,
                        timestamp_ns: t@.timestamp_ns,
                    };
                    trades.push(t.clone());
                    events.push(Event::TradeExecuted {
                        trade: t,
                        sequence_number: seq_no,
                        timestamp_ns: ts,
                    });
                    proof {
                        // Event stream: the new event applies last.
                        assert(events@.last()@ == te);
                        assert(events_view(events@) =~= events_view(prev_events).push(te));
                        lemma_apply_events_push(book0, events_view(prev_events), te);
                        assert(self.spec_book() == apply_event(book_pre, te));
                        assert(self.spec_book() == apply_events(book0, events_view(events@)));
                        // The book's opposite side took exactly one recursion step.
                        let transformed = if mk.remaining_quantity <= q {
                            spec_remove_id(cur, mk.id)
                        } else {
                            spec_update_id(cur, mk.filled_by(q))
                        };
                        assert(t@.quantity == q && t@.maker_order_id == mk.id);
                        assert(opposite(t@.side) == mside);
                        assert(self.spec_book().side(mside) == transformed);
                        // Fills: one step of the greedy recursion was taken.
                        assert(trades_view(trades@) =~= trades_view(prev_trades).push(t@));
                        assert(fills_of_trades(trades_view(trades@)) =~= done.push(head));
                        lemma_taker_after_push(o0, done, head);
                        assert(taker@ == taker_pre.filled_by(q));
                        assert(taker@ == taker_after(o0, done.push(head)));
                        assert(spec_fills(cur, taker_pre) == seq![head] + spec_fills(
                            transformed,
                            taker_pre.filled_by(q),
                        ));
                        assert(fills =~= done.push(head) + spec_fills(
                            self.spec_book().side(mside),
                            taker@,
                        ));
                    }
                },
            }
        }
        proof {
            assert(taker@ == taker_after(o0, fills));
        }
        let ghost after = taker_after(o0, fills);
        if !taker.is_filled() {
            match taker.order_type {
                OrderType::Limit => {
                    let seq_no = self.sequence_gen.next();
                    let ts = TimestampGenerator::now_ns();
                    let ghost bk = self.spec_book();
                    let ghost prev_events = events@;
                    let ghost pe = EventV::OrderPlaced {
                        order: taker@,
                        sequence_number: seq_no,
                        timestamp_ns: ts,
                    };
                    self.orderbook.add_order(taker.clone());
                    events.push(Event::OrderPlaced {
                        order: taker.clone(),
                        sequence_number: seq_no,
                        timestamp_ns: ts,
                    });
                    proof {
                        assert(!bk.has_id(taker@.id));
                        assert(self.spec_book() == bk.add(taker@));
                        assert(apply_event(bk, pe) == bk.add(taker@));
                        assert(events@.last()@ == pe);
                        assert(events_view(events@) =~= events_view(prev_events).push(pe));
                        lemma_apply_events_push(book0, events_view(prev_events), pe);
                        assert(self.spec_book() == apply_events(book0, events_view(events@)));
                    }
                },
                OrderType::IOC => {
                    taker.status = OrderStatus::Cancelled;
                    let seq_no = self.sequence_gen.next();
                    let ts = TimestampGenerator::now_ns();
                    let ghost bk = self.spec_book();
                    let ghost prev_events = events@;
                    let ghost ce = EventV::OrderCancelled {
                        order_id: taker@.id,
                        market_id: taker@.market_id,
                        side: taker@.side,
                        price: taker@.price,
                        cancelled_quantity: taker@.remaining_quantity,
                        sequence_number: seq_no,
                        timestamp_ns: ts,
                    };
                    events.push(Event::OrderCancelled {
                        order_id: taker.id,
                        market_id: taker.market_id.clone(),
                        side: taker.side,
                        price: taker.price,
                        cancelled_quantity: taker.remaining_quantity,
                        sequence_number: seq_no,
                        timestamp_ns: ts,
                    });
                    proof {
                        assert(events@.last()@ == ce);
                        assert(events_view(events@) =~= events_view(prev_events).push(ce));
                        lemma_apply_events_push(book0, events_view(prev_events), ce);
                        // Cancelling an id that never rested leaves the book alone.
                        assert(!bk.has_id(o0.id));
                        assert(apply_event(bk, ce) =~~= bk);
                        assert(self.spec_book() == apply_events(book0, events_view(events@)));
                    }
                },
                OrderType::Market => {},
            }
        }
        let residual = if taker.is_filled() {
            None
        } else {
            proof {
                assert(taker@ =~~= spec_residual(o0, fills));
            }
            Some(taker)
        };
        (trades, residual, events)
    }

    /// Cancels a resting order: removes it from the book when it exists and
    /// belongs to the given market, and emits the cancellation event under a
    /// fresh sequence number. Returns nothing when no such order rests.
    pub fn cancel_order(&mut self, order_id: u128, market_id: &str) -> (r: Option<Event>)
        requires
            old(self).wf(),
            old(self).spec_sequence() < i64::MAX,
        ensures
            final(self).wf(),
            ({
                let book0 = old(self).spec_book();
                let found = book0.has_id(order_id) && book0.get(order_id).market_id == market_id@;
                &&& (r is Some) == found
                &&& (!found ==> final(self).spec_book() == book0 && final(self).spec_sequence()
                    == old(self).spec_sequence())
                &&& (found ==> {
                    let o = book0.get(order_id);
                    &&& final(self).spec_book() == book0.remove(order_id)
                    &&& final(self).spec_book() == apply_event(book0, r->0@)
                    &&& !final(self).spec_book().has_id(order_id)
                    &&& final(self).spec_sequence() == old(self).spec_sequence() + 1
                    &&& r->0@ matches EventV::OrderCancelled {
                        order_id: oid,
                        market_id: m,
                        side,
                        price,
                        cancelled_quantity,
                        sequence_number,
                        ..
                    } && oid == order_id && m == o.market_id && side == o.side && price == o.price
                        && cancelled_quantity == o.remaining_quantity && sequence_number == old(
                        self,
                    ).spec_sequence() + 1
                })
            }),
    {
        let existing = self.orderbook.get_order(order_id);
        match existing {
            Some(order) => {
                let wanted = market_id.to_owned();
                proof {
                    crate::orderbook::lemma_book_get_id(old(self).spec_book(), order_id);
                }
                if order.market_id == wanted {
                    let removed = self.orderbook.remove_order(order_id);
                    let seq_no = self.sequence_gen.next();
                    let ts = TimestampGenerator::now_ns();
                    let ev = Event::OrderCancelled {
                        order_id: order.id,
                        market_id: order.market_id,
                        side: order.side,
                        price: order.price,
                        cancelled_quantity: order.remaining_quantity,
                        sequence_number: seq_no,
                        timestamp_ns: ts,
                    };
                    proof {
                        assert(order@.id == order_id);
                        assert(self.spec_book() == old(self).spec_book().remove(order_id));
                        assert(apply_event(old(self).spec_book(), ev@) == old(
                            self,
                        ).spec_book().remove(order_id));
                    }
                    Some(ev)
                } else {
                    None
                }
            },
            None => None,
        }
    }
}


/// Consuming the front maker drops exactly the first order of the flat
/// priority queue.
proof fn lemma_flat_consume_front_eq(levels: Seq<LevelV>)
    requires
        levels.len() > 0,
        levels[0].orders.len() > 0,
    ensures
        flat(consume_front(levels)) == flat(levels).drop_first(),
{
    assert(flat(levels) == levels[0].orders + flat(levels.drop_first()));
    if levels[0].orders.len() == 1 {
        assert(consume_front(levels) == levels.drop_first());
        assert(flat(consume_front(levels)) =~= flat(levels).drop_first());
    } else {
        let cf = consume_front(levels);
        assert(cf[0].orders == levels[0].orders.drop_first());
        assert(cf.drop_first() =~= levels.drop_first());
        assert(flat(cf) == cf[0].orders + flat(cf.drop_first()));
        assert(flat(cf) =~= flat(levels).drop_first());
    }
}

/// Conservation of quantity: over any placement, the filled total plus what
/// remains on the taker equals what the taker brought.
pub proof fn lemma_conservation(levels: Seq<LevelV>, taker: OrderV, side: OrderSide)
    requires
        side_wf(levels, side),
        taker.wf(),
    ensures
        sum_fills(spec_fills(levels, taker)) + taker_after(
            taker,
            spec_fills(levels, taker),
        ).remaining_quantity == taker.remaining_quantity,
        taker_after(taker, spec_fills(levels, taker)).wf(),
{
    lemma_fills_facts(levels, taker, side);
}

/// Price improvement for the taker: every fill is at a price the taker's
/// limit allowed, each fill carries the front maker's limit price, and the
/// fill prices never improve as the walk goes deeper into the book.
pub proof fn lemma_price_improvement(levels: Seq<LevelV>, taker: OrderV, side: OrderSide)
    requires
        side_wf(levels, side),
        taker.wf(),
    ensures
        ({
            let fills = spec_fills(levels, taker);
            &&& forall|j: int|
                0 <= j < fills.len() ==> crossable(taker, (#[trigger] fills[j]).price)
            &&& fills.len() > 0 ==> fills[0].price == levels[0].price
            &&& forall|i: int, j: int|
                0 <= i <= j < fills.len() ==> !spec_better_px(
                    side,
                    (#[trigger] fills[j]).price,
                    (#[trigger] fills[i]).price,
                )
        }),
    decreases levels.len(), first_orders_len(levels),
{
    lemma_fills_facts(levels, taker, side);
    if levels.len() == 0 || taker.remaining_quantity == 0 || !crossable(taker, levels[0].price)
        || levels[0].orders.len() == 0 {
    } else {
        let m = levels[0].orders[0];
        let q = min_qty(taker.remaining_quantity, m.remaining_quantity);
        let rest = consume_front(levels);
        let taker2 = taker.filled_by(q);
        lemma_consume_front_wf(levels, side);
        assert(crate::orderbook::order_fits_level(m, levels[0].price, side));
        lemma_price_improvement(rest, taker2, side);
        let fills = spec_fills(levels, taker);
        let tail = spec_fills(rest, taker2);
        assert(fills[0].price == levels[0].price);
        assert(fills.drop_first() =~= tail);
        // The next level the tail can touch is no better than the front one.
        assert forall|i: int, j: int| 0 <= i <= j < fills.len() implies !spec_better_px(
            side,
            (#[trigger] fills[j]).price,
            (#[trigger] fills[i]).price,
        ) by {
            if i == 0 && j > 0 {
                assert(fills[j] == tail[j - 1]);
                if rest.len() > 0 && tail.len() > 0 {
                    assert(tail[0].price == rest[0].price);
                    assert(!spec_better_px(side, tail[j - 1].price, tail[0].price));
                    if levels[0].orders.len() == 1 {
                        assert(rest[0] == levels[1]);
                        assert(spec_better_px(side, levels[0].price, levels[1].price));
                    } else {
                        assert(rest[0].price == levels[0].price);
                    }
                }
            } else if i > 0 {
                assert(fills[i] == tail[i - 1] && fills[j] == tail[j - 1]);
            }
        }
    }
}

/// Price-time priority: matching walks the flat priority queue of the
/// opposite side strictly in order, filling each resting order fully
/// before touching the next; only the last fill may be partial. Between
/// levels the queue is price order; within a level it is arrival order,
/// which refines the caller-supplied timestamps whenever those do not
/// decrease with arrival (`lemma_time_priority_within_level`), with
/// arrival itself the deterministic tie-break on equal timestamps.
pub proof fn lemma_price_time_priority(levels: Seq<LevelV>, taker: OrderV, side: OrderSide)
    requires
        side_wf(levels, side),
        taker.wf(),
    ensures
        ({
            let fills = spec_fills(levels, taker);
            let queue = flat(levels);
            &&& fills.len() <= queue.len()
            &&& forall|j: int|
                0 <= j < fills.len() ==> (#[trigger] fills[j]).maker_id == queue[j].id
                    && fills[j].price == queue[j].price->0 && fills[j].qty
                    <= queue[j].remaining_quantity
            &&& forall|j: int|
                0 <= j < fills.len() - 1 ==> (#[trigger] fills[j]).qty
                    == queue[j].remaining_quantity
        }),
    decreases levels.len(), first_orders_len(levels),
{
    lemma_fills_len(levels, taker, side);
    if levels.len() == 0 || taker.remaining_quantity == 0 || !crossable(taker, levels[0].price)
        || levels[0].orders.len() == 0 {
    } else {
        let m = levels[0].orders[0];
        let q = min_qty(taker.remaining_quantity, m.remaining_quantity);
        let rest = consume_front(levels);
        let taker2 = taker.filled_by(q);
        lemma_consume_front_wf(levels, side);
        assert(crate::orderbook::order_fits_level(m, levels[0].price, side));
        lemma_price_time_priority(rest, taker2, side);
        lemma_flat_consume_front_eq(levels);
        let fills = spec_fills(levels, taker);
        let tail = spec_fills(rest, taker2);
        let queue = flat(levels);
        assert(queue[0] == m) by {
            assert(flat(levels) == levels[0].orders + flat(levels.drop_first()));
        }
        assert(fills.drop_first() =~= tail);
        assert forall|j: int| 0 <= j < fills.len() implies (#[trigger] fills[j]).maker_id
            == queue[j].id && fills[j].price == queue[j].price->0 && fills[j].qty
            <= queue[j].remaining_quantity by {
            if j == 0 {
                assert(m.price == Some(levels[0].price));
            } else {
                assert(fills[j] == tail[j - 1]);
                assert(queue[j] == flat(rest)[j - 1]);
            }
        }
        assert forall|j: int| 0 <= j < fills.len() - 1 implies (#[trigger] fills[j]).qty
            == queue[j].remaining_quantity by {
            if j == 0 {
                // A later fill exists, so the taker was not exhausted here.
                assert(tail.len() > 0);
                assert(taker2.remaining_quantity > 0);
                assert(q == m.remaining_quantity);
            } else {
                assert(fills[j] == tail[j - 1]);
                assert(queue[j] == flat(rest)[j - 1]);
            }
        }
    }
}


/// Applies one logged event to a book, exactly as the engine mutated it
/// when the event was emitted: replay.
pub fn apply_logged_event(book: &mut Orderbook, event: &Event)
    requires
        old(book).wf(),
    ensures
        final(book).wf(),
        final(book)@ == apply_event(old(book)@, event@),
{
    match event {
        Event::OrderPlaced { order, .. } => {
            let fits = match order.order_type {
                OrderType::Limit => order.price.is_some() && order.remaining_quantity > 0
                    && order.remaining_quantity <= order.quantity && order.filled_quantity
                    == order.quantity - order.remaining_quantity && book.get_order(
                    order.id,
                ).is_none(),
                _ => false,
            };
            if fits {
                book.add_order(order.clone());
            }
            proof {
                assert(final(book)@ == apply_event(old(book)@, event@));
            }
        },
        Event::OrderCancelled { order_id, .. } => {
            let _ = book.remove_order(*order_id);
        },
        Event::TradeExecuted { trade, .. } => {
            let mside = match trade.side {
                OrderSide::Buy => OrderSide::Sell,
                OrderSide::Sell => OrderSide::Buy,
            };
            proof {
                assert(mside == opposite(trade@.side));
            }
            let found = book.get_on_side(trade.maker_order_id, mside);
            match found {
                Some(maker) => {
                    proof {
                        crate::orderbook::lemma_get_in_levels_id(
                            old(book)@.side(mside),
                            trade@.maker_order_id,
                        );
                    }
                    proof {
                        crate::orderbook::lemma_get_fits(
                            old(book)@.side(mside),
                            trade@.maker_order_id,
                            mside,
                        );
                    }
                    if maker.remaining_quantity <= trade.quantity {
                        let _ = book.remove_on_side(trade.maker_order_id, mside);
                        proof {
                            assert(final(book)@ =~~= apply_event(old(book)@, event@));
                        }
                    } else {
                        let mut m2 = maker;
                        m2.fill(trade.quantity, trade.price);
                        book.update_order(&m2);
                        proof {
                            assert(final(book)@ =~~= apply_event(old(book)@, event@));
                        }
                    }
                },
                None => {
                },
            }
        },
    }
}


/// The events a list of log entries carries.
pub open spec fn entries_events(es: Seq<crate::wal::WalEntryV>) -> Seq<EventV> {
    es.map_values(|e: crate::wal::WalEntryV| e.event)
}

/// The model of an empty book for one market.
pub open spec fn empty_book(market_id: Seq<char>) -> BookV {
    BookV { market_id, bids: Seq::empty(), asks: Seq::empty() }
}

/// Rebuilds a book by replaying logged events in order: the result is
/// exactly the fold of the events over the empty book.
pub fn replay_events(market_id: String, entries: &Vec<crate::wal::WALEntry>) -> (r: Orderbook)
    ensures
        r.wf(),
        r@ == apply_events(
            empty_book(market_id@),
            entries_events(crate::wal::entries_view(entries@)),
        ),
{
    let mut book = Orderbook::new(market_id);
    let ghost evs = entries_events(crate::wal::entries_view(entries@));
    proof {
        assert(book@ =~~= empty_book(book@.market_id));
        assert(apply_events(book@, evs.take(0)) == book@) by {
            assert(evs.take(0) =~= Seq::<EventV>::empty());
        }
    }
    let ghost b0 = book@;
    let n = entries.len();
    let mut i: usize = 0;
    while i < n
        invariant
            book.wf(),
            n == entries@.len(),
            0 <= i <= n,
            evs == entries_events(crate::wal::entries_view(entries@)),
            evs.len() == n,
            b0 == empty_book(b0.market_id),
            book@ == apply_events(b0, evs.take(i as int)),
        decreases n - i,
    {
        apply_logged_event(&mut book, &entries[i].event);
        proof {
            assert(evs[i as int] == entries@[i as int]@.event);
            assert(evs.take(i + 1) =~= evs.take(i as int).push(evs[i as int]));
            lemma_apply_events_push(b0, evs.take(i as int), evs[i as int]);
        }
        i = i + 1;
    }
    proof {
        assert(evs.take(n as int) =~= evs);
    }
    book
}

impl MatchingEngine {
    /// Read access to the book.
    pub fn book_ref(&self) -> (r: &Orderbook)
        ensures
            *r == self.spec_orderbook(),
    {
        &self.orderbook
    }
}


/// Replaying a concatenation replays the parts in order.
pub proof fn lemma_apply_events_concat(b: BookV, es1: Seq<EventV>, es2: Seq<EventV>)
    ensures
        apply_events(b, es1 + es2) == apply_events(apply_events(b, es1), es2),
    decreases es2.len(),
{
    if es2.len() == 0 {
        assert(es1 + es2 =~= es1);
        assert(apply_events(apply_events(b, es1), es2) == apply_events(b, es1));
    } else {
        lemma_apply_events_concat(b, es1, es2.drop_last());
        assert(es1 + es2 =~= (es1 + es2.drop_last()).push(es2.last()));
        lemma_apply_events_push(b, es1 + es2.drop_last(), es2.last());
        lemma_apply_events_push(apply_events(b, es1), es2.drop_last(), es2.last());
        assert(es2.drop_last().push(es2.last()) =~= es2);
    }
}

/// One more level appends its queue to the flat priority queue.
pub proof fn lemma_flat_push(levels: Seq<LevelV>, l: LevelV)
    ensures
        flat(levels.push(l)) == flat(levels) + l.orders,
    decreases levels.len(),
{
    let s = levels.push(l);
    if levels.len() == 0 {
        assert(s.drop_first() =~= Seq::<LevelV>::empty());
        assert(s[0] == l);
        assert(flat(s) == l.orders + flat(s.drop_first()));
        assert(flat(s) =~= flat(levels) + l.orders);
    } else {
        assert(s[0] == levels[0]);
        assert(s.drop_first() =~= levels.drop_first().push(l));
        lemma_flat_push(levels.drop_first(), l);
        assert(flat(s) == levels[0].orders + flat(s.drop_first()));
        assert(flat(levels) == levels[0].orders + flat(levels.drop_first()));
        assert(flat(s) =~= flat(levels) + l.orders);
    }
}

} // verus!
