//! The limit order book: per-side price levels in strict priority order,
//! each level a FIFO queue of resting orders with a running aggregate that
//! provably equals the sum of its members.

use vstd::prelude::*;

use crate::types::{Order, OrderSide, OrderType, OrderV};

verus! {

/// Mathematical model of one price level: the price and the resting orders
/// in priority order. Position within a level is arrival order — a new
/// order always joins at the tail — so ties on price, and on the
/// caller-supplied timestamp too, are broken deterministically by arrival.
#[verifier::ext_equal]
pub ghost struct LevelV {
    pub price: u64,
    pub orders: Seq<OrderV>,
}

/// One price level of one side of the book: an insertion-ordered queue of
/// resting orders and the running sum of their remaining quantities.
pub struct PriceLevel {
    pub price: u64,
    pub orders: Vec<Order>,
    pub total_quantity: u128,
}

impl View for PriceLevel {
    type V = LevelV;

    open spec fn view(&self) -> LevelV {
        LevelV { price: self.price, orders: self.orders@.map_values(|o: Order| o@) }
    }
}

/// The sum of the remaining quantities of a sequence of orders.
pub open spec fn sum_remaining(orders: Seq<OrderV>) -> int
    decreases orders.len(),
{
    if orders.len() == 0 {
        0
    } else {
        orders[0].remaining_quantity + sum_remaining(orders.drop_first())
    }
}

/// On the bid side a higher price has priority; on the ask side a lower one.
/// `side` is the side the levels belong to.
pub open spec fn spec_better_px(side: OrderSide, a: u64, b: u64) -> bool {
    match side {
        OrderSide::Buy => a > b,
        OrderSide::Sell => a < b,
    }
}

/// An order may rest at a level of a given side exactly when it is a limit
/// order of that side and price with something left to fill.
pub open spec fn order_fits_level(o: OrderV, price: u64, side: OrderSide) -> bool {
    &&& o.side == side
    &&& o.order_type == OrderType::Limit
    &&& o.price == Some(price)
    &&& o.remaining_quantity > 0
    &&& o.wf()
}

/// Well-formedness of one side of the book: levels are strictly ordered by
/// price priority, no level is empty, and every resting order belongs to its
/// level.
pub open spec fn side_wf(levels: Seq<LevelV>, side: OrderSide) -> bool {
    &&& forall|i: int, j: int|
        0 <= i < j < levels.len() ==> spec_better_px(
            side,
            #[trigger] levels[i].price,
            #[trigger] levels[j].price,
        )
    &&& forall|i: int| 0 <= i < levels.len() ==> (#[trigger] levels[i]).orders.len() > 0
    &&& forall|i: int, k: int|
        0 <= i < levels.len() && 0 <= k < levels[i].orders.len() ==> order_fits_level(
            #[trigger] levels[i].orders[k],
            levels[i].price,
            side,
        )
}

/// The stored per-level running sums agree with the model.
pub open spec fn totals_ok(levels: Seq<PriceLevel>) -> bool {
    forall|i: int|
        0 <= i < levels.len() ==> (#[trigger] levels[i]).total_quantity == sum_remaining(
            levels[i]@.orders,
        )
}

/// The models of a sequence of stored levels.
pub open spec fn lv_views(levels: Seq<PriceLevel>) -> Seq<LevelV> {
    levels.map_values(|l: PriceLevel| l@)
}

/// Index at which a level of price `p` stands or would be inserted.
pub open spec fn insert_pos(levels: Seq<LevelV>, p: u64, side: OrderSide) -> int
    decreases levels.len(),
{
    if levels.len() == 0 {
        0
    } else if spec_better_px(side, levels[0].price, p) {
        1 + insert_pos(levels.drop_first(), p, side)
    } else {
        0
    }
}

/// One side of the book after a resting order is added: at the tail of its
/// price level, or in a fresh level at the price's priority position.
pub open spec fn spec_add_levels(levels: Seq<LevelV>, o: OrderV, side: OrderSide) -> Seq<LevelV> {
    let p = o.price->0;
    let i = insert_pos(levels, p, side);
    if i < levels.len() && levels[i].price == p {
        levels.update(i, LevelV { price: p, orders: levels[i].orders.push(o) })
    } else {
        levels.insert(i, LevelV { price: p, orders: seq![o] })
    }
}

/// First index in `orders` holding the given id, or the length if none does.
pub open spec fn find_order(orders: Seq<OrderV>, id: u128) -> int
    decreases orders.len(),
{
    if orders.len() == 0 {
        0
    } else if orders[0].id == id {
        0
    } else {
        1 + find_order(orders.drop_first(), id)
    }
}

/// Whether some order in `orders` has the given id.
pub open spec fn orders_have_id(orders: Seq<OrderV>, id: u128) -> bool {
    find_order(orders, id) < orders.len()
}

/// First index of the level holding an order of the given id, or the length.
pub open spec fn find_level(levels: Seq<LevelV>, id: u128) -> int
    decreases levels.len(),
{
    if levels.len() == 0 {
        0
    } else if orders_have_id(levels[0].orders, id) {
        0
    } else {
        1 + find_level(levels.drop_first(), id)
    }
}

/// Whether some order on this side has the given id.
pub open spec fn levels_have_id(levels: Seq<LevelV>, id: u128) -> bool {
    find_level(levels, id) < levels.len()
}

/// The resting order with the given id (meaningful only when present).
pub open spec fn get_in_levels(levels: Seq<LevelV>, id: u128) -> OrderV {
    let li = find_level(levels, id);
    levels[li].orders[find_order(levels[li].orders, id)]
}

/// One side of the book after the order with the given id leaves it; its
/// level goes with it when it was the only order there.
pub open spec fn spec_remove_id(levels: Seq<LevelV>, id: u128) -> Seq<LevelV> {
    if !levels_have_id(levels, id) {
        levels
    } else {
        let li = find_level(levels, id);
        let l = levels[li];
        let oi = find_order(l.orders, id);
        if l.orders.len() == 1 {
            levels.remove(li)
        } else {
            levels.update(li, LevelV { price: l.price, orders: l.orders.remove(oi) })
        }
    }
}

/// One side of the book after the order with the given id is replaced in
/// place (no repositioning within the level).
pub open spec fn spec_update_id(levels: Seq<LevelV>, o: OrderV) -> Seq<LevelV> {
    if !levels_have_id(levels, o.id) {
        levels
    } else {
        let li = find_level(levels, o.id);
        let l = levels[li];
        let oi = find_order(l.orders, o.id);
        levels.update(li, LevelV { price: l.price, orders: l.orders.update(oi, o) })
    }
}

/// No two resting orders of one side share an id.
pub open spec fn side_unique(levels: Seq<LevelV>) -> bool {
    forall|li: int, k: int, lj: int, m: int|
        0 <= li < levels.len() && 0 <= k < levels[li].orders.len() && 0 <= lj < levels.len() && 0
            <= m < levels[lj].orders.len() && (li != lj || k != m) ==> (
        #[trigger] levels[li].orders[k]).id != (#[trigger] levels[lj].orders[m]).id
}

/// All resting orders of one side in priority order.
pub open spec fn flat(levels: Seq<LevelV>) -> Seq<OrderV>
    decreases levels.len(),
{
    if levels.len() == 0 {
        Seq::empty()
    } else {
        levels[0].orders + flat(levels.drop_first())
    }
}

/// Mathematical model of the whole book.
#[verifier::ext_equal]
pub ghost struct BookV {
    pub market_id: Seq<char>,
    pub bids: Seq<LevelV>,
    pub asks: Seq<LevelV>,
}

impl BookV {
    /// The side a resting order of the given side lives on.
    pub open spec fn side(self, side: OrderSide) -> Seq<LevelV> {
        match side {
            OrderSide::Buy => self.bids,
            OrderSide::Sell => self.asks,
        }
    }

    /// Whether an order with the given id rests anywhere in the book.
    pub open spec fn has_id(self, id: u128) -> bool {
        levels_have_id(self.bids, id) || levels_have_id(self.asks, id)
    }

    /// The resting order with the given id (meaningful only when present);
    /// the bid side is searched first.
    pub open spec fn get(self, id: u128) -> OrderV {
        if levels_have_id(self.bids, id) {
            get_in_levels(self.bids, id)
        } else {
            get_in_levels(self.asks, id)
        }
    }

    /// The book after a resting order is added to its side.
    pub open spec fn add(self, o: OrderV) -> BookV {
        match o.side {
            OrderSide::Buy => BookV { bids: spec_add_levels(self.bids, o, OrderSide::Buy), ..self },
            OrderSide::Sell => BookV {
                asks: spec_add_levels(self.asks, o, OrderSide::Sell),
                ..self
            },
        }
    }

    /// The book after the order with the given id leaves it; the bid side is
    /// searched first.
    pub open spec fn remove(self, id: u128) -> BookV {
        if levels_have_id(self.bids, id) {
            BookV { bids: spec_remove_id(self.bids, id), ..self }
        } else {
            BookV { asks: spec_remove_id(self.asks, id), ..self }
        }
    }

    /// The book after the order with the given id is replaced on the side the
    /// replacement names.
    pub open spec fn update(self, o: OrderV) -> BookV {
        match o.side {
            OrderSide::Buy => BookV { bids: spec_update_id(self.bids, o), ..self },
            OrderSide::Sell => BookV { asks: spec_update_id(self.asks, o), ..self },
        }
    }

    /// Order ids are unique across the whole book: no two resting orders
    /// share one, within a side or across the two.
    pub open spec fn ids_unique(self) -> bool {
        &&& side_unique(self.bids)
        &&& side_unique(self.asks)
        &&& forall|x: u128|
            !(#[trigger] levels_have_id(self.bids, x) && levels_have_id(self.asks, x))
    }

    /// Well-formedness of the whole model: both sides in priority order with
    /// exact levels, and every resting order under its own id.
    pub open spec fn wf(self) -> bool {
        &&& side_wf(self.bids, OrderSide::Buy)
        &&& side_wf(self.asks, OrderSide::Sell)
        &&& self.ids_unique()
    }
}

/// Price-time priority order book for one market: bid levels ordered by
/// descending price, ask levels by ascending price, each level a FIFO queue.
pub struct Orderbook {
    market_id: String,
    bids: Vec<PriceLevel>,
    asks: Vec<PriceLevel>,
}

impl View for Orderbook {
    type V = BookV;

    closed spec fn view(&self) -> BookV {
        BookV {
            market_id: self.market_id@,
            bids: lv_views(self.bids@),
            asks: lv_views(self.asks@),
        }
    }
}

impl Orderbook {
    /// The stored per-level aggregates agree with the model's sums.
    pub closed spec fn totals_good(&self) -> bool {
        &&& totals_ok(self.bids@)
        &&& totals_ok(self.asks@)
    }

    /// Invariant of the data structure: the model is well-formed and the
    /// stored aggregates equal the sums over their levels.
    pub open spec fn wf(&self) -> bool {
        &&& self@.wf()
        &&& self.totals_good()
    }

    /// Creates an empty book for one market.
    pub fn new(market_id: String) -> (r: Self)
        ensures
            r@.market_id == market_id@,
            r@.bids.len() == 0,
            r@.asks.len() == 0,
            r.wf(),
    {
        let r = Orderbook { market_id, bids: Vec::new(), asks: Vec::new() };
        proof {
            assert(lv_views(r.bids@) =~= Seq::<LevelV>::empty());
            assert(lv_views(r.asks@) =~= Seq::<LevelV>::empty());
        }
        r
    }

    /// The market this book belongs to.
    pub fn market_id(&self) -> (r: &str)
        ensures
            r@ == self@.market_id,
    {
        self.market_id.as_str()
    }

    /// Adds a resting limit order at the tail of its price level, behind
    /// every earlier arrival at that price; when callers supply timestamps
    /// that do not decrease with arrival, as the engine's clock does,
    /// within-level position therefore refines the timestamps (see
    /// [`lemma_time_priority_within_level`]). The id must be fresh: order
    /// ids are unique across the book.
    pub fn add_order(&mut self, order: Order)
        requires
            old(self).wf(),
            order@.price is Some,
            order@.order_type == OrderType::Limit,
            order@.remaining_quantity > 0,
            order@.wf(),
            !old(self)@.has_id(order@.id),
        ensures
            final(self)@ == old(self)@.add(order@),
            final(self).wf(),
    {
        let ghost pre = self@;
        match order.side {
            OrderSide::Buy => {
                add_to_levels(&mut self.bids, order, OrderSide::Buy);
                proof {
                    lemma_add_unique(pre.bids, order@, OrderSide::Buy);
                    assert forall|x: u128|
                        !(#[trigger] levels_have_id(self@.bids, x) && levels_have_id(
                            self@.asks,
                            x,
                        )) by {
                        if levels_have_id(self@.bids, x) && levels_have_id(self@.asks, x) {
                            assert(levels_have_id(pre.bids, x) || x == order@.id);
                        }
                    }
                }
            },
            OrderSide::Sell => {
                add_to_levels(&mut self.asks, order, OrderSide::Sell);
                proof {
                    lemma_add_unique(pre.asks, order@, OrderSide::Sell);
                    assert forall|x: u128|
                        !(#[trigger] levels_have_id(self@.bids, x) && levels_have_id(
                            self@.asks,
                            x,
                        )) by {
                        if levels_have_id(self@.bids, x) && levels_have_id(self@.asks, x) {
                            assert(levels_have_id(pre.asks, x) || x == order@.id);
                        }
                    }
                }
            },
        }
    }

    /// Removes the resting order with the given id, wherever it rests, and
    /// returns it; its level goes with it when it empties. Ids being
    /// unique, no order under this id remains anywhere afterwards.
    pub fn remove_order(&mut self, order_id: u128) -> (r: Option<Order>)
        requires
            old(self).wf(),
        ensures
            final(self)@ == old(self)@.remove(order_id),
            final(self).wf(),
            (r is Some) == old(self)@.has_id(order_id),
            r matches Some(o) ==> o@ == old(self)@.get(order_id),
            !final(self)@.has_id(order_id),
    {
        let ghost pre = self@;
        let r = remove_from_levels(&mut self.bids, order_id, OrderSide::Buy);
        match r {
            Some(o) => {
                proof {
                    assert(self@ =~~= old(self)@.remove(order_id));
                    lemma_remove_unique(pre.bids, order_id);
                    lemma_side_ids_shrink(pre.bids, order_id);
                }
                Some(o)
            },
            None => {
                let r2 = remove_from_levels(&mut self.asks, order_id, OrderSide::Sell);
                proof {
                    assert(self@ =~~= old(self)@.remove(order_id));
                    lemma_remove_unique(pre.asks, order_id);
                    lemma_side_ids_shrink(pre.asks, order_id);
                }
                r2
            },
        }
    }

    /// Removes the resting order with the given id from one known side.
    pub(crate) fn remove_on_side(&mut self, order_id: u128, side: OrderSide) -> (r: Option<Order>)
        requires
            old(self).wf(),
        ensures
            final(self).wf(),
            final(self)@.market_id == old(self)@.market_id,
            side == OrderSide::Buy ==> final(self)@ == (BookV {
                bids: spec_remove_id(old(self)@.bids, order_id),
                ..old(self)@
            }),
            side == OrderSide::Sell ==> final(self)@ == (BookV {
                asks: spec_remove_id(old(self)@.asks, order_id),
                ..old(self)@
            }),
            (r is Some) == levels_have_id(old(self)@.side(side), order_id),
            r matches Some(o) ==> o@ == get_in_levels(old(self)@.side(side), order_id),
            !levels_have_id(final(self)@.side(side), order_id),
    {
        let ghost pre = self@;
        let r = match side {
            OrderSide::Buy => remove_from_levels(&mut self.bids, order_id, OrderSide::Buy),
            OrderSide::Sell => remove_from_levels(&mut self.asks, order_id, OrderSide::Sell),
        };
        proof {
            if side == OrderSide::Buy {
                assert(self@ =~~= (BookV { bids: spec_remove_id(old(self)@.bids, order_id), ..old(
                    self,
                )@ }));
                lemma_remove_unique(pre.bids, order_id);
                lemma_side_ids_shrink(pre.bids, order_id);
            } else {
                assert(self@ =~~= (BookV { asks: spec_remove_id(old(self)@.asks, order_id), ..old(
                    self,
                )@ }));
                lemma_remove_unique(pre.asks, order_id);
                lemma_side_ids_shrink(pre.asks, order_id);
            }
        }
        r
    }

    /// Replaces a resting order in place after a partial fill; the aggregate
    /// of its level follows. A missing id leaves the book unchanged.
    pub fn update_order(&mut self, order: &Order)
        requires
            old(self).wf(),
            order@.order_type == OrderType::Limit,
            order@.remaining_quantity > 0,
            order@.wf(),
            levels_have_id(old(self)@.side(order@.side), order@.id) ==> order@.price
                == get_in_levels(old(self)@.side(order@.side), order@.id).price,
        ensures
            final(self)@ == old(self)@.update(order@),
            final(self).wf(),
    {
        let ghost pre = self@;
        match order.side {
            OrderSide::Buy => {
                update_in_levels(&mut self.bids, order, OrderSide::Buy);
                proof {
                    lemma_update_unique(pre.bids, order@);
                    lemma_update_ids_keep(pre.bids, order@);
                }
            },
            OrderSide::Sell => {
                update_in_levels(&mut self.asks, order, OrderSide::Sell);
                proof {
                    lemma_update_unique(pre.asks, order@);
                    lemma_update_ids_keep(pre.asks, order@);
                }
            },
        }
        proof {
            assert(self@ =~~= old(self)@.update(order@));
        }
    }

    /// The number of orders resting on one side, over all its levels.
    pub fn resting_count(&self, side: OrderSide) -> (r: u128)
        ensures
            r as int == flat(self@.side(side)).len(),
    {
        let levels = match side {
            OrderSide::Buy => &self.bids,
            OrderSide::Sell => &self.asks,
        };
        let ghost lv = lv_views(levels@);
        let n = levels.len();
        let mut acc: u128 = 0;
        let mut i: usize = 0;
        proof {
            assert(lv.take(0) =~= Seq::<LevelV>::empty());
        }
        while i < n
            invariant
                lv == lv_views(levels@),
                n == levels@.len(),
                0 <= i <= n,
                acc as int == flat(lv.take(i as int)).len(),
                acc as int <= (i as int) * 0xffff_ffff_ffff_ffffu64,
            decreases n - i,
        {
            let c = levels[i].orders.len();
            proof {
                crate::matching::lemma_flat_push(lv.take(i as int), lv[i as int]);
                assert(lv.take(i + 1) =~= lv.take(i as int).push(lv[i as int]));
                assert(lv[i as int].orders.len() == c) by {
                    assert(lv[i as int] == levels@[i as int]@);
                }
                assert(c <= 0xffff_ffff_ffff_ffffu64);
                assert((i as int) * 0xffff_ffff_ffff_ffffu64 + 0xffff_ffff_ffff_ffffu64 == (
                i as int + 1) * 0xffff_ffff_ffff_ffffu64) by (nonlinear_arith);
                assert((i as int + 1) * 0xffff_ffff_ffff_ffffu64 <= (
                0xffff_ffff_ffff_ffffu64 as int) * (0xffff_ffff_ffff_ffffu64 as int))
                    by (nonlinear_arith)
                    requires
                        0 <= i as int + 1 <= 0xffff_ffff_ffff_ffffu64 as int,
                ;
            }
            acc = acc + (c as u128);
            i = i + 1;
        }
        proof {
            assert(lv.take(n as int) =~= lv);
        }
        acc
    }

    /// Looks up a clone of the resting order with the given id on one side.
    pub fn get_on_side(&self, order_id: u128, side: OrderSide) -> (r: Option<Order>)
        ensures
            match r {
                Some(o) => levels_have_id(self@.side(side), order_id) && o@ == get_in_levels(
                    self@.side(side),
                    order_id,
                ),
                None => !levels_have_id(self@.side(side), order_id),
            },
    {
        match side {
            OrderSide::Buy => get_from_levels(&self.bids, order_id),
            OrderSide::Sell => get_from_levels(&self.asks, order_id),
        }
    }

    /// Looks up a clone of the resting order with the given id.
    pub fn get_order(&self, order_id: u128) -> (r: Option<Order>)
        ensures
            (r is Some) == self@.has_id(order_id),
            r matches Some(o) ==> o@ == self@.get(order_id),
    {
        match get_from_levels(&self.bids, order_id) {
            Some(o) => Some(o),
            None => get_from_levels(&self.asks, order_id),
        }
    }

    /// The price of the highest bid level, absent when no bid rests.
    pub fn best_bid(&self) -> (r: Option<u64>)
        ensures
            match r {
                Some(p) => self@.bids.len() > 0 && p == self@.bids[0].price,
                None => self@.bids.len() == 0,
            },
    {
        if self.bids.len() > 0 {
            proof {
                assert(self@.bids[0] == self.bids@[0]@);
            }
            Some(self.bids[0].price)
        } else {
            None
        }
    }

    /// The price of the lowest ask level, absent when no ask rests.
    pub fn best_ask(&self) -> (r: Option<u64>)
        ensures
            match r {
                Some(p) => self@.asks.len() > 0 && p == self@.asks[0].price,
                None => self@.asks.len() == 0,
            },
    {
        if self.asks.len() > 0 {
            proof {
                assert(self@.asks[0] == self.asks@[0]@);
            }
            Some(self.asks[0].price)
        } else {
            None
        }
    }

    /// A clone of the first resting order on the side opposite the incoming
    /// taker: the maker the taker would meet first.
    pub fn get_next_maker(&self, side: OrderSide) -> (r: Option<Order>)
        requires
            self.wf(),
        ensures
            ({
                let opp = self@.side(opposite(side));
                match r {
                    Some(o) => opp.len() > 0 && o@ == opp[0].orders[0],
                    None => opp.len() == 0,
                }
            }),
    {
        let levels = match side {
            OrderSide::Buy => &self.asks,
            OrderSide::Sell => &self.bids,
        };
        if levels.len() > 0 {
            proof {
                assert(lv_views(levels@)[0] == levels@[0]@);
                assert(lv_views(levels@)[0].orders.len() > 0);
                assert(levels@[0]@.orders[0] == levels@[0].orders@[0]@);
            }
            Some(levels[0].orders[0].clone())
        } else {
            None
        }
    }

    /// The top `depth` levels of each side: price, aggregate quantity and
    /// order count, in priority order.
    pub fn snapshot(&self, depth: usize) -> (r: OrderbookSnapshot)
        requires
            self.wf(),
        ensures
            r@.market_id == self@.market_id,
            summary_matches(r@.bids, self@.bids, depth),
            summary_matches(r@.asks, self@.asks, depth),
    {
        OrderbookSnapshot {
            market_id: self.market_id.clone(),
            bids: summarize(&self.bids, depth),
            asks: summarize(&self.asks, depth),
        }
    }
}

/// The side opposite a given side.
pub open spec fn opposite(side: OrderSide) -> OrderSide {
    match side {
        OrderSide::Buy => OrderSide::Sell,
        OrderSide::Sell => OrderSide::Buy,
    }
}

/// One row of a book snapshot: a price level seen from outside.
#[derive(Clone, Copy, PartialEq, Eq, Structural, Debug)]
pub struct OrderLevel {
    pub price: u64,
    pub total_quantity: u128,
    pub order_count: usize,
}

/// Mathematical model of an [`OrderbookSnapshot`].
#[verifier::ext_equal]
pub ghost struct BookSnapV {
    pub market_id: Seq<char>,
    pub bids: Seq<OrderLevel>,
    pub asks: Seq<OrderLevel>,
}

/// A point-in-time view of the top of the book, one row per level.
#[derive(Debug, PartialEq)]
pub struct OrderbookSnapshot {
    pub market_id: String,
    pub bids: Vec<OrderLevel>,
    pub asks: Vec<OrderLevel>,
}

impl View for OrderbookSnapshot {
    type V = BookSnapV;

    open spec fn view(&self) -> BookSnapV {
        BookSnapV { market_id: self.market_id@, bids: self.bids@, asks: self.asks@ }
    }
}

/// The snapshot rows summarize the first `depth` levels exactly: price,
/// sum of remaining quantities, and number of resting orders.
pub open spec fn summary_matches(rows: Seq<OrderLevel>, levels: Seq<LevelV>, depth: usize) -> bool {
    &&& rows.len() == if depth <= levels.len() {
        depth as int
    } else {
        levels.len() as int
    }
    &&& forall|i: int|
        0 <= i < rows.len() ==> {
            &&& (#[trigger] rows[i]).price == levels[i].price
            &&& rows[i].total_quantity == sum_remaining(levels[i].orders)
            &&& rows[i].order_count == levels[i].orders.len()
        }
}

/// Builds the snapshot rows for one side.
fn summarize(levels: &Vec<PriceLevel>, depth: usize) -> (r: Vec<OrderLevel>)
    requires
        totals_ok(levels@),
    ensures
        summary_matches(r@, lv_views(levels@), depth),
{
    let mut out: Vec<OrderLevel> = Vec::new();
    let n = if depth <= levels.len() {
        depth
    } else {
        levels.len()
    };
    let mut i: usize = 0;
    while i < n
        invariant
            totals_ok(levels@),
            n <= levels@.len(),
            n as int == if depth <= levels@.len() {
                depth as int
            } else {
                levels@.len() as int
            },
            0 <= i <= n,
            out@.len() == i,
            forall|k: int|
                0 <= k < i ==> {
                    &&& (#[trigger] out@[k]).price == lv_views(levels@)[k].price
                    &&& out@[k].total_quantity == sum_remaining(lv_views(levels@)[k].orders)
                    &&& out@[k].order_count == lv_views(levels@)[k].orders.len()
                },
        decreases n - i,
    {
        let l = &levels[i];
        let row = OrderLevel {
            price: l.price,
            total_quantity: l.total_quantity,
            order_count: l.orders.len(),
        };
        proof {
            assert(lv_views(levels@)[i as int] == levels@[i as int]@);
        }
        out.push(row);
        i = i + 1;
    }
    out
}

/// Proof that `insert_pos` is the first index whose level does not have
/// strictly better priority than `p`.
pub(crate) proof fn lemma_insert_pos_props(levels: Seq<LevelV>, p: u64, side: OrderSide)
    ensures
        0 <= insert_pos(levels, p, side) <= levels.len(),
        forall|k: int|
            0 <= k < insert_pos(levels, p, side) ==> spec_better_px(
                side,
                #[trigger] levels[k].price,
                p,
            ),
        insert_pos(levels, p, side) < levels.len() ==> !spec_better_px(
            side,
            levels[insert_pos(levels, p, side)].price,
            p,
        ),
    decreases levels.len(),
{
    if levels.len() > 0 && spec_better_px(side, levels[0].price, p) {
        lemma_insert_pos_props(levels.drop_first(), p, side);
        assert forall|k: int| 0 <= k < insert_pos(levels, p, side) implies spec_better_px(
            side,
            #[trigger] levels[k].price,
            p,
        ) by {
            if k > 0 {
                assert(levels.drop_first()[k - 1] == levels[k]);
            }
        }
    }
}

pub(crate) proof fn lemma_sum_remaining_push(orders: Seq<OrderV>, o: OrderV)
    ensures
        sum_remaining(orders.push(o)) == sum_remaining(orders) + o.remaining_quantity,
    decreases orders.len(),
{
    let s = orders.push(o);
    if orders.len() == 0 {
        assert(s[0] == o);
        assert(s.drop_first() =~= Seq::<OrderV>::empty());
        assert(sum_remaining(Seq::<OrderV>::empty()) == 0);
        assert(sum_remaining(s) == o.remaining_quantity + sum_remaining(s.drop_first()));
    } else {
        assert(s[0] == orders[0]);
        assert(s.drop_first() =~= orders.drop_first().push(o));
        lemma_sum_remaining_push(orders.drop_first(), o);
        assert(sum_remaining(s) == orders[0].remaining_quantity + sum_remaining(s.drop_first()));
    }
}

pub(crate) proof fn lemma_sum_remaining_remove(orders: Seq<OrderV>, i: int)
    requires
        0 <= i < orders.len(),
    ensures
        sum_remaining(orders.remove(i)) == sum_remaining(orders) - orders[i].remaining_quantity,
    decreases orders.len(),
{
    if i == 0 {
        assert(orders.remove(0) =~= orders.drop_first());
    } else {
        assert(orders.remove(i).drop_first() =~= orders.drop_first().remove(i - 1));
        lemma_sum_remaining_remove(orders.drop_first(), i - 1);
    }
}

pub(crate) proof fn lemma_sum_remaining_update(orders: Seq<OrderV>, i: int, o: OrderV)
    requires
        0 <= i < orders.len(),
    ensures
        sum_remaining(orders.update(i, o)) == sum_remaining(orders) - orders[i].remaining_quantity
            + o.remaining_quantity,
    decreases orders.len(),
{
    if i == 0 {
        assert(orders.update(0, o).drop_first() =~= orders.drop_first());
        assert(orders.update(0, o)[0] == o);
    } else {
        assert(orders.update(i, o).drop_first() =~= orders.drop_first().update(i - 1, o));
        lemma_sum_remaining_update(orders.drop_first(), i - 1, o);
    }
}

pub(crate) proof fn lemma_sum_remaining_nonneg(orders: Seq<OrderV>)
    ensures
        sum_remaining(orders) >= 0,
    decreases orders.len(),
{
    if orders.len() > 0 {
        lemma_sum_remaining_nonneg(orders.drop_first());
    }
}

pub(crate) proof fn lemma_sum_remaining_bound(orders: Seq<OrderV>)
    ensures
        sum_remaining(orders) <= orders.len() * (u64::MAX as int),
    decreases orders.len(),
{
    if orders.len() == 0 {
    } else {
        lemma_sum_remaining_bound(orders.drop_first());
        assert(orders.len() * (u64::MAX as int) == (u64::MAX as int) + (orders.len() - 1) * (
        u64::MAX as int)) by (nonlinear_arith);
    }
}

/// Comparison under the priority order of one side.
fn better_px(side: OrderSide, a: u64, b: u64) -> (r: bool)
    ensures
        r == spec_better_px(side, a, b),
{
    match side {
        OrderSide::Buy => a > b,
        OrderSide::Sell => a < b,
    }
}

/// Inserts a resting order into one side, keeping the side's invariants.
fn add_to_levels(levels: &mut Vec<PriceLevel>, order: Order, side: OrderSide)
    requires
        side_wf(lv_views(old(levels)@), side),
        totals_ok(old(levels)@),
        order@.price is Some,
        order@.side == side,
        order@.order_type == OrderType::Limit,
        order@.remaining_quantity > 0,
        order@.wf(),
    ensures
        lv_views(final(levels)@) == spec_add_levels(lv_views(old(levels)@), order@, side),
        side_wf(lv_views(final(levels)@), side),
        totals_ok(final(levels)@),
{
    let ghost orig = lv_views(old(levels)@);
    let p = order.price.unwrap();
    proof {
        lemma_insert_pos_props(orig, p, side);
    }
    let ghost ip = insert_pos(orig, p, side);
    let mut i: usize = 0;
    while i < levels.len() && better_px(side, levels[i].price, p)
        invariant
            levels == old(levels),
            orig == lv_views(levels@),
            0 <= i <= ip,
            ip <= levels@.len(),
            forall|k: int|
                0 <= k < ip ==> spec_better_px(side, #[trigger] orig[k].price, p),
            ip < orig.len() ==> !spec_better_px(side, orig[ip].price, p),
        decreases levels@.len() - i,
    {
        proof {
            assert(orig[i as int].price == levels@[i as int].price);
            if i + 1 > ip {
                assert(i as int == ip);
                assert(false);
            }
        }
        i = i + 1;
    }
    proof {
        assert(i as int == ip) by {
            if (i as int) < ip {
                assert(spec_better_px(side, orig[i as int].price, p));
                assert(orig[i as int].price == levels@[i as int].price);
            }
        }
    }
    let rq = order.remaining_quantity;
    if i < levels.len() && levels[i].price == p {
        let ghost oldlvl = orig[i as int];
        let mut lvl = levels.remove(i);
        let n = lvl.orders.len();
        proof {
            assert(lvl@ == oldlvl);
            lemma_sum_remaining_bound(lvl@.orders);
            lemma_sum_remaining_nonneg(lvl@.orders);
            assert(lvl@.orders.len() <= u64::MAX) by {
                assert(lvl@.orders.len() == lvl.orders@.len());
                assert(lvl.orders@.len() == n);
            }
            assert(lvl@.orders.len() * (u64::MAX as int) <= (u64::MAX as int) * (
            u64::MAX as int)) by (nonlinear_arith)
                requires
                    lvl@.orders.len() <= u64::MAX,
            ;
            lemma_sum_remaining_push(lvl@.orders, order@);
        }
        lvl.total_quantity = lvl.total_quantity + (rq as u128);
        lvl.orders.push(order);
        levels.insert(i, lvl);
        proof {
            assert(lvl@.orders =~= oldlvl.orders.push(order@));
            assert(lvl@ =~~= LevelV { price: p, orders: oldlvl.orders.push(order@) });
            assert(lv_views(levels@) =~~= spec_add_levels(orig, order@, side));
            assert(lvl.total_quantity == sum_remaining(lvl@.orders));
            assert forall|k: int| 0 <= k < levels@.len() implies (#[trigger] levels@[k]).total_quantity
                == sum_remaining(levels@[k]@.orders) by {
                if k != i as int {
                    assert(levels@[k] == old(levels)@[k]);
                }
            }
            assert_add_invariants(orig, order@, side);
        }
    } else {
        let mut orders: Vec<Order> = Vec::new();
        orders.push(order);
        let lvl = PriceLevel { price: p, orders, total_quantity: rq as u128 };
        proof {
            assert(lvl@.orders =~= seq![order@]);
            assert(sum_remaining(lvl@.orders) == rq) by {
                assert(lvl@.orders[0] == order@);
                assert(lvl@.orders.drop_first() =~= Seq::<OrderV>::empty());
                assert(sum_remaining(lvl@.orders.drop_first()) == 0);
            }
        }
        levels.insert(i, lvl);
        proof {
            assert(lv_views(levels@) =~~= spec_add_levels(orig, order@, side));
            assert forall|k: int| 0 <= k < levels@.len() implies (#[trigger] levels@[k]).total_quantity
                == sum_remaining(levels@[k]@.orders) by {
                if k < i as int {
                    assert(levels@[k] == old(levels)@[k]);
                } else if k > i as int {
                    assert(levels@[k] == old(levels)@[k - 1]);
                }
            }
            assert_add_invariants(orig, order@, side);
        }
    }
}

/// The side invariants survive an insertion.
proof fn assert_add_invariants(levels: Seq<LevelV>, o: OrderV, side: OrderSide)
    requires
        side_wf(levels, side),
        o.price is Some,
        o.side == side,
        o.order_type == OrderType::Limit,
        o.remaining_quantity > 0,
        o.wf(),
    ensures
        side_wf(spec_add_levels(levels, o, side), side),
{
    let p = o.price->0;
    lemma_insert_pos_props(levels, p, side);
    let ip = insert_pos(levels, p, side);
    let r = spec_add_levels(levels, o, side);
    if ip < levels.len() && levels[ip].price == p {
        assert forall|i: int, j: int| 0 <= i < j < r.len() implies spec_better_px(
            side,
            #[trigger] r[i].price,
            #[trigger] r[j].price,
        ) by {
            assert(r[i].price == levels[i].price);
            assert(r[j].price == levels[j].price);
        }
    } else {
        // A fresh level is inserted at `ip`.
        assert(ip < levels.len() ==> levels[ip].price != p);
        assert forall|i: int, j: int| 0 <= i < j < r.len() implies spec_better_px(
            side,
            #[trigger] r[i].price,
            #[trigger] r[j].price,
        ) by {
            if i < ip && j < ip {
                assert(r[i] == levels[i] && r[j] == levels[j]);
            } else if i < ip && j == ip {
                assert(r[i] == levels[i]);
            } else if i < ip && j > ip {
                assert(r[i] == levels[i] && r[j] == levels[j - 1]);
            } else if i == ip && j > ip {
                // p has priority over everything at or past ip.
                assert(r[j] == levels[j - 1]);
                if j - 1 == ip {
                    assert(!spec_better_px(side, levels[ip].price, p));
                    assert(levels[ip].price != p);
                } else {
                    assert(spec_better_px(side, levels[ip].price, levels[j - 1].price));
                    assert(!spec_better_px(side, levels[ip].price, p));
                    assert(levels[ip].price != p);
                }
            } else {
                assert(i > ip && j > ip);
                assert(r[i] == levels[i - 1] && r[j] == levels[j - 1]);
            }
        }
    }
}


/// Proof that `find_order` is the first index holding the id.
pub(crate) proof fn lemma_find_order_props(orders: Seq<OrderV>, id: u128)
    ensures
        0 <= find_order(orders, id) <= orders.len(),
        find_order(orders, id) < orders.len() ==> orders[find_order(orders, id)].id == id,
        forall|k: int| 0 <= k < find_order(orders, id) ==> (#[trigger] orders[k]).id != id,
    decreases orders.len(),
{
    if orders.len() > 0 && orders[0].id != id {
        lemma_find_order_props(orders.drop_first(), id);
        assert forall|k: int| 0 <= k < find_order(orders, id) implies (#[trigger] orders[k]).id
            != id by {
            if k > 0 {
                assert(orders.drop_first()[k - 1] == orders[k]);
            }
        }
    }
}

/// Proof that `find_level` is the first level holding the id.
pub(crate) proof fn lemma_find_level_props(levels: Seq<LevelV>, id: u128)
    ensures
        0 <= find_level(levels, id) <= levels.len(),
        find_level(levels, id) < levels.len() ==> orders_have_id(
            levels[find_level(levels, id)].orders,
            id,
        ),
        forall|k: int|
            0 <= k < find_level(levels, id) ==> !orders_have_id(
                (#[trigger] levels[k]).orders,
                id,
            ),
    decreases levels.len(),
{
    if levels.len() > 0 && !orders_have_id(levels[0].orders, id) {
        lemma_find_level_props(levels.drop_first(), id);
        assert forall|k: int| 0 <= k < find_level(levels, id) implies !orders_have_id(
            (#[trigger] levels[k]).orders,
            id,
        ) by {
            if k > 0 {
                assert(levels.drop_first()[k - 1] == levels[k]);
            }
        }
    }
}

/// The side invariants survive removing one order.
pub(crate) proof fn lemma_remove_keeps_side_wf(levels: Seq<LevelV>, id: u128, side: OrderSide)
    requires
        side_wf(levels, side),
    ensures
        side_wf(spec_remove_id(levels, id), side),
{
    if levels_have_id(levels, id) {
        lemma_find_level_props(levels, id);
        let li = find_level(levels, id);
        let l = levels[li];
        let oi = find_order(l.orders, id);
        lemma_find_order_props(l.orders, id);
        let r = spec_remove_id(levels, id);
        if l.orders.len() == 1 {
            assert forall|i: int, j: int| 0 <= i < j < r.len() implies spec_better_px(
                side,
                #[trigger] r[i].price,
                #[trigger] r[j].price,
            ) by {
                let i0 = if i < li { i } else { i + 1 };
                let j0 = if j < li { j } else { j + 1 };
                assert(r[i] == levels[i0] && r[j] == levels[j0]);
            }
            assert forall|i: int, k: int|
                0 <= i < r.len() && 0 <= k < r[i].orders.len() implies order_fits_level(
                #[trigger] r[i].orders[k],
                r[i].price,
                side,
            ) by {
                let i0 = if i < li { i } else { i + 1 };
                assert(r[i] == levels[i0]);
            }
        } else {
            assert forall|i: int, k: int|
                0 <= i < r.len() && 0 <= k < r[i].orders.len() implies order_fits_level(
                #[trigger] r[i].orders[k],
                r[i].price,
                side,
            ) by {
                if i == li {
                    let k0 = if k < oi { k } else { k + 1 };
                    assert(r[i].orders[k] == l.orders[k0]);
                    assert(order_fits_level(l.orders[k0], l.price, side));
                } else {
                    assert(r[i] == levels[i]);
                }
            }
            assert forall|i: int, j: int| 0 <= i < j < r.len() implies spec_better_px(
                side,
                #[trigger] r[i].price,
                #[trigger] r[j].price,
            ) by {
                assert(r[i].price == levels[i].price && r[j].price == levels[j].price);
            }
        }
    }
}

/// The side invariants survive replacing one order in place, provided the
/// replacement still fits its level.
pub(crate) proof fn lemma_update_keeps_side_wf(levels: Seq<LevelV>, o: OrderV, side: OrderSide)
    requires
        side_wf(levels, side),
        o.side == side,
        o.order_type == OrderType::Limit,
        o.remaining_quantity > 0,
        o.wf(),
        levels_have_id(levels, o.id) ==> o.price == get_in_levels(levels, o.id).price,
    ensures
        side_wf(spec_update_id(levels, o), side),
{
    if levels_have_id(levels, o.id) {
        lemma_find_level_props(levels, o.id);
        let li = find_level(levels, o.id);
        let l = levels[li];
        let oi = find_order(l.orders, o.id);
        lemma_find_order_props(l.orders, o.id);
        let r = spec_update_id(levels, o);
        assert forall|i: int, j: int| 0 <= i < j < r.len() implies spec_better_px(
            side,
            #[trigger] r[i].price,
            #[trigger] r[j].price,
        ) by {
            assert(r[i].price == levels[i].price && r[j].price == levels[j].price);
        }
        assert forall|i: int, k: int|
            0 <= i < r.len() && 0 <= k < r[i].orders.len() implies order_fits_level(
            #[trigger] r[i].orders[k],
            r[i].price,
            side,
        ) by {
            if i == li {
                if k == oi {
                    assert(order_fits_level(l.orders[oi], l.price, side));
                } else {
                    assert(r[i].orders[k] == l.orders[k]);
                }
            } else {
                assert(r[i] == levels[i]);
            }
        }
    }
}

/// Finds the position of the order with the given id inside one level.
fn find_in_level(lvl: &PriceLevel, id: u128) -> (r: Option<usize>)
    ensures
        match r {
            Some(oi) => oi as int == find_order(lvl@.orders, id) && orders_have_id(
                lvl@.orders,
                id,
            ),
            None => !orders_have_id(lvl@.orders, id),
        },
{
    proof {
        lemma_find_order_props(lvl@.orders, id);
    }
    let ghost fo = find_order(lvl@.orders, id);
    let mut oi: usize = 0;
    while oi < lvl.orders.len()
        invariant
            fo == find_order(lvl@.orders, id),
            0 <= oi <= fo,
            fo <= lvl@.orders.len(),
            lvl@.orders.len() == lvl.orders@.len(),
            fo < lvl@.orders.len() ==> lvl@.orders[fo].id == id,
            forall|k: int| 0 <= k < fo ==> (#[trigger] lvl@.orders[k]).id != id,
            forall|k: int|
                0 <= k < lvl@.orders.len() ==> #[trigger] lvl@.orders[k] == lvl.orders@[k]@,
        decreases lvl.orders@.len() - oi,
    {
        if lvl.orders[oi].id == id {
            proof {
                assert(lvl@.orders[oi as int] == lvl.orders@[oi as int]@);
                assert(lvl@.orders[oi as int].id == id);
                if (oi as int) < fo {
                    assert(lvl@.orders[oi as int].id != id);
                    assert(false);
                }
                assert(oi as int == fo);
            }
            return Some(oi);
        }
        proof {
            assert(lvl@.orders[oi as int] == lvl.orders@[oi as int]@);
            assert(lvl@.orders[oi as int].id != id);
            if oi + 1 > fo {
                assert(oi as int == fo);
                assert(lvl@.orders[fo].id == id);
                assert(false);
            }
        }
        oi = oi + 1;
    }
    None
}

/// Removes the order with the given id from one side, dropping its level if
/// it empties, and keeping the side's invariants.
fn remove_from_levels(levels: &mut Vec<PriceLevel>, id: u128, side: OrderSide) -> (r: Option<
    Order,
>)
    requires
        side_wf(lv_views(old(levels)@), side),
        totals_ok(old(levels)@),
    ensures
        lv_views(final(levels)@) == spec_remove_id(lv_views(old(levels)@), id),
        side_wf(lv_views(final(levels)@), side),
        totals_ok(final(levels)@),
        (r is Some) == levels_have_id(lv_views(old(levels)@), id),
        r matches Some(o) ==> o@ == get_in_levels(lv_views(old(levels)@), id),
        r is None ==> final(levels)@ == old(levels)@,
{
    let ghost orig = lv_views(old(levels)@);
    proof {
        lemma_find_level_props(orig, id);
        lemma_remove_keeps_side_wf(orig, id, side);
    }
    let ghost fl = find_level(orig, id);
    let mut li: usize = 0;
    while li < levels.len()
        invariant
            levels == old(levels),
            orig == lv_views(levels@),
            fl == find_level(orig, id),
            0 <= li <= fl,
            fl <= orig.len(),
            orig.len() == levels@.len(),
            fl < orig.len() ==> orders_have_id(orig[fl].orders, id),
            forall|k: int| 0 <= k < fl ==> !orders_have_id((#[trigger] orig[k]).orders, id),
            side_wf(orig, side),
            totals_ok(levels@),
            side_wf(spec_remove_id(orig, id), side),
        decreases levels@.len() - li,
    {
        proof {
            assert(orig[li as int] == levels@[li as int]@);
        }
        let found = find_in_level(&levels[li], id);
        if let Some(oi) = found {
            proof {
                assert(orders_have_id(orig[li as int].orders, id));
                if (li as int) < fl {
                    assert(!orders_have_id(orig[li as int].orders, id));
                    assert(false);
                }
                assert(li as int == fl);
                lemma_find_order_props(orig[fl].orders, id);
            }
            let ghost oldlvl = orig[li as int];
            let mut lvl = levels.remove(li);
            let removed = lvl.orders.remove(oi);
            proof {
                assert(removed@ == oldlvl.orders[oi as int]);
                assert(lvl@.orders =~= oldlvl.orders.remove(oi as int));
                lemma_sum_remaining_remove(oldlvl.orders, oi as int);
                lemma_sum_remaining_nonneg(oldlvl.orders.remove(oi as int));
            }
            if lvl.orders.len() > 0 {
                lvl.total_quantity = lvl.total_quantity - (removed.remaining_quantity as u128);
                levels.insert(li, lvl);
                proof {
                    assert(oldlvl.orders.len() != 1);
                    assert(lv_views(levels@) =~~= spec_remove_id(orig, id));
                    assert forall|k: int|
                        0 <= k < levels@.len() implies (#[trigger] levels@[k]).total_quantity
                        == sum_remaining(levels@[k]@.orders) by {
                        if k != li as int {
                            assert(levels@[k] == old(levels)@[k]);
                        }
                    }
                }
            } else {
                proof {
                    assert(oldlvl.orders.len() == 1);
                    assert(lv_views(levels@) =~~= spec_remove_id(orig, id));
                    assert forall|k: int|
                        0 <= k < levels@.len() implies (#[trigger] levels@[k]).total_quantity
                        == sum_remaining(levels@[k]@.orders) by {
                        let k0 = if k < li as int { k } else { k + 1 };
                        assert(levels@[k] == old(levels)@[k0]);
                    }
                }
            }
            return Some(removed);
        }
        proof {
            if li + 1 > fl {
                assert(li as int == fl);
                assert(orders_have_id(orig[fl].orders, id));
                assert(false);
            }
        }
        li = li + 1;
    }
    proof {
        assert(!levels_have_id(orig, id));
    }
    None
}

/// Replaces the order with the given id in place on one side; a missing id
/// leaves the side unchanged.
fn update_in_levels(levels: &mut Vec<PriceLevel>, order: &Order, side: OrderSide)
    requires
        side_wf(lv_views(old(levels)@), side),
        totals_ok(old(levels)@),
        order@.side == side,
        order@.order_type == OrderType::Limit,
        order@.remaining_quantity > 0,
        order@.wf(),
        levels_have_id(lv_views(old(levels)@), order@.id) ==> order@.price == get_in_levels(
            lv_views(old(levels)@),
            order@.id,
        ).price,
    ensures
        lv_views(final(levels)@) == spec_update_id(lv_views(old(levels)@), order@),
        side_wf(lv_views(final(levels)@), side),
        totals_ok(final(levels)@),
{
    let ghost orig = lv_views(old(levels)@);
    proof {
        lemma_find_level_props(orig, order@.id);
        lemma_update_keeps_side_wf(orig, order@, side);
    }
    let ghost fl = find_level(orig, order@.id);
    let id = order.id;
    let mut li: usize = 0;
    while li < levels.len()
        invariant
            levels == old(levels),
            orig == lv_views(levels@),
            id == order@.id,
            fl == find_level(orig, id),
            order@.side == side,
            order@.order_type == OrderType::Limit,
            order@.remaining_quantity > 0,
            order@.wf(),
            levels_have_id(orig, order@.id) ==> order@.price == get_in_levels(
                orig,
                order@.id,
            ).price,
            0 <= li <= fl,
            fl <= orig.len(),
            orig.len() == levels@.len(),
            fl < orig.len() ==> orders_have_id(orig[fl].orders, id),
            forall|k: int| 0 <= k < fl ==> !orders_have_id((#[trigger] orig[k]).orders, id),
            side_wf(orig, side),
            totals_ok(levels@),
            side_wf(spec_update_id(orig, order@), side),
        decreases levels@.len() - li,
    {
        proof {
            assert(orig[li as int] == levels@[li as int]@);
        }
        let found = find_in_level(&levels[li], id);
        if let Some(oi) = found {
            proof {
                assert(orders_have_id(orig[li as int].orders, id));
                if (li as int) < fl {
                    assert(!orders_have_id(orig[li as int].orders, id));
                    assert(false);
                }
                assert(li as int == fl);
                lemma_find_order_props(orig[fl].orders, id);
            }
            let ghost oldlvl = orig[li as int];
            let mut lvl = levels.remove(li);
            let n = lvl.orders.len();
            let old_one = lvl.orders.remove(oi);
            lvl.orders.insert(oi, order.clone());
            proof {
                assert(old_one@ == oldlvl.orders[oi as int]);
                assert(lvl@.orders =~= oldlvl.orders.update(oi as int, order@));
                lemma_sum_remaining_remove(oldlvl.orders, oi as int);
                lemma_sum_remaining_nonneg(oldlvl.orders.remove(oi as int));
                lemma_sum_remaining_update(oldlvl.orders, oi as int, order@);
                lemma_sum_remaining_bound(oldlvl.orders.remove(oi as int));
                assert(oldlvl.orders.remove(oi as int).len() <= u64::MAX) by {
                    assert(oldlvl.orders.len() == n);
                }
                assert(oldlvl.orders.remove(oi as int).len() * (u64::MAX as int) <= (
                u64::MAX as int) * (u64::MAX as int)) by (nonlinear_arith)
                    requires
                        oldlvl.orders.remove(oi as int).len() <= u64::MAX,
                ;
            }
            lvl.total_quantity = lvl.total_quantity - (old_one.remaining_quantity as u128) + (
            order.remaining_quantity as u128);
            levels.insert(li, lvl);
            proof {
                assert(lv_views(levels@) =~~= spec_update_id(orig, order@));
                assert forall|k: int|
                    0 <= k < levels@.len() implies (#[trigger] levels@[k]).total_quantity
                    == sum_remaining(levels@[k]@.orders) by {
                    if k != li as int {
                        assert(levels@[k] == old(levels)@[k]);
                    }
                }
            }
            return ;
        }
        proof {
            if li + 1 > fl {
                assert(li as int == fl);
                assert(orders_have_id(orig[fl].orders, id));
                assert(false);
            }
        }
        li = li + 1;
    }
    proof {
        assert(!levels_have_id(orig, id));
        assert(lv_views(levels@) == spec_update_id(orig, order@));
    }
}

/// Looks up a clone of the resting order with the given id on one side.
fn get_from_levels(levels: &Vec<PriceLevel>, id: u128) -> (r: Option<Order>)
    ensures
        match r {
            Some(o) => levels_have_id(lv_views(levels@), id) && o@ == get_in_levels(
                lv_views(levels@),
                id,
            ),
            None => !levels_have_id(lv_views(levels@), id),
        },
{
    let ghost orig = lv_views(levels@);
    proof {
        lemma_find_level_props(orig, id);
    }
    let ghost fl = find_level(orig, id);
    let mut li: usize = 0;
    while li < levels.len()
        invariant
            orig == lv_views(levels@),
            fl == find_level(orig, id),
            0 <= li <= fl,
            fl <= orig.len(),
            orig.len() == levels@.len(),
            fl < orig.len() ==> orders_have_id(orig[fl].orders, id),
            forall|k: int| 0 <= k < fl ==> !orders_have_id((#[trigger] orig[k]).orders, id),
        decreases levels@.len() - li,
    {
        proof {
            assert(orig[li as int] == levels@[li as int]@);
        }
        let found = find_in_level(&levels[li], id);
        if let Some(oi) = found {
            proof {
                assert(orders_have_id(orig[li as int].orders, id));
                if (li as int) < fl {
                    assert(!orders_have_id(orig[li as int].orders, id));
                    assert(false);
                }
                assert(li as int == fl);
                lemma_find_order_props(orig[fl].orders, id);
                assert(orig[fl].orders[find_order(orig[fl].orders, id)]
                    == levels@[li as int].orders@[find_order(orig[fl].orders, id)]@);
            }
            return Some(levels[li].orders[oi].clone());
        }
        proof {
            if li + 1 > fl {
                assert(li as int == fl);
                assert(orders_have_id(orig[fl].orders, id));
                assert(false);
            }
        }
        li = li + 1;
    }
    None
}


/// An id is on a side exactly when some resting order carries it.
pub(crate) proof fn lemma_orders_have_id_iff(orders: Seq<OrderV>, id: u128)
    ensures
        orders_have_id(orders, id) <==> exists|k: int|
            0 <= k < orders.len() && (#[trigger] orders[k]).id == id,
{
    lemma_find_order_props(orders, id);
    if orders_have_id(orders, id) {
        assert(orders[find_order(orders, id)].id == id);
    } else {
        assert forall|k: int| 0 <= k < orders.len() implies (#[trigger] orders[k]).id != id by {}
    }
}

/// An id is on a side exactly when some level's queue holds it.
pub(crate) proof fn lemma_levels_have_id_iff(levels: Seq<LevelV>, id: u128)
    ensures
        levels_have_id(levels, id) <==> exists|li: int, k: int|
            0 <= li < levels.len() && 0 <= k < levels[li].orders.len() && (#[trigger] levels[li].orders[k]).id == id,
{
    lemma_find_level_props(levels, id);
    if levels_have_id(levels, id) {
        let li = find_level(levels, id);
        lemma_orders_have_id_iff(levels[li].orders, id);
        let k = choose|k: int|
            0 <= k < levels[li].orders.len() && (#[trigger] levels[li].orders[k]).id == id;
        assert(0 <= li < levels.len() && 0 <= k < levels[li].orders.len() && levels[li].orders[k].id
            == id);
    } else {
        assert forall|li: int, k: int|
            0 <= li < levels.len() && 0 <= k < levels[li].orders.len() implies (#[trigger] levels[li].orders[k]).id != id by {
            lemma_orders_have_id_iff(levels[li].orders, id);
        }
    }
}

/// Removing an order never brings an absent id into a side.
pub(crate) proof fn lemma_remove_keeps_absent(levels: Seq<LevelV>, id: u128, x: u128)
    requires
        !levels_have_id(levels, x),
    ensures
        !levels_have_id(spec_remove_id(levels, id), x),
{
    let r = spec_remove_id(levels, id);
    lemma_levels_have_id_iff(levels, x);
    lemma_levels_have_id_iff(r, x);
    if levels_have_id(levels, id) {
        lemma_find_level_props(levels, id);
        let li = find_level(levels, id);
        let oi = find_order(levels[li].orders, id);
        lemma_find_order_props(levels[li].orders, id);
        if levels_have_id(r, x) {
            let (a, k) = choose|a: int, k: int|
                0 <= a < r.len() && 0 <= k < r[a].orders.len() && (#[trigger] r[a].orders[k]).id
                    == x;
            if levels[li].orders.len() == 1 {
                let a0 = if a < li { a } else { a + 1 };
                assert(r[a] == levels[a0]);
                assert(levels[a0].orders[k].id == x);
            } else {
                if a == li {
                    let k0 = if k < oi { k } else { k + 1 };
                    assert(r[a].orders[k] == levels[li].orders[k0]);
                    assert(levels[li].orders[k0].id == x);
                } else {
                    assert(r[a] == levels[a]);
                    assert(levels[a].orders[k].id == x);
                }
            }
        }
    }
}

/// Replacing an order in place keeps the set of absent ids absent, because
/// the replacement carries the id of the order it replaces.
pub(crate) proof fn lemma_update_keeps_absent(levels: Seq<LevelV>, o: OrderV, x: u128)
    requires
        !levels_have_id(levels, x),
    ensures
        !levels_have_id(spec_update_id(levels, o), x),
{
    let r = spec_update_id(levels, o);
    lemma_levels_have_id_iff(levels, x);
    lemma_levels_have_id_iff(r, x);
    if levels_have_id(levels, o.id) {
        lemma_find_level_props(levels, o.id);
        let li = find_level(levels, o.id);
        let oi = find_order(levels[li].orders, o.id);
        lemma_find_order_props(levels[li].orders, o.id);
        if levels_have_id(r, x) {
            let (a, k) = choose|a: int, k: int|
                0 <= a < r.len() && 0 <= k < r[a].orders.len() && (#[trigger] r[a].orders[k]).id
                    == x;
            if a == li && k == oi {
                assert(r[a].orders[k] == o);
                assert(levels[li].orders[oi].id == o.id);
            } else if a == li {
                assert(r[a].orders[k] == levels[li].orders[k]);
            } else {
                assert(r[a] == levels[a]);
            }
        }
    }
}

/// The order the book returns for an id carries that id.
pub proof fn lemma_book_get_id(b: BookV, id: u128)
    requires
        b.has_id(id),
    ensures
        b.get(id).id == id,
{
    if levels_have_id(b.bids, id) {
        lemma_get_in_levels_id(b.bids, id);
    } else {
        lemma_get_in_levels_id(b.asks, id);
    }
}

/// The order a side returns for an id carries that id.
pub proof fn lemma_get_in_levels_id(levels: Seq<LevelV>, id: u128)
    requires
        levels_have_id(levels, id),
    ensures
        get_in_levels(levels, id).id == id,
{
    lemma_find_level_props(levels, id);
    let li = find_level(levels, id);
    lemma_find_order_props(levels[li].orders, id);
}

/// A resting order found by id fits the level it rests on.
pub proof fn lemma_get_fits(levels: Seq<LevelV>, id: u128, side: OrderSide)
    requires
        side_wf(levels, side),
        levels_have_id(levels, id),
    ensures
        order_fits_level(
            get_in_levels(levels, id),
            levels[find_level(levels, id)].price,
            side,
        ),
{
    lemma_find_level_props(levels, id);
    lemma_find_order_props(levels[find_level(levels, id)].orders, id);
}

/// Book aggregate: in a well-formed book no level is empty, every resting
/// order still has quantity, and each side is strictly ordered by price
/// priority. The stored per-level sums equal the members' sums by the
/// `totals_good` part of [`Orderbook::wf`], surfaced through the exact
/// contract of [`Orderbook::snapshot`].
pub proof fn lemma_book_aggregate(b: BookV)
    requires
        b.wf(),
    ensures
        forall|i: int| 0 <= i < b.bids.len() ==> (#[trigger] b.bids[i]).orders.len() > 0,
        forall|i: int| 0 <= i < b.asks.len() ==> (#[trigger] b.asks[i]).orders.len() > 0,
        forall|i: int, k: int|
            0 <= i < b.bids.len() && 0 <= k < b.bids[i].orders.len() ==> (
            #[trigger] b.bids[i].orders[k]).remaining_quantity > 0,
        forall|i: int, k: int|
            0 <= i < b.asks.len() && 0 <= k < b.asks[i].orders.len() ==> (
            #[trigger] b.asks[i].orders[k]).remaining_quantity > 0,
        forall|i: int, j: int|
            0 <= i < j < b.bids.len() ==> (#[trigger] b.bids[i]).price > (
            #[trigger] b.bids[j]).price,
        forall|i: int, j: int|
            0 <= i < j < b.asks.len() ==> (#[trigger] b.asks[i]).price < (
            #[trigger] b.asks[j]).price,
{
    assert forall|i: int, k: int|
        0 <= i < b.bids.len() && 0 <= k < b.bids[i].orders.len() implies (
    #[trigger] b.bids[i].orders[k]).remaining_quantity > 0 by {
        assert(order_fits_level(b.bids[i].orders[k], b.bids[i].price, OrderSide::Buy));
    }
    assert forall|i: int, k: int|
        0 <= i < b.asks.len() && 0 <= k < b.asks[i].orders.len() implies (
    #[trigger] b.asks[i].orders[k]).remaining_quantity > 0 by {
        assert(order_fits_level(b.asks[i].orders[k], b.asks[i].price, OrderSide::Sell));
    }
}

/// Inserting an order with a fresh id keeps a side's ids unique, and adds
/// only that id.
pub(crate) proof fn lemma_add_unique(levels: Seq<LevelV>, o: OrderV, side: OrderSide)
    requires
        side_unique(levels),
        !levels_have_id(levels, o.id),
    ensures
        side_unique(spec_add_levels(levels, o, side)),
        forall|x: u128|
            #[trigger] levels_have_id(spec_add_levels(levels, o, side), x) ==> levels_have_id(
                levels,
                x,
            ) || x == o.id,
{
    let p = o.price->0;
    let ip = insert_pos(levels, p, side);
    lemma_insert_pos_props(levels, p, side);
    let r = spec_add_levels(levels, o, side);
    lemma_levels_have_id_iff(levels, o.id);
    // Every slot of the result holds an old order at a mapped position, or
    // the new order itself.
    if ip < levels.len() && levels[ip].price == p {
        assert forall|li: int, k: int, lj: int, m: int|
            0 <= li < r.len() && 0 <= k < r[li].orders.len() && 0 <= lj < r.len() && 0 <= m
                < r[lj].orders.len() && (li != lj || k != m) implies (
        #[trigger] r[li].orders[k]).id != (#[trigger] r[lj].orders[m]).id by {
            let a_new = li == ip && k == levels[ip].orders.len();
            let b_new = lj == ip && m == levels[lj].orders.len();
            if a_new && !b_new {
                assert(r[lj].orders[m] == levels[lj].orders[m]);
                assert(r[li].orders[k] == o);
            } else if !a_new && b_new {
                assert(r[li].orders[k] == levels[li].orders[k]);
                assert(r[lj].orders[m] == o);
            } else if !a_new && !b_new {
                assert(r[li].orders[k] == levels[li].orders[k]);
                assert(r[lj].orders[m] == levels[lj].orders[m]);
            }
        }
        assert forall|x: u128| #[trigger] levels_have_id(r, x) implies levels_have_id(levels, x)
            || x == o.id by {
            lemma_levels_have_id_iff(r, x);
            lemma_levels_have_id_iff(levels, x);
            let (a, k) = choose|a: int, k: int|
                0 <= a < r.len() && 0 <= k < r[a].orders.len() && (#[trigger] r[a].orders[k]).id
                    == x;
            if a == ip && k == levels[ip].orders.len() {
                assert(r[a].orders[k] == o);
            } else {
                assert(r[a].orders[k] == levels[a].orders[k]);
            }
        }
    } else {
        assert forall|li: int, k: int, lj: int, m: int|
            0 <= li < r.len() && 0 <= k < r[li].orders.len() && 0 <= lj < r.len() && 0 <= m
                < r[lj].orders.len() && (li != lj || k != m) implies (
        #[trigger] r[li].orders[k]).id != (#[trigger] r[lj].orders[m]).id by {
            if li == ip && lj == ip {
                assert(r[ip].orders.len() == 1);
            } else if li == ip {
                let lj0 = if lj < ip { lj } else { lj - 1 };
                assert(r[li].orders[k] == o);
                assert(r[lj].orders[m] == levels[lj0].orders[m]);
            } else if lj == ip {
                let li0 = if li < ip { li } else { li - 1 };
                assert(r[lj].orders[m] == o);
                assert(r[li].orders[k] == levels[li0].orders[k]);
            } else {
                let li0 = if li < ip { li } else { li - 1 };
                let lj0 = if lj < ip { lj } else { lj - 1 };
                assert(r[li].orders[k] == levels[li0].orders[k]);
                assert(r[lj].orders[m] == levels[lj0].orders[m]);
                assert(li0 != lj0 || k != m);
            }
        }
        assert forall|x: u128| #[trigger] levels_have_id(r, x) implies levels_have_id(levels, x)
            || x == o.id by {
            lemma_levels_have_id_iff(r, x);
            lemma_levels_have_id_iff(levels, x);
            let (a, k) = choose|a: int, k: int|
                0 <= a < r.len() && 0 <= k < r[a].orders.len() && (#[trigger] r[a].orders[k]).id
                    == x;
            if a == ip {
                assert(r[a].orders[k] == o);
            } else {
                let a0 = if a < ip { a } else { a - 1 };
                assert(r[a].orders[k] == levels[a0].orders[k]);
            }
        }
    }
}

/// Removing an order keeps a side's ids unique, and on a side whose ids
/// are unique the removed id is gone entirely.
pub(crate) proof fn lemma_remove_unique(levels: Seq<LevelV>, id: u128)
    requires
        side_unique(levels),
    ensures
        side_unique(spec_remove_id(levels, id)),
        !levels_have_id(spec_remove_id(levels, id), id),
{
    let r = spec_remove_id(levels, id);
    if !levels_have_id(levels, id) {
        lemma_remove_keeps_absent(levels, id, id);
    } else {
        lemma_find_level_props(levels, id);
        let li0 = find_level(levels, id);
        let oi0 = find_order(levels[li0].orders, id);
        lemma_find_order_props(levels[li0].orders, id);
        if levels[li0].orders.len() == 1 {
            assert forall|li: int, k: int, lj: int, m: int|
                0 <= li < r.len() && 0 <= k < r[li].orders.len() && 0 <= lj < r.len() && 0 <= m
                    < r[lj].orders.len() && (li != lj || k != m) implies (
            #[trigger] r[li].orders[k]).id != (#[trigger] r[lj].orders[m]).id by {
                let a0 = if li < li0 { li } else { li + 1 };
                let b0 = if lj < li0 { lj } else { lj + 1 };
                assert(r[li].orders[k] == levels[a0].orders[k]);
                assert(r[lj].orders[m] == levels[b0].orders[m]);
            }
            assert forall|x: u128| #[trigger] levels_have_id(r, x) && x == id implies false by {
                lemma_levels_have_id_iff(r, x);
                let (a, k) = choose|a: int, k: int|
                    0 <= a < r.len() && 0 <= k < r[a].orders.len() && (
                    #[trigger] r[a].orders[k]).id == x;
                let a0 = if a < li0 { a } else { a + 1 };
                assert(r[a].orders[k] == levels[a0].orders[k]);
                assert(levels[a0].orders[k].id == levels[li0].orders[oi0].id);
            }
        } else {
            assert forall|li: int, k: int, lj: int, m: int|
                0 <= li < r.len() && 0 <= k < r[li].orders.len() && 0 <= lj < r.len() && 0 <= m
                    < r[lj].orders.len() && (li != lj || k != m) implies (
            #[trigger] r[li].orders[k]).id != (#[trigger] r[lj].orders[m]).id by {
                let k0 = if li != li0 || k < oi0 {
                    k
                } else {
                    k + 1
                };
                let m0 = if lj != li0 || m < oi0 {
                    m
                } else {
                    m + 1
                };
                assert(r[li].orders[k] == levels[li].orders[k0]);
                assert(r[lj].orders[m] == levels[lj].orders[m0]);
                assert(li != lj || k0 != m0);
            }
            assert forall|x: u128| #[trigger] levels_have_id(r, x) && x == id implies false by {
                lemma_levels_have_id_iff(r, x);
                let (a, k) = choose|a: int, k: int|
                    0 <= a < r.len() && 0 <= k < r[a].orders.len() && (
                    #[trigger] r[a].orders[k]).id == x;
                let k0 = if a != li0 || k < oi0 {
                    k
                } else {
                    k + 1
                };
                assert(r[a].orders[k] == levels[a].orders[k0]);
                assert((a, k0) != (li0, oi0));
                assert(levels[a].orders[k0].id == levels[li0].orders[oi0].id);
            }
        }
    }
}

/// Replacing an order in place under its own id keeps a side's ids unique.
pub(crate) proof fn lemma_update_unique(levels: Seq<LevelV>, o: OrderV)
    requires
        side_unique(levels),
    ensures
        side_unique(spec_update_id(levels, o)),
{
    let r = spec_update_id(levels, o);
    if levels_have_id(levels, o.id) {
        lemma_find_level_props(levels, o.id);
        let li0 = find_level(levels, o.id);
        let oi0 = find_order(levels[li0].orders, o.id);
        lemma_find_order_props(levels[li0].orders, o.id);
        assert forall|li: int, k: int, lj: int, m: int|
            0 <= li < r.len() && 0 <= k < r[li].orders.len() && 0 <= lj < r.len() && 0 <= m
                < r[lj].orders.len() && (li != lj || k != m) implies (
        #[trigger] r[li].orders[k]).id != (#[trigger] r[lj].orders[m]).id by {
            // The replacement carries the id of the slot it fills.
            if li == li0 && k == oi0 {
                assert(r[li].orders[k] == o);
                assert(o.id == levels[li0].orders[oi0].id);
                assert(r[lj].orders[m] == levels[lj].orders[m]);
            } else if lj == li0 && m == oi0 {
                assert(r[lj].orders[m] == o);
                assert(o.id == levels[li0].orders[oi0].id);
                assert(r[li].orders[k] == levels[li].orders[k]);
            } else {
                assert(r[li].orders[k] == levels[li].orders[k]);
                assert(r[lj].orders[m] == levels[lj].orders[m]);
            }
        }
    }
}

/// After a removal, any id on the side was there before.
pub(crate) proof fn lemma_side_ids_shrink(levels: Seq<LevelV>, id: u128)
    ensures
        forall|x: u128|
            #[trigger] levels_have_id(spec_remove_id(levels, id), x) ==> levels_have_id(
                levels,
                x,
            ),
{
    assert forall|x: u128| #[trigger] levels_have_id(spec_remove_id(levels, id), x) implies
        levels_have_id(levels, x) by {
        if !levels_have_id(levels, x) {
            lemma_remove_keeps_absent(levels, id, x);
        }
    }
}

/// After an in-place replacement, any id on the side was there before.
pub(crate) proof fn lemma_update_ids_keep(levels: Seq<LevelV>, o: OrderV)
    ensures
        forall|x: u128|
            #[trigger] levels_have_id(spec_update_id(levels, o), x) ==> levels_have_id(levels, x),
{
    assert forall|x: u128| #[trigger] levels_have_id(spec_update_id(levels, o), x) implies
        levels_have_id(levels, x) by {
        if !levels_have_id(levels, x) {
            lemma_update_keeps_absent(levels, o, x);
        }
    }
}

/// Arrival order refines timestamp order inside a level: when the resting
/// queue's caller-supplied timestamps do not decrease with arrival, an
/// order with a strictly earlier timestamp stands strictly earlier in the
/// queue — and is therefore matched first — while equal timestamps keep
/// their deterministic arrival order.
pub proof fn lemma_time_priority_within_level(orders: Seq<OrderV>, k1: int, k2: int)
    requires
        forall|i: int, j: int|
            0 <= i < j < orders.len() ==> (#[trigger] orders[i]).timestamp_ns <= (
            #[trigger] orders[j]).timestamp_ns,
        0 <= k1 < orders.len(),
        0 <= k2 < orders.len(),
        orders[k1].timestamp_ns < orders[k2].timestamp_ns,
    ensures
        k1 < k2,
{
    if k1 > k2 {
        assert(orders[k2].timestamp_ns <= orders[k1].timestamp_ns);
    }
}
} // verus!
