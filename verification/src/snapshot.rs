//! Snapshot payloads for external persistence collaborators.

use vstd::prelude::*;

use crate::orderbook::{BookSnapV, OrderbookSnapshot};
use crate::types::{Order, OrderV};

verus! {

/// Mathematical model of a [`Snapshot`].
#[verifier::ext_equal]
pub ghost struct SnapshotV {
    pub market_id: Seq<char>,
    pub sequence_number: i64,
    pub timestamp_ns: i64,
    pub orderbook: BookSnapV,
    pub active_orders: Seq<OrderV>,
}

/// A point-in-time description of one market's state, handed to external
/// persistence collaborators; the log stays the source of truth.
pub struct Snapshot {
    pub market_id: String,
    pub sequence_number: i64,
    pub timestamp_ns: i64,
    pub orderbook: OrderbookSnapshot,
    pub active_orders: Vec<Order>,
}

impl View for Snapshot {
    type V = SnapshotV;

    open spec fn view(&self) -> SnapshotV {
        SnapshotV {
            market_id: self.market_id@,
            sequence_number: self.sequence_number,
            timestamp_ns: self.timestamp_ns,
            orderbook: self.orderbook@,
            active_orders: self.active_orders@.map_values(|o: Order| o@),
        }
    }
}

/// Names the directory snapshots are kept under; reading and writing the
/// files is its caller's concern.
pub struct SnapshotManager {
    snapshot_dir: String,
}

impl SnapshotManager {
    /// The directory snapshots are kept under.
    pub closed spec fn spec_dir(&self) -> Seq<char> {
        self.snapshot_dir@
    }

    /// Creates a manager over the given directory.
    pub fn new(snapshot_dir: String) -> (r: Self)
        ensures
            r.spec_dir() == snapshot_dir@,
    {
        SnapshotManager { snapshot_dir }
    }

    /// The directory snapshots are kept under.
    pub fn dir(&self) -> (r: &str)
        ensures
            r@ == self.spec_dir(),
    {
        self.snapshot_dir.as_str()
    }
}

} // verus!
