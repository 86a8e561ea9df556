//! Plain data carried by the book and the engine: sides, orders, order
//! status, and executed trades.

use vstd::prelude::*;

verus! {

/// Which side of the book an order rests on.
#[derive(Clone, Copy, Debug, PartialEq, Eq, Structural)]
pub enum Side {
    Buy,
    Sell,
}

/// One resting order. `price` is in hundredths of the quote unit.
#[derive(Clone, Copy, Debug, PartialEq, Eq, Structural)]
pub struct Order {
    pub id: u64,
    pub side: Side,
    pub quantity: u64,
    pub price: u64,
}

impl Order {
    pub fn new(id: u64, side: Side, quantity: u64, price: u64) -> (r: Order)
        ensures
            r == (Order { id, side, quantity, price }),
    {
        Order { id, side, quantity, price }
    }

    /// The all-zero entry used to pad fixed-depth snapshots.
    pub fn zero() -> (r: Order)
        ensures
            r == Order::zero_spec(),
    {
        Order { id: 0, side: Side::Buy, quantity: 0, price: 0 }
    }

    pub open spec fn zero_spec() -> Order {
        Order { id: 0, side: Side::Buy, quantity: 0, price: 0 }
    }
}

/// Lifecycle state reported for an order id.
#[derive(Clone, Copy, Debug, PartialEq, Eq, Structural)]
pub enum OrderStatus {
    New,
    Filled,
    Rejected,
}

/// One executed match. `price` is in hundredths of the quote unit;
/// `timestamp` is seconds since the Unix epoch.
#[derive(Clone, Copy, Debug, PartialEq, Eq, Structural)]
pub struct Trade {
    pub quantity: u64,
    pub price: u64,
    pub timestamp: u64,
}

impl Trade {
    /// The all-zero entry used to pad fixed-depth history views.
    pub fn zero() -> (r: Trade)
        ensures
            r == Trade::zero_spec(),
    {
        Trade { quantity: 0, price: 0, timestamp: 0 }
    }

    pub open spec fn zero_spec() -> Trade {
        Trade { quantity: 0, price: 0, timestamp: 0 }
    }
}

} // verus!
