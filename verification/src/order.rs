//! Orders: one resting or historical trading intent, with its lifecycle
//! invariant.

use vstd::prelude::*;

verus! {

/// Which side of the book an order stands on.
#[derive(Clone, Copy, PartialEq, Eq, Structural, Debug)]
pub enum Side {
    Buy,
    Sell,
}

impl Side {
    /// The opposite side of the book.
    pub open spec fn spec_opposite(self) -> Side {
        match self {
            Side::Buy => Side::Sell,
            Side::Sell => Side::Buy,
        }
    }

    /// A short human-readable name for the side.
    pub fn as_ref(&self) -> (r: &'static str)
        ensures
            *self == Side::Buy ==> r@ == "Buy"@,
            *self == Side::Sell ==> r@ == "Sell"@,
    {
        match self {
            Side::Buy => "Buy",
            Side::Sell => "Sell",
        }
    }
}

/// The lifecycle state of an order. `Filled` and `Cancelled` are terminal.
#[derive(Clone, Copy, PartialEq, Eq, Structural, Debug)]
pub enum OrderStatus {
    Active,
    Filled,
    Cancelled,
}

/// One trading intent. Identity, owner, side, price, size and creation time
/// are immutable; only `filled_quantity` and `status` change, and only
/// through matching or an explicit cancel.
#[derive(Clone, Copy, PartialEq, Eq, Structural, Debug)]
pub struct Order {
    /// Unique identity of the order.
    pub order_id: u64,
    /// Identity of the submitting party.
    pub owner: u64,
    /// The market this order trades on.
    pub market_id: u64,
    /// Buy or Sell.
    pub side: Side,
    /// Limit price, in quote units per base unit. Always positive.
    pub price: u64,
    /// Original size, in base units. Always positive.
    pub quantity: u64,
    /// How much of `quantity` has been matched so far.
    pub filled_quantity: u64,
    /// Monotonic placement time, the time-priority tie break.
    pub created_at: u64,
    /// Lifecycle state.
    pub status: OrderStatus,
}

impl Order {
    /// The unmatched part of the order.
    pub open spec fn remaining(self) -> int {
        self.quantity - self.filled_quantity
    }

    /// Well-formedness of an order: positive price and size, the fill never
    /// exceeds the size, the quote value of the whole order fits the numeric
    /// range, and the status is `Filled` exactly when the order is fully
    /// matched.
    pub open spec fn wf(self) -> bool {
        &&& self.price > 0
        &&& self.quantity > 0
        &&& self.filled_quantity <= self.quantity
        &&& self.price * self.quantity <= u64::MAX
        &&& (self.status == OrderStatus::Filled <==> self.filled_quantity == self.quantity)
    }

    /// The unmatched part of the order, as a machine integer.
    pub fn remaining_quantity(&self) -> (r: u64)
        requires
            self.wf(),
        ensures
            r == self.remaining(),
    {
        self.quantity - self.filled_quantity
    }
}

/// Whether an incoming order at `incoming_price` crosses a resting order at
/// `resting_price`: a Buy crosses an ask priced at or below its limit, a
/// Sell crosses a bid priced at or above its limit.
pub open spec fn crosses(incoming_side: Side, incoming_price: u64, resting_price: u64) -> bool {
    match incoming_side {
        Side::Buy => resting_price <= incoming_price,
        Side::Sell => resting_price >= incoming_price,
    }
}

/// The effect of matching `q` units against order `o`: the fill grows by
/// `q`, and the order becomes `Filled` exactly when it is fully consumed.
pub open spec fn apply_fill(o: Order, q: u64) -> Order {
    let nf = (o.filled_quantity + q) as u64;
    Order {
        filled_quantity: nf,
        status: if nf == o.quantity {
            OrderStatus::Filled
        } else {
            o.status
        },
        ..o
    }
}

} // verus!
