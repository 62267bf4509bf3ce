//! The error taxonomy of the order book core.

use vstd::prelude::*;

verus! {

/// Every failure of the core names the exact condition that caused it;
/// no operation fails with an opaque generic error.
#[derive(Clone, Copy, PartialEq, Eq, Structural, Debug)]
pub enum CLOBError {
    /// A price of zero was given to a placement.
    InvalidPrice,
    /// A quantity of zero was given to a placement.
    InvalidQuantity,
    /// A fill was requested for more than an order's remaining quantity.
    InvalidFillQuantity,
    /// The requester of a cancellation does not own the order.
    Unauthorized,
    /// The order addressed is already Filled or Cancelled.
    OrderNotActive,
    /// A debit was requested for more than the account's balance.
    InsufficientFunds,
    /// An order with the same id is already resting in the book.
    DuplicateOrder,
    /// A market with the same id already exists.
    DuplicateMarket,
    /// No order with the given id exists anywhere.
    NotFound,
    /// No market with the given id exists.
    MarketNotFound,
    /// A computed amount would exceed the supported numeric range.
    Overflow,
    /// The ledger could not complete the atomic multi-leg transfer.
    SettlementFailed,
}

} // verus!
