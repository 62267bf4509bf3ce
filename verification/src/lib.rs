//! Matching and settlement core of a central limit order book.
//!
//! The library keeps, per market, two priority-ordered sides of resting
//! orders, matches incoming orders against the opposite side by price-time
//! priority, and settles each fill as an atomic four-leg value transfer on
//! an explicit ledger of balances.

pub mod errors;
pub mod order;
pub mod ledger;
pub mod book;
pub mod engine;
pub mod exchange;

pub use errors::CLOBError;
pub use order::{Order, OrderStatus, Side};
pub use ledger::{Ledger, LedgerEntry};
pub use book::OrderBook;
pub use engine::{Fill, fill_order, match_incoming};
pub use exchange::{Exchange, Market, MarketState, MarketView, PlaceResult};
