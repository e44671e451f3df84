//! Orders, trades, symbols and instruments: the value types of the matching core.

pub mod instrument;
pub mod order;
pub mod status;
pub mod symbol;
pub mod trade;

pub use instrument::{Instrument, InstrumentId};
pub use order::{opposite_side, Order, OrderError, OrderKind, OrderSide, RestingOrder};
pub use status::{OrderStatus, StatusTransitionError};
pub use symbol::{Symbol, SymbolError};
pub use trade::Trade;

use vstd::prelude::*;

verus! {

/// Client-chosen identifier of an order; unique among the orders resting in one book.
pub type OrderId = u64;

/// Identifier of the user that owns an order.
pub type UserId = u64;

/// Monotonic engine sequence number stamped on every trade.
pub type Sequence = u64;

/// Limit price in ticks.
pub type Price = i64;

/// Order quantity in lots.
pub type Quantity = u64;

/// Minimum price increment of an instrument, in ticks.
pub type TickSize = Price;

/// Minimum quantity increment of an instrument, in lots.
pub type LotSize = Quantity;

} // verus!
