use vstd::prelude::*;
use vstd::string::StringExecFns;

use crate::domain::order::order_error_text;
use crate::domain::{OrderError, OrderId, Price, Quantity, Trade};
use crate::text::{decimal_text, u64_text};

verus! {

/// What a submitted order did: its fills, in execution order, and what is left of it.
#[derive(Debug, Clone, PartialEq, Eq)]
pub struct ExecutionReport {
    pub order_id: OrderId,
    pub remaining_quantity: Quantity,
    pub trades: Vec<Trade>,
}

/// The mathematical content of an [`ExecutionReport`].
pub struct ReportView {
    pub order_id: OrderId,
    pub remaining_quantity: Quantity,
    pub trades: Seq<Trade>,
}

impl View for ExecutionReport {
    type V = ReportView;

    open spec fn view(&self) -> ReportView {
        ReportView {
            order_id: self.order_id,
            remaining_quantity: self.remaining_quantity,
            trades: self.trades@,
        }
    }
}

/// The order a cancel took off the book and the quantity it still had open.
#[derive(Debug, Clone, Copy, PartialEq, Eq, Structural)]
pub struct CancelReport {
    pub order_id: OrderId,
    pub canceled_quantity: Quantity,
}

/// Why a book refused a command.
#[derive(Debug, Clone, Copy, PartialEq, Eq, Structural)]
pub enum BookError {
    /// The order breaks a validation rule.
    InvalidOrder(OrderError),
    /// An order with this id is already resting.
    DuplicateOrder(OrderId),
    /// The book has no room to rest the unfilled remainder.
    Full,
    /// Resting the remainder would overflow its level's aggregate quantity.
    QuantityOverflow,
    /// The engine's sequence space is used up.
    SequenceExhausted,
    /// No resting order has this id.
    OrderNotFound(OrderId),
}

/// One aggregated price level: its price, total open quantity and number of orders.
#[derive(Debug, Clone, Copy, PartialEq, Eq, Structural)]
pub struct PriceLevelView {
    pub price: Price,
    pub quantity: Quantity,
    pub order_count: usize,
}

/// The best bid level and the best ask level, where they exist.
#[derive(Debug, Clone, Copy, PartialEq, Eq, Structural)]
pub struct TopOfBook {
    pub bid: Option<PriceLevelView>,
    pub ask: Option<PriceLevelView>,
}

/// Aggregated price levels of both sides, best first on each side.
#[derive(Debug, Clone, PartialEq, Eq)]
pub struct BookSnapshot {
    pub bids: Vec<PriceLevelView>,
    pub asks: Vec<PriceLevelView>,
}

/// The message a book error is reported with.
pub open spec fn book_error_text(error: BookError) -> Seq<char> {
    match error {
        BookError::InvalidOrder(e) => order_error_text(e),
        BookError::DuplicateOrder(id) => "duplicate active order ID: "@ + decimal_text(id as nat),
        BookError::Full => "order book has no room to rest the unfilled remainder"@,
        BookError::QuantityOverflow => "aggregate quantity exceeds the supported range"@,
        BookError::SequenceExhausted => "engine sequence exhausted"@,
        BookError::OrderNotFound(id) => "order not found: "@ + decimal_text(id as nat),
    }
}

impl BookError {
    /// The message the error is reported with.
    pub fn message(&self) -> (r: String)
        ensures
            r@ == book_error_text(*self),
    {
        match self {
            BookError::InvalidOrder(e) => e.message(),
            BookError::DuplicateOrder(id) => {
                let mut text = "duplicate active order ID: ".to_string();
                let digits = u64_text(*id);
                text.append(digits.as_str());
                text
            },
            BookError::Full => "order book has no room to rest the unfilled remainder".to_string(),
            BookError::QuantityOverflow => "aggregate quantity exceeds the supported range".to_string(),
            BookError::SequenceExhausted => "engine sequence exhausted".to_string(),
            BookError::OrderNotFound(id) => {
                let mut text = "order not found: ".to_string();
                let digits = u64_text(*id);
                text.append(digits.as_str());
                text
            },
        }
    }
}

} // verus!
