use vstd::prelude::*;

use super::{OrderId, Price, Quantity, Sequence, UserId};

verus! {

/// The side of the book an order belongs to.
#[derive(Debug, Clone, Copy, PartialEq, Eq, Structural)]
pub enum OrderSide {
    Buy,
    Sell,
}

/// Whether an order carries a limit price or takes any price.
#[derive(Debug, Clone, Copy, PartialEq, Eq, Structural)]
pub enum OrderKind {
    Market,
    Limit,
}

/// The part of an order that is kept while it rests in a book.
#[derive(Debug, Clone, Copy, PartialEq, Eq, Structural)]
pub struct RestingOrder {
    pub id: OrderId,
    pub user_id: UserId,
    pub original_qty: Quantity,
    pub open_qty: Quantity,
    pub accepted_sequence: Sequence,
}

/// An order as submitted to a book.
#[derive(Debug, Clone, Copy, PartialEq, Eq, Structural)]
pub struct Order {
    pub resting: RestingOrder,
    pub limit_price: Option<Price>,
    pub kind: OrderKind,
    pub side: OrderSide,
}

/// Why an order cannot be accepted by the matching core.
#[derive(Debug, Clone, Copy, PartialEq, Eq, Structural)]
pub enum OrderError {
    /// The original quantity is zero.
    ZeroQuantity,
    /// The open quantity is zero or exceeds the original quantity.
    InvalidOpenQuantity,
    /// A limit order has no price, or a price that is not positive.
    InvalidLimitPrice,
}

/// The message an order error is reported with.
pub open spec fn order_error_text(error: OrderError) -> Seq<char> {
    match error {
        OrderError::ZeroQuantity => "quantity must be positive"@,
        OrderError::InvalidOpenQuantity => "open quantity must be positive and no greater than original quantity"@,
        OrderError::InvalidLimitPrice => "limit orders require a positive price"@,
    }
}

impl OrderError {
    /// The message the error is reported with.
    pub fn message(&self) -> (r: String)
        ensures
            r@ == order_error_text(*self),
    {
        match self {
            OrderError::ZeroQuantity => "quantity must be positive".to_string(),
            OrderError::InvalidOpenQuantity => {
                "open quantity must be positive and no greater than original quantity".to_string()
            },
            OrderError::InvalidLimitPrice => "limit orders require a positive price".to_string(),
        }
    }
}

/// The side an order on `side` trades against.
pub open spec fn opposite(side: OrderSide) -> OrderSide {
    match side {
        OrderSide::Buy => OrderSide::Sell,
        OrderSide::Sell => OrderSide::Buy,
    }
}

/// The side an order on `side` trades against.
pub fn opposite_side(side: OrderSide) -> (r: OrderSide)
    ensures
        r == opposite(side),
{
    match side {
        OrderSide::Buy => OrderSide::Sell,
        OrderSide::Sell => OrderSide::Buy,
    }
}

impl Order {
    /// The first rule, in the order they are checked, that the order breaks.
    pub open spec fn validation_error(self) -> Option<OrderError> {
        if self.resting.original_qty == 0 {
            Some(OrderError::ZeroQuantity)
        } else if self.resting.open_qty == 0 || self.resting.open_qty > self.resting.original_qty {
            Some(OrderError::InvalidOpenQuantity)
        } else if self.kind == OrderKind::Limit && (self.limit_price is None
            || self.limit_price->0 <= 0) {
            Some(OrderError::InvalidLimitPrice)
        } else {
            None
        }
    }

    /// Whether the order accepts a trade at `maker_price`.
    pub open spec fn crosses_spec(self, maker_price: Price) -> bool {
        match self.side {
            OrderSide::Buy => self.limit_price is Some && self.limit_price->0 >= maker_price,
            OrderSide::Sell => self.limit_price is Some && self.limit_price->0 <= maker_price,
        }
    }

    /// Validates the order's quantity and price constraints.
    pub fn validate(&self) -> (r: Result<(), OrderError>)
        ensures
            r == match self.validation_error() {
                Some(e) => Err::<(), OrderError>(e),
                None => Ok(()),
            },
    {
        if self.resting.original_qty == 0 {
            return Err(OrderError::ZeroQuantity);
        }
        if self.resting.open_qty == 0 || self.resting.open_qty > self.resting.original_qty {
            return Err(OrderError::InvalidOpenQuantity);
        }
        match self.kind {
            OrderKind::Limit => match self.limit_price {
                None => {
                    return Err(OrderError::InvalidLimitPrice);
                },
                Some(price) => {
                    if price <= 0 {
                        return Err(OrderError::InvalidLimitPrice);
                    }
                },
            },
            OrderKind::Market => {},
        }
        Ok(())
    }

    /// Whether the order accepts a trade at `maker_price`: a buy at or above its
    /// limit, a sell at or below it. An order without a price crosses nothing.
    pub fn crosses(&self, maker_price: Price) -> (r: bool)
        ensures
            r == self.crosses_spec(maker_price),
    {
        match self.side {
            OrderSide::Buy => match self.limit_price {
                Some(price) => price >= maker_price,
                None => false,
            },
            OrderSide::Sell => match self.limit_price {
                Some(price) => price <= maker_price,
                None => false,
            },
        }
    }
}

} // verus!
