use vstd::prelude::*;

use super::{OrderId, OrderSide, Price, Quantity, Sequence, UserId};

verus! {

/// One execution between an incoming taker and a resting maker, at the maker's price.
#[derive(Debug, Clone, Copy, PartialEq, Eq, Structural)]
pub struct Trade {
    pub sequence: Sequence,
    pub maker_order_id: OrderId,
    pub taker_order_id: OrderId,
    pub maker_id: UserId,
    pub taker_id: UserId,
    pub taker_side: OrderSide,
    pub quantity: Quantity,
    pub price: Price,
}

} // verus!
