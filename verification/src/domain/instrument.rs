use vstd::prelude::*;

use super::{LotSize, Quantity, TickSize};

verus! {

/// Unique identifier for an instrument.
///
/// Chosen as `u64` to match the monotonic sequence space used for order ids and
/// sequences, keeping the address space uniform across the matching core.
#[derive(Debug, Clone, Copy, PartialEq, Eq, Hash, PartialOrd, Ord, Structural)]
pub struct InstrumentId(pub u64);

impl From<u64> for InstrumentId {
    fn from(value: u64) -> (r: Self) {
        InstrumentId(value)
    }
}

impl vstd::std_specs::convert::FromSpecImpl<u64> for InstrumentId {
    open spec fn obeys_from_spec() -> bool {
        true
    }

    open spec fn from_spec(v: u64) -> Self {
        InstrumentId(v)
    }
}

impl From<InstrumentId> for u64 {
    fn from(value: InstrumentId) -> (r: Self) {
        value.0
    }
}

impl vstd::std_specs::convert::FromSpecImpl<InstrumentId> for u64 {
    open spec fn obeys_from_spec() -> bool {
        true
    }

    open spec fn from_spec(v: InstrumentId) -> Self {
        v.0
    }
}

/// A tradable instrument and its static trading parameters.
#[derive(Debug)]
pub struct Instrument {
    pub id: InstrumentId,
    pub max_order_quantity: Quantity,
    pub name: String,
    pub ticker: String,
    pub tick_size: TickSize,
    pub lot_size: LotSize,
    pub book_cap: u64,
}

} // verus!
