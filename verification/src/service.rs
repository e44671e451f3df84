//! Decisions of the request layer that owns the engines: ring sizing, book reads by
//! depth, and the errors a client sees.

use vstd::prelude::*;

use crate::domain::{OrderSide, Symbol};
use crate::matching::{BookError, BookSnapshot, Engine, TopOfBook};

verus! {

/// The smallest command ring a symbol engine may be given.
pub const MINIMUM_RING_CAPACITY: usize = 64;

/// Requested book read depth.
#[derive(Debug, Clone, Copy, PartialEq, Eq, Structural)]
pub enum BookDepth {
    Top,
    Levels(usize),
    Full,
}

/// A book read result, shaped by the requested [`BookDepth`].
#[derive(Debug, Clone, PartialEq, Eq)]
pub enum BookView {
    Top(TopOfBook),
    Snapshot(BookSnapshot),
}

/// Failure returned when the engines cannot be started.
#[derive(Debug, Clone, Copy, PartialEq, Eq, Structural)]
pub enum SpawnError {
    /// The ring capacity is below 64 or not a power of two.
    InvalidRingCapacity,
}

impl SpawnError {
    /// The error's message.
    pub fn message(&self) -> (r: &'static str)
        ensures
            r@ == "ring capacity must be a power of two and at least 64"@,
    {
        match self {
            SpawnError::InvalidRingCapacity => "ring capacity must be a power of two and at least 64",
        }
    }
}

/// Failure returned by the exchange client's operations.
#[derive(Debug, Clone, Copy, PartialEq, Eq, Structural)]
pub enum ServiceError {
    /// No engine is configured for the symbol.
    UnknownSymbol(Symbol),
    /// The symbol's command ring is full.
    Overloaded,
    /// The symbol's engine consumer has stopped.
    Unavailable,
    /// The engine refused the command.
    Book(BookError),
}

impl From<BookError> for ServiceError {
    fn from(error: BookError) -> (r: Self) {
        ServiceError::Book(error)
    }
}

impl vstd::std_specs::convert::FromSpecImpl<BookError> for ServiceError {
    open spec fn obeys_from_spec() -> bool {
        true
    }

    open spec fn from_spec(v: BookError) -> Self {
        ServiceError::Book(v)
    }
}

/// Whether `n` is a power of two.
pub open spec fn is_power_of_two(n: nat) -> bool
    decreases n,
{
    if n == 1 {
        true
    } else if n >= 2 && n % 2 == 0 {
        is_power_of_two(n / 2)
    } else {
        false
    }
}

/// Whether `n` is a power of two.
pub fn power_of_two(n: usize) -> (r: bool)
    ensures
        r == is_power_of_two(n as nat),
{
    let mut x = n;
    while x >= 2 && x % 2 == 0
        invariant
            is_power_of_two(x as nat) == is_power_of_two(n as nat),
        decreases x,
    {
        x = x / 2;
    }
    x == 1
}

/// Accepts a ring capacity that is a power of two and at least 64.
pub fn validate_ring_capacity(capacity: usize) -> (r: Result<(), SpawnError>)
    ensures
        r is Ok == (capacity >= MINIMUM_RING_CAPACITY && is_power_of_two(capacity as nat)),
        r is Err ==> r == Err::<(), SpawnError>(SpawnError::InvalidRingCapacity),
{
    if capacity < MINIMUM_RING_CAPACITY || !power_of_two(capacity) {
        return Err(SpawnError::InvalidRingCapacity);
    }
    Ok(())
}

/// Reads `engine`'s book at the requested depth: the best level of each side, the
/// best `n` levels of each side, or every level.
pub fn book_view(engine: &Engine, depth: BookDepth) -> (r: BookView)
    requires
        engine.wf(),
    ensures
        match depth {
            BookDepth::Top => r matches BookView::Top(top) && top.bid
                == crate::matching::model::top_level(engine@.book.bids, OrderSide::Buy) && top.ask
                == crate::matching::model::top_level(engine@.book.asks, OrderSide::Sell),
            BookDepth::Levels(n) => r matches BookView::Snapshot(snapshot)
                && crate::matching::model::lists_best_levels(
                engine@.book.bids,
                OrderSide::Buy,
                n as nat,
                snapshot.bids@,
            ) && crate::matching::model::lists_best_levels(
                engine@.book.asks,
                OrderSide::Sell,
                n as nat,
                snapshot.asks@,
            ),
            BookDepth::Full => r matches BookView::Snapshot(snapshot)
                && crate::matching::model::lists_best_levels(
                engine@.book.bids,
                OrderSide::Buy,
                engine@.book.bids.dom().len(),
                snapshot.bids@,
            ) && crate::matching::model::lists_best_levels(
                engine@.book.asks,
                OrderSide::Sell,
                engine@.book.asks.dom().len(),
                snapshot.asks@,
            ),
        },
{
    match depth {
        BookDepth::Top => BookView::Top(engine.top_of_book()),
        BookDepth::Levels(levels) => BookView::Snapshot(engine.depth(levels)),
        BookDepth::Full => BookView::Snapshot(engine.snapshot()),
    }
}

/// What a power of two is: 1 is one, doubling a positive number neither makes nor
/// unmakes one, and an odd number above 1 is none. So exactly the numbers `2^k` are
/// powers of two, and every `2^k` of at least 64 is an accepted ring capacity.
pub proof fn law_power_of_two(n: nat)
    ensures
        is_power_of_two(1),
        n >= 1 ==> is_power_of_two(2 * n) == is_power_of_two(n),
        n > 1 && n % 2 == 1 ==> !is_power_of_two(n),
        !is_power_of_two(0),
{
    if n >= 1 {
        assert((2 * n) % 2 == 0 && (2 * n) / 2 == n);
    }
}

} // verus!
