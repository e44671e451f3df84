use vstd::prelude::*;

use super::report::{BookError, ExecutionReport};
use crate::domain::{OrderError, OrderId, OrderStatus};

verus! {

/// An order the engine refused at admission, with the status it ends in and why.
#[derive(Debug, Clone, Copy, PartialEq, Eq, Structural)]
pub struct RejectionReport {
    pub order_id: OrderId,
    pub status: OrderStatus,
    pub reason: RejectReason,
}

/// Why an order was refused at admission.
#[derive(Debug, Clone, Copy, PartialEq, Eq, Structural)]
pub enum RejectReason {
    InvalidOrder(OrderError),
    DuplicateOrder(OrderId),
    BookFull,
    QuantityOverflow,
}

/// What became of a submitted order.
#[derive(Debug, Clone, PartialEq, Eq)]
pub enum SubmitOutcome {
    Accepted(ExecutionReport),
    Rejected(RejectionReport),
}

/// A failure of the engine itself rather than of the order.
#[derive(Debug, Clone, Copy, PartialEq, Eq, Structural)]
pub enum EngineFault {
    SequenceExhausted,
    OrderNotFound(OrderId),
    PostAdmission(BookError),
}

/// The rejection reason of a book error that refuses an order at admission; `None`
/// for errors that are faults of the engine.
pub open spec fn admission_reason(error: BookError) -> Option<RejectReason> {
    match error {
        BookError::InvalidOrder(e) => Some(RejectReason::InvalidOrder(e)),
        BookError::DuplicateOrder(id) => Some(RejectReason::DuplicateOrder(id)),
        BookError::Full => Some(RejectReason::BookFull),
        BookError::QuantityOverflow => Some(RejectReason::QuantityOverflow),
        _ => None,
    }
}

/// The engine fault that a book error that is not an admission refusal stands for.
pub open spec fn fault_of(error: BookError) -> EngineFault {
    match error {
        BookError::SequenceExhausted => EngineFault::SequenceExhausted,
        BookError::OrderNotFound(id) => EngineFault::OrderNotFound(id),
        e => EngineFault::PostAdmission(e),
    }
}

impl RejectionReport {
    /// Classifies a book error met at admission: a refusal of the order becomes a
    /// rejection report in status `Rejected`; any other error is an engine fault.
    pub fn from_admission_error(order_id: OrderId, error: &BookError) -> (r: Result<Self, EngineFault>)
        ensures
            admission_reason(*error) matches Some(reason) ==> r == Ok::<Self, EngineFault>(
                RejectionReport { order_id, status: OrderStatus::Rejected, reason },
            ),
            admission_reason(*error) is None ==> r == Err::<Self, EngineFault>(fault_of(*error)),
    {
        let reason = match error {
            BookError::InvalidOrder(e) => RejectReason::InvalidOrder(*e),
            BookError::DuplicateOrder(id) => RejectReason::DuplicateOrder(*id),
            BookError::Full => RejectReason::BookFull,
            BookError::QuantityOverflow => RejectReason::QuantityOverflow,
            BookError::SequenceExhausted => {
                return Err(EngineFault::SequenceExhausted);
            },
            BookError::OrderNotFound(id) => {
                return Err(EngineFault::OrderNotFound(*id));
            },
        };
        Ok(RejectionReport { order_id, status: OrderStatus::Rejected, reason })
    }
}

impl EngineFault {
    /// The fault a book error stands for once the order was admitted.
    pub fn from_post_admission(error: BookError) -> (r: Self)
        ensures
            r == fault_of(error),
    {
        match error {
            BookError::SequenceExhausted => EngineFault::SequenceExhausted,
            BookError::OrderNotFound(order_id) => EngineFault::OrderNotFound(order_id),
            error => EngineFault::PostAdmission(error),
        }
    }

    /// The fault a book error stands for when a cancel fails.
    pub fn from_cancel_error(error: BookError) -> (r: Self)
        ensures
            r == (match error {
                BookError::OrderNotFound(id) => EngineFault::OrderNotFound(id),
                e => EngineFault::PostAdmission(e),
            }),
    {
        match error {
            BookError::OrderNotFound(order_id) => EngineFault::OrderNotFound(order_id),
            error => EngineFault::PostAdmission(error),
        }
    }
}

} // verus!
