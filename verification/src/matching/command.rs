use vstd::prelude::*;

use super::outcome::{EngineFault, SubmitOutcome};
use crate::domain::{Order, OrderError, OrderId};

verus! {

/// A command processed by the single engine writer.
#[derive(Debug, Clone, Copy, PartialEq, Eq, Structural)]
pub enum EngineCommand {
    Submit(Order),
    Cancel(OrderId),
}

/// The result produced after processing an [`EngineCommand`].
#[derive(Debug, PartialEq, Eq)]
pub enum EngineReply {
    Submit(Result<SubmitOutcome, EngineFault>),
    Cancel(Result<Order, EngineFault>),
}

/// Why a command was not queued for the engine.
#[derive(Debug, Clone, Copy, PartialEq, Eq, Structural)]
pub enum CommandQueueError {
    /// The engine command queue is full.
    Full,
    /// The engine worker has stopped.
    WorkerStopped,
    /// The order breaks a validation rule.
    InvalidOrder(OrderError),
}

impl From<OrderError> for CommandQueueError {
    fn from(error: OrderError) -> (r: Self) {
        CommandQueueError::InvalidOrder(error)
    }
}

impl vstd::std_specs::convert::FromSpecImpl<OrderError> for CommandQueueError {
    open spec fn obeys_from_spec() -> bool {
        true
    }

    open spec fn from_spec(v: OrderError) -> Self {
        CommandQueueError::InvalidOrder(v)
    }
}

impl EngineCommand {
    /// Checks what can be checked before a command is queued: a submitted order must
    /// pass validation; a cancel always passes.
    pub fn validate_basic(&self) -> (r: Result<(), CommandQueueError>)
        ensures
            r == (match *self {
                EngineCommand::Submit(order) => match order.validation_error() {
                    Some(e) => Err::<(), CommandQueueError>(CommandQueueError::InvalidOrder(e)),
                    None => Ok(()),
                },
                EngineCommand::Cancel(_) => Ok(()),
            }),
    {
        match self {
            EngineCommand::Submit(order) => match order.validate() {
                Ok(()) => Ok(()),
                Err(e) => Err(CommandQueueError::from(e)),
            },
            EngineCommand::Cancel(_) => Ok(()),
        }
    }
}

} // verus!
