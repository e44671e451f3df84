use vstd::prelude::*;

verus! {

/// Lifecycle state of an order.
#[derive(Debug, Clone, Copy, PartialEq, Eq, Structural)]
pub enum OrderStatus {
    New,
    Accepted,
    Rejected,
    PartiallyFilled,
    Filled,
    Cancelled,
}

/// A lifecycle step that the order lifecycle does not permit.
#[derive(Debug, Clone, Copy, PartialEq, Eq, Structural)]
pub struct StatusTransitionError {
    pub from: OrderStatus,
    pub to: OrderStatus,
}

impl OrderStatus {
    /// The lifecycle: a new order is accepted or rejected; an accepted or partially
    /// filled order may be (further) partially filled, filled or cancelled. Nothing
    /// else moves, and the terminal states (rejected, filled, cancelled) never move.
    pub open spec fn may_transition(self, next: OrderStatus) -> bool {
        match (self, next) {
            (OrderStatus::New, OrderStatus::Accepted) => true,
            (OrderStatus::New, OrderStatus::Rejected) => true,
            (OrderStatus::Accepted, OrderStatus::PartiallyFilled) => true,
            (OrderStatus::Accepted, OrderStatus::Filled) => true,
            (OrderStatus::Accepted, OrderStatus::Cancelled) => true,
            (OrderStatus::PartiallyFilled, OrderStatus::PartiallyFilled) => true,
            (OrderStatus::PartiallyFilled, OrderStatus::Filled) => true,
            (OrderStatus::PartiallyFilled, OrderStatus::Cancelled) => true,
            _ => false,
        }
    }

    /// Whether no transition leaves this status.
    pub open spec fn is_terminal(self) -> bool {
        self == OrderStatus::Rejected || self == OrderStatus::Filled || self
            == OrderStatus::Cancelled
    }

    /// Advances this status when the requested lifecycle transition is valid;
    /// otherwise leaves it unchanged and reports the refused step.
    pub fn transition_to(&mut self, next: OrderStatus) -> (r: Result<(), StatusTransitionError>)
        ensures
            old(self).may_transition(next) ==> r is Ok && *final(self) == next,
            !old(self).may_transition(next) ==> r == Err::<(), StatusTransitionError>(
                StatusTransitionError { from: *old(self), to: next },
            ),
            !old(self).may_transition(next) ==> *final(self) == *old(self),
    {
        let valid = match (*self, next) {
            (OrderStatus::New, OrderStatus::Accepted) => true,
            (OrderStatus::New, OrderStatus::Rejected) => true,
            (OrderStatus::Accepted, OrderStatus::PartiallyFilled) => true,
            (OrderStatus::Accepted, OrderStatus::Filled) => true,
            (OrderStatus::Accepted, OrderStatus::Cancelled) => true,
            (OrderStatus::PartiallyFilled, OrderStatus::PartiallyFilled) => true,
            (OrderStatus::PartiallyFilled, OrderStatus::Filled) => true,
            (OrderStatus::PartiallyFilled, OrderStatus::Cancelled) => true,
            _ => false,
        };
        if !valid {
            return Err(StatusTransitionError { from: *self, to: next });
        }
        *self = next;
        Ok(())
    }
}

/// Terminal statuses admit no transition, whatever is requested.
pub proof fn lemma_terminal_status_is_final(from: OrderStatus, to: OrderStatus)
    requires
        from.is_terminal(),
    ensures
        !from.may_transition(to),
{
}

/// The order lifecycle in full: a new order may only be accepted or rejected, an
/// accepted or partially filled order may only be (further) partially filled, filled
/// or cancelled, and no other status ever moves.
pub proof fn law_order_lifecycle(from: OrderStatus, to: OrderStatus)
    ensures
        from.may_transition(to) <==> (from == OrderStatus::New && (to == OrderStatus::Accepted
            || to == OrderStatus::Rejected)) || ((from == OrderStatus::Accepted || from
            == OrderStatus::PartiallyFilled) && (to == OrderStatus::PartiallyFilled || to
            == OrderStatus::Filled || to == OrderStatus::Cancelled)),
        from == OrderStatus::New && from.may_transition(to) ==> to == OrderStatus::Accepted || to
            == OrderStatus::Rejected,
{
}

} // verus!
