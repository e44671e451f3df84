use ob::domain::{OrderStatus, StatusTransitionError};

#[test]
fn valid_lifecycle_transitions_are_allowed() {
    let valid = [
        (OrderStatus::New, OrderStatus::Accepted),
        (OrderStatus::New, OrderStatus::Rejected),
        (OrderStatus::Accepted, OrderStatus::PartiallyFilled),
        (OrderStatus::Accepted, OrderStatus::Filled),
        (OrderStatus::Accepted, OrderStatus::Cancelled),
        (OrderStatus::PartiallyFilled, OrderStatus::PartiallyFilled),
        (OrderStatus::PartiallyFilled, OrderStatus::Filled),
        (OrderStatus::PartiallyFilled, OrderStatus::Cancelled),
    ];

    for (from, to) in valid {
        let mut status = from;
        assert_eq!(status.transition_to(to), Ok(()));
        assert_eq!(status, to);
    }
}

#[test]
fn terminal_and_invalid_transitions_are_rejected() {
    let invalid = [
        (OrderStatus::New, OrderStatus::Filled),
        (OrderStatus::Accepted, OrderStatus::Rejected),
        (OrderStatus::PartiallyFilled, OrderStatus::Accepted),
        (OrderStatus::Filled, OrderStatus::Cancelled),
        (OrderStatus::Cancelled, OrderStatus::Accepted),
        (OrderStatus::Rejected, OrderStatus::Accepted),
    ];

    for (from, to) in invalid {
        let mut status = from;
        assert_eq!(
            status.transition_to(to),
            Err(StatusTransitionError { from, to })
        );
        assert_eq!(status, from);
    }
}
