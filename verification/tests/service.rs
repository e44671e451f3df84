use ob::service::{validate_ring_capacity, SpawnError};

#[test]
fn api_invalid_ring_capacity_is_rejected() {
    let message = |capacity: usize| validate_ring_capacity(capacity).map_err(|error| error.message());
    assert_eq!(
        message(0),
        Err("ring capacity must be a power of two and at least 64")
    );
    assert_eq!(
        message(65),
        Err("ring capacity must be a power of two and at least 64")
    );
    assert_eq!(message(64), Ok(()));
}

#[test]
fn client_invalid_ring_capacity_is_rejected() {
    assert_eq!(
        validate_ring_capacity(0),
        Err(SpawnError::InvalidRingCapacity)
    );
    assert_eq!(
        validate_ring_capacity(65),
        Err(SpawnError::InvalidRingCapacity)
    );
    assert_eq!(validate_ring_capacity(64), Ok(()));
}

#[test]
fn ring_capacities_that_are_large_powers_of_two_are_accepted() {
    assert_eq!(validate_ring_capacity(1024), Ok(()));
    assert_eq!(validate_ring_capacity(1 << 20), Ok(()));
    assert_eq!(validate_ring_capacity(32), Err(SpawnError::InvalidRingCapacity));
    assert_eq!(validate_ring_capacity(96), Err(SpawnError::InvalidRingCapacity));
}
