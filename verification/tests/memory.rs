use merklespike::memory::{
    get_allocated_memory, get_net_allocated_memory, net_allocated, MemoryError,
};

#[test]
fn net_allocated_takes_the_base_off() {
    assert_eq!(net_allocated(Some(1000), 0), Ok(1000));
    assert_eq!(net_allocated(Some(1000), 400), Ok(600));
    assert_eq!(net_allocated(Some(1000), 1000), Ok(0));
    assert_eq!(net_allocated(Some(usize::MAX), 1), Ok(usize::MAX - 1));
}

#[test]
fn net_allocated_refuses_a_base_above_the_reading() {
    assert_eq!(net_allocated(Some(1000), 1001), Err(MemoryError::BelowBase));
    assert_eq!(net_allocated(Some(0), usize::MAX), Err(MemoryError::BelowBase));
}

#[test]
fn net_allocated_passes_a_failed_reading_on() {
    assert_eq!(net_allocated(None, 0), Err(MemoryError::Unavailable));
    assert_eq!(net_allocated(None, 5), Err(MemoryError::Unavailable));
}

#[test]
fn the_allocated_memory_is_never_below_a_base_of_zero() {
    assert_ne!(get_allocated_memory(), Err(MemoryError::BelowBase));
}

#[test]
fn the_net_memory_is_the_reading_less_the_base() {
    // only a reading of the largest word is not below that base
    match get_net_allocated_memory(usize::MAX) {
        Ok(n) => assert_eq!(n, 0),
        Err(e) => assert!(e == MemoryError::BelowBase || e == MemoryError::Unavailable),
    }
    if let Ok(a) = get_allocated_memory() {
        assert_eq!(net_allocated(Some(a), a), Ok(0));
        assert_eq!(get_net_allocated_memory(0).is_ok(), true);
    }
}
