use vstd::prelude::*;

verus! {

/// `jemalloc_ctl::Error`: the error that jemalloc's control interface reports.
/// Nothing is known of what it holds.
#[verifier::external_type_specification]
#[verifier::external_body]
pub struct ExControlError(jemalloc_ctl::Error);

/// Why a reading of the allocator's statistics came to nothing.
#[derive(Clone, Copy, Debug, PartialEq, Eq, Structural)]
pub enum MemoryError {
    /// The allocator's statistics could not be refreshed or read.
    Unavailable,
    /// Fewer bytes are allocated than the base that was to be taken off.
    BelowBase,
}

/// The bytes allocated beyond a base, from a reading of the bytes allocated.
pub open spec fn net_of(reading: Option<usize>, relative_to_base: usize) -> Result<
    usize,
    MemoryError,
> {
    match reading {
        None => Err(MemoryError::Unavailable),
        Some(a) => if relative_to_base <= a {
            Ok((a - relative_to_base) as usize)
        } else {
            Err(MemoryError::BelowBase)
        },
    }
}

/// `jemalloc_ctl::epoch::advance`: asks jemalloc to refresh its cached statistics.
/// Nothing is claimed of what it returns.
#[verifier::external_body]
fn advance_epoch() -> Result<u64, jemalloc_ctl::Error> {
    jemalloc_ctl::epoch::advance()
}

/// `jemalloc_ctl::stats::allocated::read`: the bytes that the application has
/// allocated, as of the last refresh. Nothing is claimed of what it returns.
#[verifier::external_body]
fn read_allocated() -> Result<usize, jemalloc_ctl::Error> {
    jemalloc_ctl::stats::allocated::read()
}

/// The bytes allocated beyond `relative_to_base`, given a reading of the bytes
/// allocated, or `None` for a reading that failed.
pub fn net_allocated(reading: Option<usize>, relative_to_base: usize) -> (r: Result<
    usize,
    MemoryError,
>)
    ensures
        r == net_of(reading, relative_to_base),
{
    match reading {
        None => Err(MemoryError::Unavailable),
        Some(a) => {
            if relative_to_base <= a {
                Ok(a - relative_to_base)
            } else {
                Err(MemoryError::BelowBase)
            }
        },
    }
}

/// Refreshes the allocator's statistics and reads the bytes allocated; `None`
/// where either step fails.
fn read_allocated_memory() -> (r: Option<usize>) {
    match advance_epoch() {
        Ok(_) => match read_allocated() {
            Ok(a) => Some(a),
            Err(_) => None,
        },
        Err(_) => None,
    }
}

/// The bytes now allocated beyond `relative_to_base`. What comes back is
/// `net_allocated` of some reading and the base.
pub fn get_net_allocated_memory(relative_to_base: usize) -> (r: Result<usize, MemoryError>)
    ensures
        exists|reading: Option<usize>| r == net_of(reading, relative_to_base),
{
    let reading = read_allocated_memory();
    net_allocated(reading, relative_to_base)
}

/// The bytes now allocated. A base of zero is never above the reading.
pub fn get_allocated_memory() -> (r: Result<usize, MemoryError>)
    ensures
        r != Err::<usize, MemoryError>(MemoryError::BelowBase),
        exists|reading: Option<usize>| r == net_of(reading, 0),
{
    get_net_allocated_memory(0)
}

} // verus!
