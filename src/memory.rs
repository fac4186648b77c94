use vstd::prelude::*;

verus! {

/// The memory size, in bytes, from which the canister counts as full: 40 GiB.
pub const MEMORY_LIMIT_BYTES: u64 = 40 * 1024 * 1024 * 1024;

/// Whether a canister using `memory_size` bytes is full.
pub fn memory_is_full(memory_size: u128) -> (r: bool)
    ensures
        r == (memory_size >= MEMORY_LIMIT_BYTES as u128),
{
    memory_size >= MEMORY_LIMIT_BYTES as u128
}

} // verus!
