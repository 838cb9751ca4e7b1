//! When to clean up, when to try a run again, and how much a cache may keep.

use vstd::prelude::*;

use crate::budget::capped;

verus! {

/// How many cycles lie between two cleanups.
pub const CLEANUP_CYCLES: u32 = 360;

/// How often a run is taken up again after the database was gone.
pub const RECOVERIES_MAX: u64 = 3;

/// How often a cache is trimmed in one cleanup.
pub const TRIM_ROUNDS: u32 = 20;

/// The number of caches that share the room.
pub const CACHES: u64 = 3;

/// Whether a cycle cleans up: every so many cycles, while no run is active.
pub fn cleanup_due(cycle: u32, active: bool) -> (r: bool)
    ensures
        r == (cycle % CLEANUP_CYCLES == 0 && !active),
{
    cycle % CLEANUP_CYCLES == 0 && !active
}

/// The number of the next cycle.
pub fn next_cycle(cycle: u32) -> (r: u32)
    ensures
        r == (if cycle == u32::MAX {
            0
        } else {
            cycle + 1
        }),
{
    cycle.wrapping_add(1)
}

/// Whether a run is taken up again, and the count that is then written down.
pub fn recover_again(recoveries: u64) -> (r: Option<u64>)
    ensures
        r == (if recoveries >= RECOVERIES_MAX {
            None::<u64>
        } else {
            Some((recoveries + 1) as u64)
        }),
{
    if recoveries >= RECOVERIES_MAX {
        None
    } else {
        Some(recoveries + 1)
    }
}

/// The bytes that each cache may keep.
pub open spec fn cache_share(megabytes: u64) -> nat {
    capped((megabytes * 1_048_576) as nat) / CACHES as nat
}

/// The bytes that each cache may keep.
pub fn cache_limit(megabytes: u64) -> (r: u64)
    ensures
        r == cache_share(megabytes),
{
    let bytes: u64 = if megabytes > 17_592_186_044_415 {
        u64::MAX
    } else {
        megabytes * 1_048_576
    };
    bytes / CACHES
}

/// Whether a cache of some size is trimmed once more.
pub fn trim_again(bytes: u64, limit: u64, rounds: u32) -> (r: bool)
    ensures
        r == (bytes > limit && rounds < TRIM_ROUNDS),
{
    bytes > limit && rounds < TRIM_ROUNDS
}

/// The caches together keep no more than the setting allows.
pub proof fn caches_stay_within_the_setting(megabytes: u64)
    ensures
        CACHES * cache_share(megabytes) <= megabytes * 1_048_576,
{
    let bytes = capped((megabytes * 1_048_576) as nat);
    assert(3 * (bytes / 3) <= bytes);
}

} // verus!
