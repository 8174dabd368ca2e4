//! The start of a simulation: its seeds, and the wait for contestants.
use vstd::prelude::*;

verus! {

/// Seconds that contestants have to get ready.
pub const BOOT_WAIT_SECS: u64 = 30;

/// The seeds of the parts of a simulation.
#[derive(Debug, Clone, Copy, PartialEq, Eq, Structural)]
pub struct Seeds {
    pub market: u64,
    pub feed: u64,
    pub contestant_id: u64,
}

/// `seed + n`, wrapped around.
pub open spec fn later_seed(seed: u64, n: int) -> u64 {
    ((seed + n) % 0x1_0000_0000_0000_0000) as u64
}

/// Derives the seed of each part from the master seed. The parts draw from different ones.
pub fn seeds_of(seed: u64) -> (r: Seeds)
    ensures
        r.market == seed,
        r.feed == later_seed(seed, 1),
        r.contestant_id == later_seed(seed, 2),
        r.market != r.feed && r.feed != r.contestant_id && r.market != r.contestant_id,
{
    Seeds { market: seed, feed: seed.wrapping_add(1), contestant_id: seed.wrapping_add(2) }
}

/// What to do about the contestants that are ready.
#[derive(Debug, Clone, Copy, PartialEq, Eq, Structural)]
pub enum BootStep {
    /// More are ready than were expected.
    TooMany,
    /// All are ready: the run starts.
    Start,
    /// Some are missing, and the time is up.
    TimedOut,
    /// Some are missing: wait for another second.
    Wait,
}

/// Looks at the contestants that are ready after so many seconds.
pub fn boot_step(ready: usize, expected: usize, elapsed_secs: u64) -> (r: BootStep)
    ensures
        r == if ready > expected {
            BootStep::TooMany
        } else if ready == expected {
            BootStep::Start
        } else if elapsed_secs > BOOT_WAIT_SECS {
            BootStep::TimedOut
        } else {
            BootStep::Wait
        },
{
    if ready > expected {
        BootStep::TooMany
    } else if ready == expected {
        BootStep::Start
    } else if elapsed_secs > BOOT_WAIT_SECS {
        BootStep::TimedOut
    } else {
        BootStep::Wait
    }
}

/// A later seed is so much larger, wrapped around at 64 bits.
pub proof fn lemma_later_seed_is(seed: u64, n: int)
    requires
        0 <= n <= u64::MAX,
    ensures
        seed + n <= u64::MAX ==> later_seed(seed, n) == seed + n,
        seed + n > u64::MAX ==> later_seed(seed, n) == seed + n - u64::MAX - 1,
{
}

} // verus!
