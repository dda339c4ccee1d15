//! Decisions of the virtual file-descriptor cache.
//!
//! Virtual files keep their position themselves and borrow real
//! descriptors from a fixed slot array, evicting with a clock sweep.
//! The descriptors and the sweep's locks live with the unverified rim;
//! this module decides seek positions and sweep steps from plain
//! values.

use vstd::prelude::*;

use crate::error::RepoError;

verus! {

/// Where a seek is asked to go, relative to what the caller tracks.
/// Seeks from the end need the file's length and stay with the rim.
#[derive(Clone, Copy, Debug, PartialEq, Eq, Structural)]
pub enum SeekPos {
    /// To this absolute offset.
    Start(u64),
    /// This far from the current position.
    Current(i64),
}

/// The position a seek moves to: absolute offsets as they are, relative
/// offsets added to the current position, refusing a move before byte
/// zero or past the offset range.
pub fn seek_calc(pos: u64, from: SeekPos) -> (r: Result<u64, RepoError>)
    ensures
        (match from {
            SeekPos::Start(off) => r == Ok::<u64, RepoError>(off),
            SeekPos::Current(off) => {
                if 0 <= pos + off <= u64::MAX {
                    r == Ok::<u64, RepoError>((pos + off) as u64)
                } else {
                    r == Err::<u64, RepoError>(RepoError::InvalidRequest)
                }
            },
        }),
{
    match from {
        SeekPos::Start(off) => Ok(off),
        SeekPos::Current(off) => {
            if off >= 0 {
                let delta = off as u64;
                if pos <= u64::MAX - delta {
                    Ok(pos + delta)
                } else {
                    Err(RepoError::InvalidRequest)
                }
            } else {
                let back: u64 = if off == i64::MIN {
                    0x8000000000000000u64
                } else {
                    (-off) as u64
                };
                if pos >= back {
                    Ok(pos - back)
                } else {
                    Err(RepoError::InvalidRequest)
                }
            }
        },
    }
}

/// One step of the clock sweep.
#[derive(Clone, Copy, Debug, PartialEq, Eq, Structural)]
pub enum SweepStep {
    /// Take this slot: not recently used and free to lock.
    UseSlot,
    /// Move the clock hand on.
    Advance,
    /// Every slot stayed busy for two full turns: block on the next one.
    WaitForSlot,
}

/// Decide one step of the clock sweep over the slot under the hand:
/// take a slot that is neither recently used nor locked, keep sweeping
/// otherwise, and after two full turns without a victim stop sweeping
/// and wait.
pub fn sweep_decision(recently_used: bool, lock_available: bool, retries: u64, num_slots: u64) -> (r:
    SweepStep)
    requires
        num_slots < 0x8000000000000000,
    ensures
        retries < 2 * num_slots ==> (r == (if !recently_used && lock_available {
            SweepStep::UseSlot
        } else {
            SweepStep::Advance
        })),
        retries >= 2 * num_slots ==> r == SweepStep::WaitForSlot,
{
    if retries < 2 * num_slots {
        if !recently_used && lock_available {
            SweepStep::UseSlot
        } else {
            SweepStep::Advance
        }
    } else {
        SweepStep::WaitForSlot
    }
}

} // verus!
