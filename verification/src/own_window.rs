//! Floating the windows of this program. The compositor may not know a new window yet, so it is
//! asked a few times; the window that has the focus is never touched, because it may be another's.

use vstd::prelude::*;

verus! {

/// The time between two attempts, in milliseconds.
pub const RETRY_MS: u64 = 120;

/// How many attempts there are.
pub const ATTEMPTS: u32 = 5;

/// How many attempts there are to float the window of this program, from now on.
pub fn float_own_window_soon() -> (remaining: u32)
    ensures
        remaining == ATTEMPTS,
{
    ATTEMPTS
}

/// What follows from an attempt: nothing if it succeeded or was the last one, else another one,
/// after which so many remain.
pub fn attempt(remaining: u32, floated: bool) -> (next: Option<u32>)
    ensures
        next == if !floated && remaining > 1 {
            Some((remaining - 1) as u32)
        } else {
            None
        },
{
    if floated {
        return None;
    }
    if remaining > 1 {
        Some(remaining - 1)
    } else {
        None
    }
}

/// How often the compositor is asked if it never succeeds.
pub open spec fn attempts_made(remaining: u32) -> nat
    decreases remaining,
{
    if remaining > 1 {
        1 + attempts_made((remaining - 1) as u32)
    } else {
        1
    }
}

/// There is an end to the attempts.
pub proof fn the_attempts_are_bounded(remaining: u32)
    ensures
        attempts_made(remaining) == if remaining > 1 {
            remaining as nat
        } else {
            1
        },
    decreases remaining,
{
    if remaining > 1 {
        the_attempts_are_bounded((remaining - 1) as u32);
    }
}

/// A window that floats is not tried again, and one that does not is tried one time fewer until no
/// attempt is left.
pub proof fn attempts_run_out(remaining: u32, floated: bool, next: Option<u32>)
    requires
        call_ensures(attempt, (remaining, floated), next),
    ensures
        floated ==> next is None,
        !floated && remaining <= 1 ==> next is None,
        !floated && remaining > 1 ==> next is Some && next->0 + 1 == remaining,
{
}

} // verus!
