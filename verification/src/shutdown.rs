//! How far the shutdown of a dump has gone.
//!
//! The first request stops the dump, the second one also stops what runs after it.
use vstd::prelude::*;

verus! {

/// No stop was requested.
pub const STATE_RUNNING: u8 = 0;

/// A stop was requested.
pub const STATE_STOPPING: u8 = 1;

/// A stop was requested again.
pub const STATE_FORCE: u8 = 2;

/// Whether the dump goes on.
pub fn keep_running(state: u8) -> (r: bool)
    ensures
        r == (state == STATE_RUNNING),
{
    state == STATE_RUNNING
}

/// Whether the work after the dump goes on.
pub fn keep_finalizing(state: u8) -> (r: bool)
    ensures
        r == (state < STATE_FORCE),
{
    state < STATE_FORCE
}

/// The state after a request, if it changes it.
pub open spec fn stopped(state: u8) -> Option<u8> {
    if state >= STATE_FORCE {
        None
    } else {
        Some((state + 1) as u8)
    }
}

/// The state after a request to stop, if it changes it.
pub fn request_stop(state: u8) -> (r: Option<u8>)
    ensures
        r == stopped(state),
{
    if state >= STATE_FORCE {
        None
    } else {
        Some(state + 1)
    }
}

/// Whether a stop was requested.
pub fn is_stopping(state: u8) -> (r: bool)
    ensures
        r == (state >= STATE_STOPPING),
{
    state >= STATE_STOPPING
}

/// The state after a number of requests.
pub open spec fn after_requests(state: u8, n: nat) -> u8
    decreases n,
{
    if n == 0 {
        state
    } else {
        let before = after_requests(state, (n - 1) as nat);
        match stopped(before) {
            Some(next) => next,
            None => before,
        }
    }
}

/// One request stops the dump and leaves the work after it running; two or more stop that
/// too, and nothing starts again.
pub proof fn law_requests_only_stop(n: nat)
    ensures
        after_requests(STATE_RUNNING, n) == (if n == 0 {
            STATE_RUNNING
        } else if n == 1 {
            STATE_STOPPING
        } else {
            STATE_FORCE
        }),
    decreases n,
{
    if n > 0 {
        law_requests_only_stop((n - 1) as nat);
    }
}

/// The three states are apart, and a request leads from each to the next.
pub proof fn law_states_follow_each_other(state: u8)
    ensures
        STATE_RUNNING == 0 && STATE_STOPPING == 1 && STATE_FORCE == 2,
        state < 2 ==> stopped(state) == Some((state + 1) as u8),
        state >= 2 ==> stopped(state) is None,
{
}

} // verus!
