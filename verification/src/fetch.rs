//! The polite fetcher's shared pacing and backoff state.
//!
//! One pacer is shared by all fetching callers.  A request may only be
//! issued once more than the current wait has passed since the last
//! one; on a server error the wait doubles up to a cap, and any
//! success resets it to the initial value.  The clock is supplied by
//! the caller as whole seconds, so the state machine itself is exact.

use vstd::prelude::*;

verus! {

/// The wait the pacer starts with and returns to after a success.
pub const INITIAL_WAIT_S: u64 = 3;

/// The largest wait the backoff can reach.
pub const MAX_WAIT_S: u64 = 300;

/// What the caller should do with a response.
#[derive(Debug, PartialEq, Eq, Structural, Clone, Copy)]
pub enum FetchDecision {
    /// Hand the response to the caller (success, or a client error
    /// the caller decides about).
    Deliver,
    /// A server error: wait and fetch again.
    Retry,
}

/// The process-wide pacing state.
pub struct Pacer {
    /// Seconds (since the pacer's epoch) of the last issued request.
    pub last_request_s: u64,
    /// The current minimum spacing between requests, in seconds.
    pub current_wait_s: u64,
}

/// The wait never leaves the band between the initial value and cap.
pub open spec fn pacer_wf(p: Pacer) -> bool {
    INITIAL_WAIT_S <= p.current_wait_s <= MAX_WAIT_S
}

/// The doubled wait, capped.
pub open spec fn doubled_wait(w: u64) -> u64 {
    if 2 * w <= MAX_WAIT_S {
        (2 * w) as u64
    } else {
        MAX_WAIT_S
    }
}

/// Seconds elapsed since the last request (zero if the clock moved
/// backwards).
pub open spec fn elapsed_since(p: Pacer, now_s: u64) -> int {
    if now_s >= p.last_request_s {
        now_s - p.last_request_s
    } else {
        0
    }
}

impl Pacer {
    /// A fresh pacer: no request issued yet, initial wait.
    pub fn new() -> (r: Pacer)
        ensures
            r.last_request_s == 0,
            r.current_wait_s == INITIAL_WAIT_S,
            pacer_wf(r),
    {
        Pacer { last_request_s: 0, current_wait_s: INITIAL_WAIT_S }
    }

    /// Whether enough time has passed to issue the next request:
    /// strictly more than the current wait since the last one.
    pub fn ready(&self, now_s: u64) -> (r: bool)
        ensures
            r == (elapsed_since(*self, now_s) > self.current_wait_s),
    {
        if now_s >= self.last_request_s {
            now_s - self.last_request_s > self.current_wait_s
        } else {
            false
        }
    }

    /// Note that a request is being issued now.
    pub fn note_request(&mut self, now_s: u64)
        ensures
            final(self).last_request_s == now_s,
            final(self).current_wait_s == old(self).current_wait_s,
    {
        self.last_request_s = now_s;
    }

    /// Account for a response's status code: a success resets the
    /// wait, a server error doubles it (up to the cap) and asks for a
    /// retry, anything else is handed to the caller unchanged.
    pub fn on_status(&mut self, status: u16) -> (d: FetchDecision)
        ensures
            final(self).last_request_s == old(self).last_request_s,
            200 <= status < 300 ==> d == FetchDecision::Deliver && final(self).current_wait_s
                == INITIAL_WAIT_S,
            500 <= status < 600 ==> d == FetchDecision::Retry && final(self).current_wait_s
                == doubled_wait(old(self).current_wait_s),
            !(200 <= status < 300) && !(500 <= status < 600) ==> d == FetchDecision::Deliver
                && final(self).current_wait_s == old(self).current_wait_s,
            pacer_wf(*old(self)) ==> pacer_wf(*final(self)),
    {
        if 200 <= status && status < 300 {
            self.current_wait_s = INITIAL_WAIT_S;
            FetchDecision::Deliver
        } else if 500 <= status && status < 600 {
            let w = self.current_wait_s;
            self.current_wait_s = if w <= MAX_WAIT_S / 2 {
                2 * w
            } else {
                MAX_WAIT_S
            };
            FetchDecision::Retry
        } else {
            FetchDecision::Deliver
        }
    }
}

/// After a success the wait is back at the initial value, and each
/// further server error at most doubles it: backoff is exponential
/// from the initial wait, capped.
pub proof fn lemma_backoff_band(p: Pacer)
    requires
        pacer_wf(p),
    ensures
        doubled_wait(p.current_wait_s) <= MAX_WAIT_S,
        doubled_wait(p.current_wait_s) >= p.current_wait_s,
{
}

} // verus!
