//! Retry and pacing decisions of the gateway and relay loops: exponential reconnect
//! backoff, the teleop TCP reconnect schedule, and the main loop's pause.

use vstd::prelude::*;

verus! {

/// First wait before reconnecting the teleop TCP link.
pub const TELEOP_RETRY_MIN_NS: u64 = 200000000;

/// Longest wait between teleop TCP reconnect attempts.
pub const TELEOP_RETRY_MAX_NS: u64 = 2000000000;

/// Least time between two warnings about a missing teleop TCP link.
pub const TELEOP_WARN_EVERY_NS: u64 = 15000000000;

/// Longest wait between camera WebSocket reconnect attempts.
pub const WS_RETRY_MAX_NS: u64 = 5000000000;

/// The wait after `backoff_ns`: doubled, at most `cap_ns`.
pub open spec fn doubled_capped(backoff_ns: u64, cap_ns: u64) -> u64 {
    if 2 * backoff_ns > cap_ns {
        cap_ns
    } else {
        (2 * backoff_ns) as u64
    }
}

/// The next reconnect wait: twice the last one, at most `cap_ns`.
pub fn next_backoff(backoff_ns: u64, cap_ns: u64) -> (r: u64)
    ensures
        r == doubled_capped(backoff_ns, cap_ns),
{
    if backoff_ns > cap_ns / 2 {
        cap_ns
    } else {
        backoff_ns * 2
    }
}

/// When to try the teleop TCP link again and when to warn about it again.
#[derive(Clone, Copy, Debug, PartialEq, Eq, Structural)]
pub struct TeleopRetry {
    pub backoff_ns: u64,
    pub next_try_ns: u64,
    pub next_warn_ns: u64,
}

impl TeleopRetry {
    /// A schedule that tries and warns at once, starting from the shortest wait.
    pub fn new(now_ns: u64) -> (r: Self)
        ensures
            r == (TeleopRetry {
                backoff_ns: TELEOP_RETRY_MIN_NS,
                next_try_ns: now_ns,
                next_warn_ns: now_ns,
            }),
    {
        TeleopRetry { backoff_ns: TELEOP_RETRY_MIN_NS, next_try_ns: now_ns, next_warn_ns: now_ns }
    }

    /// Whether to try connecting at `now_ns` (only while not connected).
    pub fn due(&self, connected: bool, now_ns: u64) -> (r: bool)
        ensures
            r == (!connected && now_ns >= self.next_try_ns),
    {
        !connected && now_ns >= self.next_try_ns
    }

    /// After a successful connect the wait starts over.
    pub fn on_connected(&mut self)
        ensures
            *final(self) == (TeleopRetry { backoff_ns: TELEOP_RETRY_MIN_NS, ..*old(self) }),
    {
        self.backoff_ns = TELEOP_RETRY_MIN_NS;
    }

    /// After a failed connect at `now_ns`: the next try waits the current backoff, which
    /// then doubles up to its cap; returns whether to warn, at most once per warning
    /// interval.
    pub fn on_connect_failed(&mut self, now_ns: u64) -> (warn: bool)
        requires
            now_ns <= u64::MAX - TELEOP_WARN_EVERY_NS,
            now_ns as int + old(self).backoff_ns <= u64::MAX,
        ensures
            warn == (now_ns >= old(self).next_warn_ns),
            final(self).next_warn_ns == if warn {
                (now_ns + TELEOP_WARN_EVERY_NS) as u64
            } else {
                old(self).next_warn_ns
            },
            final(self).next_try_ns == now_ns + old(self).backoff_ns,
            final(self).backoff_ns == doubled_capped(old(self).backoff_ns, TELEOP_RETRY_MAX_NS),
    {
        let warn = now_ns >= self.next_warn_ns;
        if warn {
            self.next_warn_ns = now_ns + TELEOP_WARN_EVERY_NS;
        }
        self.next_try_ns = now_ns + self.backoff_ns;
        self.backoff_ns = next_backoff(self.backoff_ns, TELEOP_RETRY_MAX_NS);
        warn
    }

    /// After a failed write at `now_ns` the link is retried at once with the shortest wait.
    pub fn on_write_failed(&mut self, now_ns: u64)
        ensures
            *final(self) == (TeleopRetry {
                backoff_ns: TELEOP_RETRY_MIN_NS,
                next_try_ns: now_ns,
                ..*old(self)
            }),
    {
        self.backoff_ns = TELEOP_RETRY_MIN_NS;
        self.next_try_ns = now_ns;
    }
}

/// How long the gateway's main loop lasts at least, in microseconds: short while
/// datagrams wait to be sent, longer after a JPEG, longest when idle.
pub fn loop_pause_us(pending: usize, got_jpeg: bool) -> (r: u64)
    ensures
        r == if pending > 0 {
            50u64
        } else if got_jpeg {
            200u64
        } else {
            500u64
        },
{
    if pending > 0 {
        50
    } else if got_jpeg {
        200
    } else {
        500
    }
}

/// The teleop reconnect wait never exceeds its cap, and each failure at most doubles it.
pub proof fn lemma_backoff_bounded(backoff_ns: u64, cap_ns: u64)
    requires
        backoff_ns <= cap_ns,
    ensures
        backoff_ns <= doubled_capped(backoff_ns, cap_ns) <= cap_ns,
        doubled_capped(backoff_ns, cap_ns) <= 2 * backoff_ns,
{
}

} // verus!
