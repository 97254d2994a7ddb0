//! Live traffic counters of a running rule, and the handle of its forwarding
//! task.
use vstd::prelude::*;
use std::sync::Arc;
use std::sync::atomic::{AtomicI64, AtomicU64};
use tokio_util::sync::CancellationToken;
use crate::rule::RuleStats;

verus! {

#[verifier::external_type_specification]
#[verifier::external_body]
pub struct ExCancellationToken(CancellationToken);

/// Counters that the forwarding tasks of one rule update as traffic passes.
/// They are shared with those tasks, so what they hold is only known when
/// they are read.
pub struct RuleCounters {
    pub bytes_up: Arc<AtomicU64>,
    pub bytes_down: Arc<AtomicU64>,
    pub connections: Arc<AtomicI64>,
}

/// The connection count that a snapshot reports for a raw counter value:
/// a counter that went below zero reads as zero.
pub open spec fn reported_connections(raw: i64) -> i64 {
    if raw < 0 {
        0
    } else {
        raw
    }
}

/// Whether `v` is what a relaxed load of the counter `a` gave.
pub open spec fn relaxed_load_gives(a: &AtomicU64, v: u64) -> bool {
    call_ensures(AtomicU64::load, (a, std::sync::atomic::Ordering::Relaxed), v)
}

/// Whether `v` is what a relaxed load of the signed counter `a` gave.
pub open spec fn relaxed_signed_load_gives(a: &AtomicI64, v: i64) -> bool {
    call_ensures(AtomicI64::load, (a, std::sync::atomic::Ordering::Relaxed), v)
}

/// Whether `s` reads the counters `c`: each byte count is what a load of
/// the matching counter gave, and the connection count is what a load of the
/// connection counter gave, a negative count read as zero.
pub open spec fn reads_counters(c: RuleCounters, s: RuleStats) -> bool {
    &&& relaxed_load_gives(&*c.bytes_up, s.bytes_up)
    &&& relaxed_load_gives(&*c.bytes_down, s.bytes_down)
    &&& exists|raw: i64| #[trigger]
        relaxed_signed_load_gives(&*c.connections, raw) && s.connections == reported_connections(raw)
}

/// The connection count reported for a raw counter value.
pub fn clamp_connections(raw: i64) -> (c: i64)
    ensures
        c == reported_connections(raw),
{
    if raw < 0 {
        0
    } else {
        raw
    }
}

impl RuleCounters {
    /// Three fresh counters, each starting at zero.
    pub fn new() -> (c: Self) {
        RuleCounters {
            bytes_up: Arc::new(AtomicU64::new(0)),
            bytes_down: Arc::new(AtomicU64::new(0)),
            connections: Arc::new(AtomicI64::new(0)),
        }
    }

    /// The counters as they read now: each field is what a load of the
    /// matching counter gave, with a negative connection count read as zero.
    pub fn snapshot(&self) -> (s: RuleStats)
        ensures
            s.connections >= 0,
            relaxed_load_gives(&*self.bytes_up, s.bytes_up),
            relaxed_load_gives(&*self.bytes_down, s.bytes_down),
            exists|raw: i64| #[trigger]
                relaxed_signed_load_gives(&*self.connections, raw) && s.connections == reported_connections(raw),
    {
        let up = self.bytes_up.load(std::sync::atomic::Ordering::Relaxed);
        let down = self.bytes_down.load(std::sync::atomic::Ordering::Relaxed);
        let raw = self.connections.load(std::sync::atomic::Ordering::Relaxed);
        assert(relaxed_signed_load_gives(&*self.connections, raw));
        RuleStats { bytes_up: up, bytes_down: down, connections: clamp_connections(raw) }
    }
}

/// The handle of a running rule's forwarding task: the token that stops it
/// and the counters it updates.
pub struct RunningTask {
    pub cancel: CancellationToken,
    pub counters: Arc<RuleCounters>,
}

impl RunningTask {
    /// Bundles a stop token with the counters of the task it stops.
    pub fn new(cancel: CancellationToken, counters: Arc<RuleCounters>) -> (t: Self)
        ensures
            t.cancel == cancel,
            t.counters == counters,
    {
        RunningTask { cancel, counters }
    }
}

} // verus!
