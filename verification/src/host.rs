//! What activation shares with the host around it: a cancellation flag that other threads
//! may raise, and the monotonic clock.
use vstd::prelude::*;
use std::sync::Arc;
use std::sync::atomic::{AtomicBool, Ordering};
use std::time::{Duration, Instant, SystemTime, UNIX_EPOCH};

verus! {

#[verifier::external_type_specification]
#[verifier::external_body]
pub struct ExInstant(std::time::Instant);

/// A flag shared between the host and an activation in progress; once raised it stays raised.
/// A token made by `unraisable` has no flag: nothing can raise it.
#[derive(Clone, Debug)]
pub struct ActivationCancellation {
    cancelled: Option<Arc<AtomicBool>>,
}

impl ActivationCancellation {
    /// Whether the token has a flag that can be raised.
    pub closed spec fn raisable(&self) -> bool {
        self.cancelled is Some
    }

    pub fn new() -> (c: ActivationCancellation)
        ensures
            c.raisable(),
    {
        ActivationCancellation { cancelled: Some(Arc::new(AtomicBool::new(false))) }
    }

    /// A token that nothing can raise, for an activation that no one else can stop.
    pub fn unraisable() -> (c: ActivationCancellation)
        ensures
            !c.raisable(),
    {
        ActivationCancellation { cancelled: None }
    }

    /// Raises the flag for every clone of this token (a token without a flag stays unraised).
    pub fn cancel(&self) {
        match &self.cancelled {
            Some(flag) => flag.store(true, Ordering::SeqCst),
            None => {},
        }
    }

    /// Whether the flag has been raised; another thread may raise it at any moment, so only
    /// a token without a flag is known to answer no.
    pub fn is_cancelled(&self) -> (b: bool)
        ensures
            !self.raisable() ==> !b,
    {
        match &self.cancelled {
            Some(flag) => flag.load(Ordering::SeqCst),
            None => false,
        }
    }
}

/// `Instant::now`: the current reading of the monotonic clock.
#[verifier::external_body]
pub fn instant_now() -> (t: Instant) {
    Instant::now()
}

/// `Instant::elapsed`, in whole milliseconds (`Duration::as_millis`): the time since `t`.
#[verifier::external_body]
pub fn millis_since(t: &Instant) -> (ms: u128) {
    t.elapsed().as_millis()
}

/// The span of `ms` milliseconds, as `Duration::from_millis` gives it.
pub uninterp spec fn millis_duration(ms: u64) -> Duration;

/// `Duration::from_millis`; its result is named by `millis_duration`.
#[verifier::external_body]
pub fn duration_from_millis(ms: u64) -> (d: Duration)
    ensures
        d == millis_duration(ms),
{
    Duration::from_millis(ms)
}

/// `SystemTime::now`, in whole milliseconds since the Unix epoch (0 for a clock set before
/// it): the wall clock.
#[verifier::external_body]
pub fn epoch_millis() -> (ms: u128) {
    SystemTime::now().duration_since(UNIX_EPOCH).map(|d| d.as_millis()).unwrap_or(0)
}

} // verus!
