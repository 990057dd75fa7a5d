//! Wall-clock timing of a run.

use vstd::prelude::*;

verus! {

/// std::time::Instant, opaque to the verifier: a reading of the monotonic
/// clock, meaningful only relative to another reading.
#[verifier::external_type_specification]
#[verifier::external_body]
pub struct ExInstant(std::time::Instant);

/// Relies on std::time::Instant::now. A clock reading depends on when it
/// is taken, so nothing can be promised of its value.
#[verifier::external_body]
fn instant_now() -> std::time::Instant {
    std::time::Instant::now()
}

/// Relies on std::time::Instant::duration_since: the time elapsed from
/// `earlier` to `later`, zero if `earlier` is in fact the later reading;
/// it never panics. Nothing can be promised of the amount.
#[verifier::external_body]
fn duration_between(earlier: &std::time::Instant, later: &std::time::Instant) -> core::time::Duration {
    later.duration_since(*earlier)
}

/// Remembers when it was created and reports the time elapsed since.
pub struct Clock {
    instant: std::time::Instant,
}

impl Clock {
    /// Start timing now.
    pub fn new() -> Self {
        Clock { instant: instant_now() }
    }

    /// The time elapsed since this clock was started.
    pub fn elapsed(&self) -> core::time::Duration {
        let now = instant_now();
        duration_between(&self.instant, &now)
    }
}

} // verus!
