//! How long things take.

use vstd::prelude::*;

verus! {

/// A moment of the machine's clock.
#[verifier::external_type_specification]
#[verifier::external_body]
pub struct ExInstant(std::time::Instant);

/// `Instant::now`: the moment of the call. Nothing is claimed of it.
pub assume_specification[ std::time::Instant::now ]() -> (r: std::time::Instant)
;

/// `Instant::elapsed`: the time since a moment. It depends on when it is asked, and nothing is
/// claimed of it.
pub assume_specification[ std::time::Instant::elapsed ](since: &std::time::Instant) -> (r:
    core::time::Duration)
;

/// `Duration::as_millis`: the whole milliseconds of a time. As nothing is known of a time,
/// nothing is claimed of them.
pub assume_specification[ core::time::Duration::as_millis ](time: &core::time::Duration) -> (r: u128)
;

/// `Duration::as_micros`: the whole microseconds of a time. As nothing is known of a time,
/// nothing is claimed of them.
pub assume_specification[ core::time::Duration::as_micros ](time: &core::time::Duration) -> (r: u128)
;

/// A watch that runs since it was started. What it shows depends on the machine.
pub struct Stopwatch {
    started: std::time::Instant,
}

impl Stopwatch {
    /// Starts a watch.
    pub fn start() -> (r: Stopwatch) {
        Stopwatch { started: std::time::Instant::now() }
    }

    /// The whole milliseconds since the start.
    pub fn millis(&self) -> (r: u64) {
        #[verifier::truncate]
        let r: u64 = self.started.elapsed().as_millis() as u64;
        r
    }

    /// The whole microseconds since the start.
    pub fn micros(&self) -> (r: u64) {
        #[verifier::truncate]
        let r: u64 = self.started.elapsed().as_micros() as u64;
        r
    }
}

} // verus!
