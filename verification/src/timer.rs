//! A labelled stopwatch: records its creation instant, for callers that
//! print how long a phase took.

use vstd::prelude::*;

verus! {

#[verifier::external_type_specification]
#[verifier::external_body]
pub struct ExInstant(std::time::Instant);

/// Relies on std::time::Instant::now: the current monotonic instant;
/// nothing can be promised of its value.
#[verifier::external_body]
fn instant_now() -> std::time::Instant {
    std::time::Instant::now()
}

/// A stopwatch started at its creation, carrying a label for reporting.
pub struct Timer {
    /// The label under which the measured time is reported.
    pub label: String,
    /// The instant at which the stopwatch was started.
    pub start: std::time::Instant,
}

impl Timer {
    /// Start a stopwatch carrying the given label.
    pub fn new(label: &str) -> (t: Timer)
        ensures
            t.label@ == label@,
    {
        Timer { label: label.to_owned(), start: instant_now() }
    }

    /// Relies on std::time::Instant::elapsed and Duration::as_millis: the
    /// whole milliseconds since the stopwatch was started; nothing can be
    /// promised of the value.
    #[verifier::external_body]
    pub fn elapsed_millis(&self) -> u128 {
        self.start.elapsed().as_millis()
    }
}

} // verus!
