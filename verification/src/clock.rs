use vstd::prelude::*;
use instant::Instant;
use std::time::Duration;

verus! {

/// A point in time, as `instant::Instant` measures it. Nothing is known of
/// what it holds.
#[verifier::external_type_specification]
#[verifier::external_body]
pub struct ExInstant(Instant);

/// The present moment, from `Instant::now`. Nothing is claimed of it.
#[verifier::external_body]
pub(crate) fn clock_now() -> Instant {
    Instant::now()
}

/// The time from `earlier` to `later`, from
/// `Instant::saturating_duration_since`, which gives no time at all where
/// `earlier` is the later of the two. Nothing is claimed of it.
#[verifier::external_body]
pub(crate) fn clock_span(later: &Instant, earlier: &Instant) -> Duration {
    later.saturating_duration_since(*earlier)
}

/// The whole microseconds of a span of time, from `Duration::as_micros`.
/// Nothing is claimed of the number.
#[verifier::external_body]
pub(crate) fn span_micros(span: &Duration) -> u128 {
    span.as_micros()
}

/// Microseconds from `since` to now, or zero without a start; a span too
/// long to count is the longest that can be counted.
pub(crate) fn micros_since(since: &Option<Instant>) -> (micros: u64)
    ensures
        since is None ==> micros == 0,
{
    match since {
        Some(instant) => {
            let now = clock_now();
            let span = clock_span(&now, instant);
            let micros = span_micros(&span);
            counted_micros(micros)
        },
        None => 0,
    }
}

/// The time of a tick for a span of `micros` microseconds: the span
/// itself, or the longest time that a tick can count where the span is
/// longer.
pub open spec fn micros_counted(micros: int) -> int {
    if micros > u64::MAX {
        u64::MAX as int
    } else {
        micros
    }
}

/// The time of a tick for a span of `micros` microseconds.
pub fn counted_micros(micros: u128) -> (elapsed: u64)
    ensures
        elapsed == micros_counted(micros as int),
{
    if micros > u64::MAX as u128 {
        u64::MAX
    } else {
        micros as u64
    }
}

} // verus!
