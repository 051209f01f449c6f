//! The wall clock, read through trusted declarations: the result depends on
//! when the call happens, so nothing is promised of it beyond the documented
//! range of the microsecond part.

use vstd::prelude::*;

verus! {

#[verifier::external_type_specification]
#[verifier::external_body]
pub struct ExSystemTime(std::time::SystemTime);

/// Relies on std::time::SystemTime::now: the current wall-clock time; no
/// property of the result is assumed.
#[verifier::external_body]
fn time_now() -> std::time::SystemTime {
    std::time::SystemTime::now()
}

/// Relies on std::time::SystemTime::duration_since, measured from the epoch:
/// the span since the epoch, or nothing when the clock reads earlier than
/// the epoch; no property of the span is assumed.
#[verifier::external_body]
fn since_epoch(t: &std::time::SystemTime) -> Option<std::time::Duration> {
    match t.duration_since(std::time::UNIX_EPOCH) {
        Ok(d) => Some(d),
        Err(_) => None,
    }
}

/// Relies on std::time::Duration::as_secs: the whole seconds of the span;
/// no property of the result is assumed.
#[verifier::external_body]
fn duration_secs(d: &std::time::Duration) -> u64 {
    d.as_secs()
}

/// Relies on std::time::Duration::subsec_micros: the fractional part of the
/// span in microseconds, documented to lie below one million.
#[verifier::external_body]
fn duration_micros(d: &std::time::Duration) -> (r: u32)
    ensures
        r < 1000000,
{
    d.subsec_micros()
}

/// The wall clock as seconds since the epoch and microseconds within the
/// second. Whatever the clock reads, the microsecond part lies below one
/// million.
pub fn wall_clock() -> (r: (u64, u32))
    ensures
        r.1 < 1000000,
{
    let t = time_now();
    match since_epoch(&t) {
        Some(d) => (duration_secs(&d), duration_micros(&d)),
        None => (0, 0),
    }
}

} // verus!
