//! The wall clock, read through chrono.
//!
//! The engine's decisions are functions of an explicit time argument; these
//! readers supply that argument where the engine reads the clock itself.
//! Nothing useful can be promised of what a clock returns, so their
//! contracts say next to nothing and every caller must hold for any value.

use vstd::prelude::*;

verus! {

/// Relies on `chrono::Local::now` and `DateTime::timestamp_millis`: the
/// current local time as milliseconds since the Unix epoch.  The value
/// depends on the system clock; nothing is promised of it.
#[verifier::external_body]
pub(crate) fn now_millis() -> (r: i64) {
    chrono::Local::now().timestamp_millis()
}

/// Relies on `chrono::Local::now` and `DateTime::format` with the fixed
/// pattern `%Y%m%d_%H%M%S`: the current local time as a generation
/// timestamp.  Every component is zero-padded — the year to at least four
/// digits, the rest to two — so the result is at least fifteen characters;
/// its value depends on the system clock.
#[verifier::external_body]
pub(crate) fn now_timestamp() -> (r: String)
    ensures
        r@.len() >= 15,
{
    chrono::Local::now().format("%Y%m%d_%H%M%S").to_string()
}

} // verus!
