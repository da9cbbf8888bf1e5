//! Timestamps. Rendering a moment as local `YYYY-MM-DD HH:MM:SS` text
//! needs the machine's clock and time zone, which only the `chrono` crate
//! can consult, so these two calls are trusted; everything downstream
//! takes the rendered bytes as a plain value.
use vstd::prelude::*;

verus! {

/// The current local time as `YYYY-MM-DD HH:MM:SS` bytes.
///
/// Relies on `chrono::Local::now` and `DateTime::format`. The result
/// depends on the clock and the machine's time zone, so nothing is
/// promised of it.
#[verifier::external_body]
pub fn now_local_formatted() -> (r: Vec<u8>) {
    chrono::Local::now().format("%Y-%m-%d %H:%M:%S").to_string().into_bytes()
}

/// A count of seconds since the Unix epoch as local `YYYY-MM-DD HH:MM:SS`
/// bytes, or nothing when the count is out of chrono's range.
///
/// Relies on `chrono::DateTime::from_timestamp`, `with_timezone` with
/// `chrono::Local`, and `DateTime::format`. The result depends on the
/// machine's time zone, so nothing is promised of it.
#[verifier::external_body]
pub fn format_epoch_local(secs: i64) -> (r: Option<Vec<u8>>) {
    match chrono::DateTime::from_timestamp(secs, 0) {
        Option::Some(t) => Option::Some(
            t.with_timezone(&chrono::Local).format("%Y-%m-%d %H:%M:%S").to_string().into_bytes(),
        ),
        Option::None => Option::None,
    }
}

} // verus!
