//! Reporting how long a run took.

use crate::text::{decimal, push_decimal};
use std::time::Duration;
use tokio::time::Instant;
use vstd::prelude::*;
use vstd::string::StringExecFns;

verus! {

/// A point in time of tokio's clock, carried from the caller to the clock.
#[verifier::external_type_specification]
#[verifier::external_body]
pub struct ExInstant(Instant);

/// `tokio::time::Instant::elapsed`: the time on tokio's clock since `start`.
/// It depends on the clock, so nothing is claimed of it.
pub assume_specification[ Instant::elapsed ](start: &Instant) -> (elapsed: Duration)
;

/// `Duration::as_secs`: the whole seconds of a duration. Nothing is known of
/// an opaque duration, so nothing is claimed.
pub assume_specification[ Duration::as_secs ](duration: &Duration) -> (seconds: u64)
;

/// `Duration::subsec_millis`: the part of a duration below one second, in
/// whole milliseconds, which is therefore less than a thousand.
pub assume_specification[ Duration::subsec_millis ](duration: &Duration) -> (millis: u32)
    ensures
        millis < 1000,
;

/// Seconds in one minute.
pub const SECONDS_PER_MINUTE: u64 = 60;

/// How a span of `seconds` whole seconds and `millis` milliseconds reads:
/// minutes, the seconds beyond them, and the milliseconds, each in decimal
/// and followed by its unit.
pub open spec fn elapsed_text(seconds: nat, millis: nat) -> Seq<char> {
    decimal(seconds / SECONDS_PER_MINUTE as nat) + "m "@ + decimal(
        seconds % SECONDS_PER_MINUTE as nat,
    ) + "s "@ + decimal(millis) + "ms"@
}

/// Writes a span of time as minutes, seconds and milliseconds.
pub fn format_elapsed(seconds: u64, millis: u32) -> (text: String)
    ensures
        text@ == elapsed_text(seconds as nat, millis as nat),
{
    let mut text = String::new();
    push_decimal(&mut text, seconds / SECONDS_PER_MINUTE);
    text.append("m ");
    push_decimal(&mut text, seconds % SECONDS_PER_MINUTE);
    text.append("s ");
    push_decimal(&mut text, millis as u64);
    text.append("ms");
    text
}

/// Writes the time that has passed since `start` as minutes, seconds and
/// milliseconds. What the clock says is not known beforehand: the text is
/// that of some span whose seconds fit 64 bits and whose milliseconds stay
/// below a thousand.
pub fn elapsed_time(start: Instant) -> (text: String)
    ensures
        exists|seconds: nat, millis: nat|
            seconds <= u64::MAX && millis < 1000 && text@ == #[trigger] elapsed_text(
                seconds,
                millis,
            ),
{
    let elapsed = start.elapsed();
    let seconds = elapsed.as_secs();
    let millis = elapsed.subsec_millis();
    let text = format_elapsed(seconds, millis);
    assert(text@ == elapsed_text(seconds as nat, millis as nat));
    text
}

} // verus!
