//! Wall-clock time as plain values: seconds and nanoseconds since the Unix epoch.

use vstd::prelude::*;

verus! {

/// A UTC instant, held as the Unix timestamp (`secs`) and the nanoseconds
/// since the last whole second (`nanos`), exactly as `chrono` reports them
/// through `DateTime::timestamp` and `DateTime::timestamp_subsec_nanos`.
#[derive(Clone, Copy, Debug, PartialEq, Eq, Structural)]
pub struct UtcTime {
    pub secs: i64,
    pub nanos: u32,
}

/// The RFC 3339 text that `chrono` gives for the instant `(secs, nanos)`:
/// `DateTime::<Utc>::from_timestamp(secs, nanos)` followed by `to_rfc3339()`.
/// `None` where `from_timestamp` rejects the pair (out of chrono's range).
pub uninterp spec fn rfc3339_text(secs: i64, nanos: u32) -> Option<Seq<char>>;

/// An instant that `chrono` can represent.
pub open spec fn representable(t: UtcTime) -> bool {
    rfc3339_text(t.secs, t.nanos) is Some
}

/// Calls `chrono::Utc::now()` and reads back its timestamp and sub-second
/// nanoseconds. Trusted: chrono documents that `from_timestamp` round-trips
/// with `timestamp` and `timestamp_subsec_nanos`, so the instant read back is
/// one that `from_timestamp` (and so `rfc3339_text`) accepts. Nothing is
/// said of which instant it is: that depends on the system clock. (chrono
/// panics if the system clock reads a time before 1970.)
#[verifier::external_body]
pub(crate) fn utc_now() -> (t: UtcTime)
    ensures
        representable(t),
{
    let now = chrono::Utc::now();
    UtcTime { secs: now.timestamp(), nanos: now.timestamp_subsec_nanos() }
}

/// Calls `chrono::DateTime::<Utc>::from_timestamp(t.secs, t.nanos)` and, when
/// it succeeds, `to_rfc3339()` on the result. Trusted: the text is the one
/// named by `rfc3339_text`, and `None` comes exactly where chrono rejects the
/// pair.
#[verifier::external_body]
pub(crate) fn rfc3339(t: &UtcTime) -> (s: Option<String>)
    ensures
        match s {
            Some(s) => rfc3339_text(t.secs, t.nanos) == Some(s@),
            None => rfc3339_text(t.secs, t.nanos) is None,
        },
{
    match chrono::DateTime::<chrono::Utc>::from_timestamp(t.secs, t.nanos) {
        Some(d) => Some(d.to_rfc3339()),
        None => None,
    }
}

} // verus!
