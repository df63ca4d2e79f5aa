//! Points in time, and the dates of header values.

use std::time::{Duration, SystemTime, UNIX_EPOCH};
use vstd::prelude::*;

verus! {

/// The number of nanoseconds in a second.
pub const NANOS_PER_SEC: u32 = 1_000_000_000;

/// The first second, counted from the Unix epoch, that an HTTP date cannot express: the beginning
/// of the year 10000.
pub const HTTP_DATE_END: u64 = 253_402_300_800;

/// A point in time: `secs` seconds from the Unix epoch, and `nanos` nanoseconds (less than a
/// second) after that. A point before the epoch has negative seconds.
#[derive(Clone, Copy, Debug, PartialEq, Eq, Structural)]
pub struct Timestamp {
    pub secs: i64,
    pub nanos: u32,
}

impl Timestamp {
    /// Whether this point is later than `other`.
    pub open spec fn is_later_than(self, other: Timestamp) -> bool {
        self.secs > other.secs || (self.secs == other.secs && self.nanos > other.nanos)
    }

    /// Whether this point is later than the beginning of the given second.
    pub open spec fn is_after(self, secs: u64) -> bool {
        self.secs > secs || (self.secs == secs && self.nanos > 0)
    }

    /// The earlier of two points.
    pub open spec fn earlier(self, other: Timestamp) -> Timestamp {
        if self.is_later_than(other) {
            other
        } else {
            self
        }
    }

    /// Whether this point is later than the beginning of the given second.
    pub(crate) fn after(self, secs: u64) -> (r: bool)
        requires
            secs < HTTP_DATE_END,
        ensures
            r == self.is_after(secs),
    {
        let secs: i64 = secs as i64;
        self.secs > secs || (self.secs == secs && self.nanos > 0)
    }

    /// The earlier of two points.
    pub(crate) fn min(self, other: Timestamp) -> (r: Timestamp)
        ensures
            r == self.earlier(other),
    {
        if self.secs > other.secs || (self.secs == other.secs && self.nanos > other.nanos) {
            other
        } else {
            self
        }
    }
}

/// Whether an HTTP date can express a point in time, to the second.
pub open spec fn is_http_time(t: Timestamp) -> bool {
    0 <= t.secs < HTTP_DATE_END
}

/// The error of `httpdate::parse_http_date`.
#[verifier::external_type_specification]
#[verifier::external_body]
pub struct ExHttpDateError(httpdate::Error);

/// The second, counted from the Unix epoch, that a text denotes as an HTTP date: what
/// `httpdate::parse_http_date` makes of it.
pub uninterp spec fn http_date(text: Seq<char>) -> Option<u64>;

/// The HTTP date of a second, counted from the Unix epoch: what `httpdate::fmt_http_date` makes
/// of it.
pub uninterp spec fn http_date_text(secs: u64) -> Seq<char>;

/// `httpdate::parse_http_date` reads an HTTP date, in any of its three formats, or fails. It
/// accepts the years from 1970 to 9999 alone.
#[verifier::external_body]
pub(crate) fn parse_http_date(text: &str) -> (r: Result<u64, httpdate::Error>)
    ensures
        match r {
            Ok(secs) => http_date(text@) == Some(secs) && secs < HTTP_DATE_END,
            Err(_) => http_date(text@) is None,
        },
{
    httpdate::parse_http_date(text).map(|t| t.duration_since(UNIX_EPOCH).unwrap().as_secs())
}

/// `httpdate::fmt_http_date` writes a second as an HTTP date of 29 visible ASCII characters, which
/// `httpdate::parse_http_date` reads as the same second. It takes no second before the Unix epoch
/// or behind the year 9999.
#[verifier::external_body]
pub(crate) fn fmt_http_date(secs: u64) -> (r: String)
    requires
        secs < HTTP_DATE_END,
    ensures
        r@ == http_date_text(secs),
        r@.len() == 29,
        forall|i: int| 0 <= i < 29 ==> ' ' <= #[trigger] r@[i] <= '~',
        http_date(r@) == Some(secs),
{
    httpdate::fmt_http_date(UNIX_EPOCH + Duration::from_secs(secs))
}

/// `SystemTime::now` reads the clock: here as whole seconds and nanoseconds since the Unix epoch,
/// or as `None` if the clock stands before it. What the clock shows is left open.
#[verifier::external_body]
fn clock() -> (r: Option<(u64, u32)>)
    ensures
        r matches Some(t) ==> t.1 < NANOS_PER_SEC,
{
    SystemTime::now().duration_since(UNIX_EPOCH).ok().map(|d| (d.as_secs(), d.subsec_nanos()))
}

/// The present time, if the clock shows one that a [`Timestamp`] can hold, not before the Unix
/// epoch.
pub fn now() -> (r: Option<Timestamp>)
    ensures
        r matches Some(t) ==> 0 <= t.secs && t.nanos < NANOS_PER_SEC,
{
    timestamp_of(clock())
}

/// The point in time that a clock shows as whole seconds and nanoseconds since the Unix epoch, if
/// it shows one and a [`Timestamp`] can hold it.
pub fn timestamp_of(reading: Option<(u64, u32)>) -> (r: Option<Timestamp>)
    ensures
        match r {
            Some(t) => 0 <= t.secs && reading == Some((t.secs as u64, t.nanos)),
            None => reading matches Some((secs, _)) ==> secs > i64::MAX,
        },
{
    match reading {
        Some((secs, nanos)) if secs <= i64::MAX as u64 => Some(
            Timestamp { secs: secs as i64, nanos },
        ),
        _ => None,
    }
}

/// The number of nanoseconds from the Unix epoch to a point in time.
pub open spec fn nanoseconds(t: Timestamp) -> int {
    t.secs * 1_000_000_000 + t.nanos
}

/// Points in time are compared by how far from the Unix epoch they are.
pub proof fn law_timestamps(a: Timestamp, b: Timestamp, secs: u64)
    requires
        a.nanos < 1_000_000_000,
        b.nanos < 1_000_000_000,
    ensures
        a.is_later_than(b) <==> nanoseconds(a) > nanoseconds(b),
        a.is_after(secs) <==> nanoseconds(a) > secs * 1_000_000_000,
        a.earlier(b) == if nanoseconds(a) <= nanoseconds(b) {
            a
        } else {
            b
        },
        is_http_time(a) <==> 0 <= nanoseconds(a) < 253_402_300_800 * 1_000_000_000,
{
}

} // verus!
