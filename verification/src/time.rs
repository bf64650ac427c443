//! Points in time, as the log analysis reads them: whole seconds since the
//! Unix epoch plus the sub-second nanoseconds that `chrono` keeps (a leap
//! second is a nanosecond part of one second or more).
//!
//! Parsing and the distance between two points in time are computed by
//! `chrono`; see the trusted items at the end of this module.

use vstd::prelude::*;

verus! {

/// Smallest Unix timestamp that `chrono::DateTime<Utc>` represents
/// (January 1 of year -262143, 00:00:00).
pub const MIN_TIMESTAMP: i64 = -8334601228800i64;

/// Largest whole-second Unix timestamp that `chrono::DateTime<Utc>`
/// represents (December 31 of year 262142, 23:59:59).
pub const MAX_TIMESTAMP: i64 = 8210266876799i64;

/// A point in time in UTC.
#[derive(Clone, Copy, Debug, PartialEq, Eq, Structural, Hash)]
pub struct Timestamp {
    /// Seconds since 1970-01-01 00:00:00 UTC, leap seconds not counted.
    pub secs: i64,
    /// Nanoseconds past `secs`; 1_000_000_000 or more only for a leap second.
    pub nanos: u32,
}

impl Timestamp {
    /// The values that `chrono::DateTime<Utc>` can hold: in range, and a
    /// leap second only at the last second of a minute.
    pub open spec fn valid(self) -> bool {
        &&& MIN_TIMESTAMP <= self.secs <= MAX_TIMESTAMP
        &&& self.nanos < 2_000_000_000
        &&& self.nanos >= 1_000_000_000 ==> self.secs % 60 == 59
    }

    /// The order of `DateTime<Utc>`: by second, then by nanosecond.
    pub open spec fn earlier(self, other: Timestamp) -> bool {
        self.secs < other.secs || (self.secs == other.secs && self.nanos < other.nanos)
    }

    /// A whole second, with no sub-second part.
    pub fn from_secs(secs: i64) -> (t: Timestamp)
        ensures
            t.secs == secs,
            t.nanos == 0,
    {
        Timestamp { secs, nanos: 0 }
    }

    /// `self < other` for `DateTime<Utc>`.
    pub fn is_before(&self, other: &Timestamp) -> (r: bool)
        ensures
            r == self.earlier(*other),
    {
        self.secs < other.secs || (self.secs == other.secs && self.nanos < other.nanos)
    }
}

/// The order is strict and total.
pub proof fn lemma_earlier_total(a: Timestamp, b: Timestamp)
    ensures
        !a.earlier(a),
        !(a.earlier(b) && b.earlier(a)),
        a != b ==> a.earlier(b) || b.earlier(a),
{
}

// ---------------------------------------------------------------------------
// chrono
// ---------------------------------------------------------------------------

/// What `chrono::NaiveDateTime::parse_from_str(s, fmt)` yields, read as a
/// UTC time: `None` where it returns an error, else the Unix timestamp and
/// sub-second nanoseconds of the parsed date and time.
pub uninterp spec fn chrono_parse_utc(s: Seq<char>, fmt: Seq<char>) -> Option<(i64, u32)>;

/// Parses `s` with the strftime-style format `fmt` by
/// `chrono::NaiveDateTime::parse_from_str` and reads the result as UTC
/// (`and_utc`, then `timestamp` and `timestamp_subsec_nanos`).
/// Trusted: the result is the named one, and a parsed date and time is a
/// value that `DateTime<Utc>` holds (chrono's types keep that invariant).
#[verifier::external_body]
pub(crate) fn parse_utc(s: &str, fmt: &str) -> (r: Option<Timestamp>)
    ensures
        r matches Some(t) ==> chrono_parse_utc(s@, fmt@) == Some((t.secs, t.nanos)),
        r is None ==> chrono_parse_utc(s@, fmt@) is None,
        r matches Some(t) ==> t.valid(),
{
    match chrono::NaiveDateTime::parse_from_str(s, fmt) {
        Ok(naive) => {
            let dt = naive.and_utc();
            Some(Timestamp { secs: dt.timestamp(), nanos: dt.timestamp_subsec_nanos() })
        },
        Err(_) => None,
    }
}

/// `chrono::DateTime::<Utc>::from_timestamp(secs, 0)`, read back as a
/// timestamp. Trusted: the source returns `None` exactly when the day is
/// outside chrono's range, which for whole seconds is
/// `MIN_TIMESTAMP..=MAX_TIMESTAMP`, and round-trips `secs` otherwise.
#[verifier::external_body]
pub(crate) fn utc_from_timestamp(secs: i64) -> (r: Option<Timestamp>)
    ensures
        r == (if MIN_TIMESTAMP <= secs <= MAX_TIMESTAMP {
            Some(Timestamp { secs, nanos: 0 })
        } else {
            None
        }),
{
    match chrono::DateTime::from_timestamp(secs, 0) {
        Some(dt) => Some(Timestamp { secs: dt.timestamp(), nanos: dt.timestamp_subsec_nanos() }),
        None => None,
    }
}

/// Whole seconds from `earlier` to `later`, the fraction of a second
/// dropped toward zero.
pub open spec fn whole_seconds(later: Timestamp, earlier: Timestamp) -> int {
    let d = (later.secs - earlier.secs) * 1_000_000_000 + later.nanos - earlier.nanos;
    if d >= 0 {
        d / 1_000_000_000
    } else {
        -((-d) / 1_000_000_000)
    }
}

/// A point in time no earlier than another is whole seconds after it.
pub proof fn lemma_whole_seconds_nonnegative(later: Timestamp, earlier: Timestamp)
    requires
        !later.earlier(earlier),
        later.nanos < 1_000_000_000,
        earlier.nanos < 1_000_000_000,
    ensures
        whole_seconds(later, earlier) >= 0,
{
}

/// What `(later - earlier).num_seconds()` gives for two `DateTime<Utc>`
/// values (chrono counts a leap second in a way of its own).
pub uninterp spec fn chrono_seconds_between(later: (i64, u32), earlier: (i64, u32)) -> i64;

/// Whole seconds from `earlier` to `later`, by chrono's subtraction of
/// `DateTime<Utc>` values and `TimeDelta::num_seconds`.
/// Trusted: the result is the named one; when neither point is in a leap
/// second it is the difference truncated toward zero (chrono's
/// `NaiveTime::signed_duration_since` adjusts only for leap seconds, and
/// `num_seconds` truncates toward zero). What chrono counts across a leap
/// second is left to the name.
#[verifier::external_body]
pub(crate) fn seconds_between(later: Timestamp, earlier: Timestamp) -> (r: i64)
    requires
        later.valid(),
        earlier.valid(),
    ensures
        r == chrono_seconds_between((later.secs, later.nanos), (earlier.secs, earlier.nanos)),
        later.nanos < 1_000_000_000 && earlier.nanos < 1_000_000_000 ==> r == whole_seconds(
            later,
            earlier,
        ),
{
    let l = chrono::DateTime::from_timestamp(later.secs, later.nanos).unwrap();
    let e = chrono::DateTime::from_timestamp(earlier.secs, earlier.nanos).unwrap();
    (l - e).num_seconds()
}

} // verus!
