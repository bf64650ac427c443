//! The data the analysis works on and produces.

use vstd::prelude::*;
use crate::text::{chars_equal, chars_of, eq_ignore_case, upper, upper_chars};
use crate::time::Timestamp;

verus! {

/// Log severity level.
#[derive(Clone, Copy, Debug, PartialEq, Eq, Structural, Hash)]
pub enum Level {
    Trace,
    Debug,
    Info,
    Warn,
    Error,
    Fatal,
}

/// The level that an upper-case level word names.
pub open spec fn level_of_word(w: Seq<char>) -> Option<Level> {
    if w == seq!['T', 'R', 'A', 'C', 'E'] {
        Some(Level::Trace)
    } else if w == seq!['D', 'E', 'B', 'U', 'G'] {
        Some(Level::Debug)
    } else if w == seq!['I', 'N', 'F', 'O'] || w == seq![
        'I',
        'N',
        'F',
        'O',
        'R',
        'M',
        'A',
        'T',
        'I',
        'O',
        'N',
    ] {
        Some(Level::Info)
    } else if w == seq!['W', 'A', 'R', 'N'] || w == seq!['W', 'A', 'R', 'N', 'I', 'N', 'G'] {
        Some(Level::Warn)
    } else if w == seq!['E', 'R', 'R', 'O', 'R'] || w == seq!['E', 'R', 'R'] {
        Some(Level::Error)
    } else if w == seq!['F', 'A', 'T', 'A', 'L'] || w == seq!['C', 'R', 'I', 'T', 'I', 'C', 'A', 'L']
        || w == seq!['C', 'R', 'I', 'T'] {
        Some(Level::Fatal)
    } else {
        None
    }
}

/// What `Level::parse` gives for `s`: the level named by `s` in any ASCII
/// case.
pub open spec fn parse_level(s: Seq<char>) -> Option<Level> {
    level_of_word(upper(s))
}

/// The canonical upper-case name of a level.
pub open spec fn level_name(l: Level) -> Seq<char> {
    match l {
        Level::Trace => seq!['T', 'R', 'A', 'C', 'E'],
        Level::Debug => seq!['D', 'E', 'B', 'U', 'G'],
        Level::Info => seq!['I', 'N', 'F', 'O'],
        Level::Warn => seq!['W', 'A', 'R', 'N'],
        Level::Error => seq!['E', 'R', 'R', 'O', 'R'],
        Level::Fatal => seq!['F', 'A', 'T', 'A', 'L'],
    }
}

fn is_word(u: &[char], w: &[char]) -> (r: bool)
    ensures
        r == (u@ == w@),
{
    chars_equal(u, w)
}

impl Level {
    /// Parses a level word, ignoring ASCII case. Accepts the aliases
    /// INFORMATION, WARNING, ERR, CRITICAL and CRIT.
    pub fn parse(s: &str) -> (r: Option<Level>)
        ensures
            r == parse_level(s@),
    {
        let v = chars_of(s);
        let u = upper_chars(v.as_slice());
        let us = u.as_slice();
        if is_word(us, &['T', 'R', 'A', 'C', 'E']) {
            Some(Level::Trace)
        } else if is_word(us, &['D', 'E', 'B', 'U', 'G']) {
            Some(Level::Debug)
        } else if is_word(us, &['I', 'N', 'F', 'O']) || is_word(
            us,
            &['I', 'N', 'F', 'O', 'R', 'M', 'A', 'T', 'I', 'O', 'N'],
        ) {
            Some(Level::Info)
        } else if is_word(us, &['W', 'A', 'R', 'N']) || is_word(
            us,
            &['W', 'A', 'R', 'N', 'I', 'N', 'G'],
        ) {
            Some(Level::Warn)
        } else if is_word(us, &['E', 'R', 'R', 'O', 'R']) || is_word(us, &['E', 'R', 'R']) {
            Some(Level::Error)
        } else if is_word(us, &['F', 'A', 'T', 'A', 'L']) || is_word(
            us,
            &['C', 'R', 'I', 'T', 'I', 'C', 'A', 'L'],
        ) || is_word(us, &['C', 'R', 'I', 'T']) {
            Some(Level::Fatal)
        } else {
            None
        }
    }

    /// The canonical upper-case name.
    pub fn as_str(&self) -> (r: &'static str)
        ensures
            r@ == level_name(*self),
    {
        match self {
            Level::Trace => {
                proof {
                    reveal_strlit("TRACE");
                }
                "TRACE"
            },
            Level::Debug => {
                proof {
                    reveal_strlit("DEBUG");
                }
                "DEBUG"
            },
            Level::Info => {
                proof {
                    reveal_strlit("INFO");
                }
                "INFO"
            },
            Level::Warn => {
                proof {
                    reveal_strlit("WARN");
                }
                "WARN"
            },
            Level::Error => {
                proof {
                    reveal_strlit("ERROR");
                }
                "ERROR"
            },
            Level::Fatal => {
                proof {
                    reveal_strlit("FATAL");
                }
                "FATAL"
            },
        }
    }

    /// ERROR and FATAL are the error levels.
    pub fn is_error(&self) -> (r: bool)
        ensures
            r == (*self == Level::Error || *self == Level::Fatal),
    {
        match self {
            Level::Error | Level::Fatal => true,
            _ => false,
        }
    }
}

/// A level's name parses back to that level.
pub proof fn lemma_parse_level_name(l: Level)
    ensures
        parse_level(level_name(l)) == Some(l),
{
    let n = level_name(l);
    assert(upper(n) =~= n);
}

/// A level's name in any ASCII case parses to that level.
pub proof fn lemma_parse_level_any_case(s: Seq<char>, l: Level)
    requires
        eq_ignore_case(s, level_name(l)),
    ensures
        parse_level(s) == Some(l),
{
    lemma_parse_level_name(l);
}

/// A single parsed log line.
#[derive(Clone, Debug)]
pub struct LogEvent {
    pub timestamp: Option<Timestamp>,
    pub level: Option<Level>,
    pub message: String,
    pub http: Option<HttpInfo>,
}

/// HTTP request info extracted from a line, if present.
#[derive(Clone, Debug)]
pub struct HttpInfo {
    pub method: String,
    pub path: String,
    pub status: u16,
    pub duration_ms: Option<u64>,
}

/// The content of an [`HttpInfo`] as plain values.
pub struct HttpInfoView {
    pub method: Seq<char>,
    pub path: Seq<char>,
    pub status: u16,
    pub duration_ms: Option<u64>,
}

impl View for HttpInfo {
    type V = HttpInfoView;

    open spec fn view(&self) -> HttpInfoView {
        HttpInfoView {
            method: self.method@,
            path: self.path@,
            status: self.status,
            duration_ms: self.duration_ms,
        }
    }
}

/// `Some(view)` of an optional [`HttpInfo`].
pub open spec fn http_view(h: Option<HttpInfo>) -> Option<HttpInfoView> {
    match h {
        Some(i) => Some(i@),
        None => None,
    }
}

/// The content of a [`LogEvent`] as plain values.
pub struct EventView {
    pub timestamp: Option<Timestamp>,
    pub level: Option<Level>,
    pub message: Seq<char>,
    pub http: Option<HttpInfoView>,
}

impl View for LogEvent {
    type V = EventView;

    open spec fn view(&self) -> EventView {
        EventView {
            timestamp: self.timestamp,
            level: self.level,
            message: self.message@,
            http: http_view(self.http),
        }
    }
}

/// Per-level line counts and the time range covered.
#[derive(Clone, Copy, Debug)]
pub struct Stats {
    pub info: u64,
    pub debug: u64,
    pub warn: u64,
    pub error: u64,
    pub fatal: u64,
    pub trace: u64,
    pub unleveled: u64,
    pub first_timestamp: Option<Timestamp>,
    pub last_timestamp: Option<Timestamp>,
}

/// One recurring (normalized) error message and how often it occurred.
#[derive(Clone, Debug)]
pub struct ErrorCount {
    pub message: String,
    pub count: u64,
}

/// One five-minute bucket with an elevated number of errors.
///
/// Its severity, the multiplier against the mean of all buckets, is
/// `count / (total_errors / bucket_count)`.
#[derive(Clone, Copy, Debug)]
pub struct ErrorSpike {
    pub bucket_start: Timestamp,
    pub bucket_end: Timestamp,
    pub count: u64,
    /// Errors over all buckets.
    pub total_errors: u64,
    /// Number of buckets that hold at least one error.
    pub bucket_count: u64,
}

/// Recurring errors, most frequent first, and error spikes.
#[derive(Clone, Debug)]
pub struct ErrorSummary {
    pub total: u64,
    pub top: Vec<ErrorCount>,
    pub spikes: Vec<ErrorSpike>,
}

/// First and last timestamp and the seconds between them.
#[derive(Clone, Copy, Debug)]
pub struct TimeSummary {
    pub first: Option<Timestamp>,
    pub last: Option<Timestamp>,
    pub duration_secs: Option<i64>,
}

/// One endpoint path and how many requests it received.
#[derive(Clone, Debug)]
pub struct EndpointCount {
    pub path: String,
    pub count: u64,
}

/// Request counts by status class and the busiest endpoints.
#[derive(Clone, Debug)]
pub struct HttpSummary {
    pub total_requests: u64,
    pub s2xx: u64,
    pub s3xx: u64,
    pub s4xx: u64,
    pub s5xx: u64,
    pub other: u64,
    pub top_endpoints: Vec<EndpointCount>,
}

/// Result of running the analysis engine over a log input.
#[derive(Clone, Debug)]
pub struct AnalysisResult {
    pub source: String,
    pub total_lines: u64,
    pub parsed_events: u64,
    pub stats: Stats,
    pub errors: ErrorSummary,
    pub time: TimeSummary,
    pub http: HttpSummary,
}

} // verus!
