//! Turning raw log lines into events.

pub mod http;
pub mod text;

use vstd::prelude::*;
use crate::model::{EventView, LogEvent};
use crate::parser::http::parse_spec;
use crate::parser::text::fields;

verus! {

/// The event of `line`: its timestamp, level and message, and the HTTP
/// request info extracted from that message, if any.
pub open spec fn line_view(line: Seq<char>) -> EventView {
    let (ts, level, message) = fields(line);
    EventView { timestamp: ts, level, message, http: parse_spec(message) }
}

/// `e` is the event of `line`.
pub open spec fn line_event(e: LogEvent, line: Seq<char>) -> bool {
    e@ == line_view(line)
}

/// Parses one log line into an event: timestamp, level and message, and
/// the HTTP request info of the message when it looks like a request log.
pub fn parse_line(line: &str) -> (e: LogEvent)
    ensures
        line_event(e, line@),
        e.timestamp matches Some(t) ==> t.valid(),
{
    let mut e = text::parse(line);
    e.http = http::parse(e.message.as_str());
    e
}

} // verus!
