use loglens::model::Level;
use loglens::parser::parse_line;
use loglens::parser::text::{parse, parse_with_timestamp, strip_level, strip_timestamp, strip_timestamp_with};
use loglens::time::Timestamp;

#[test]
fn parses_timestamp_level_and_message() {
    let e = parse("2026-01-01 00:00:05 ERROR Database connection timeout");
    assert_eq!(e.timestamp, Some(Timestamp::from_secs(1767225605)));
    assert_eq!(e.level, Some(Level::Error));
    assert_eq!(e.message, "Database connection timeout");
    assert!(e.http.is_none());
}

#[test]
fn accepts_t_separator_and_trailing_z() {
    let e = parse("  2026-01-01T00:01:00Z   WARN   disk almost full  ");
    assert_eq!(e.timestamp, Some(Timestamp::from_secs(1767225660)));
    assert_eq!(e.level, Some(Level::Warn));
    assert_eq!(e.message, "disk almost full");
}

#[test]
fn line_without_timestamp_or_level() {
    let e = parse("just some text");
    assert_eq!(e.timestamp, None);
    assert_eq!(e.level, None);
    assert_eq!(e.message, "just some text");
}

#[test]
fn level_words_must_look_like_levels() {
    assert_eq!(parse("info starting").level, Some(Level::Info));
    assert_eq!(parse("Warn low memory").level, Some(Level::Warn));
    assert_eq!(parse("INFORMATION x").level, Some(Level::Info));
    assert_eq!(parse("CRIT x").level, Some(Level::Fatal));
    // Lower-case error is not taken for a level, and the word stays.
    let e = parse("error: something");
    assert_eq!(e.level, None);
    assert_eq!(e.message, "error: something");
    let e = parse("Error something");
    assert_eq!(e.level, None);
    assert_eq!(e.message, "Error something");
}

#[test]
fn invalid_timestamp_is_kept_in_the_message() {
    let e = parse("2026-13-01 00:00:00 INFO x");
    assert_eq!(e.timestamp, None);
    assert_eq!(e.level, None);
    assert_eq!(e.message, "2026-13-01 00:00:00 INFO x");
}

#[test]
fn leap_second_keeps_its_nanoseconds() {
    let e = parse("2016-12-31 23:59:60 INFO leap");
    let t = e.timestamp.unwrap();
    assert_eq!(t.secs, 1483228799);
    assert_eq!(t.nanos, 1_000_000_000);
}

#[test]
fn given_timestamp_outcome_drives_the_split() {
    let line = "2026-01-01 00:00:00Z DEBUG ready";
    let e = parse_with_timestamp(line, None);
    assert_eq!(e.timestamp, None);
    assert_eq!(e.level, None);
    assert_eq!(e.message, line);
    let t = Timestamp::from_secs(42);
    let e = parse_with_timestamp(line, Some(t));
    assert_eq!(e.timestamp, Some(t));
    assert_eq!(e.level, Some(Level::Debug));
    assert_eq!(e.message, "ready");
    // Short lines never carry a timestamp.
    let e = parse_with_timestamp("TRACE x", Some(t));
    assert_eq!(e.timestamp, None);
    assert_eq!(e.level, Some(Level::Trace));
}

#[test]
fn empty_and_blank_lines() {
    let e = parse_line("");
    assert_eq!(e.level, None);
    assert_eq!(e.message, "");
    let e = parse_line(" \t ");
    assert_eq!(e.message, "");
}

#[test]
fn level_only_line_has_empty_message() {
    let e = parse_line("FATAL");
    assert_eq!(e.level, Some(Level::Fatal));
    assert_eq!(e.message, "");
}

#[test]
fn level_parse_and_names() {
    assert_eq!(Level::parse("warning"), Some(Level::Warn));
    assert_eq!(Level::parse("Err"), Some(Level::Error));
    assert_eq!(Level::parse("critical"), Some(Level::Fatal));
    assert_eq!(Level::parse("verbose"), None);
    assert_eq!(Level::parse(""), None);
    for l in [Level::Trace, Level::Debug, Level::Info, Level::Warn, Level::Error, Level::Fatal] {
        assert_eq!(Level::parse(l.as_str()), Some(l));
    }
    assert_eq!(Level::Info.as_str(), "INFO");
    assert!(Level::Error.is_error());
    assert!(Level::Fatal.is_error());
    assert!(!Level::Warn.is_error());
}

#[test]
fn level_names_parse_in_any_case() {
    for l in [Level::Trace, Level::Debug, Level::Info, Level::Warn, Level::Error, Level::Fatal] {
        let lower = l.as_str().to_ascii_lowercase();
        assert_eq!(Level::parse(&lower), Some(l));
        let mut mixed = String::new();
        for (i, c) in l.as_str().chars().enumerate() {
            mixed.push(if i % 2 == 0 { c.to_ascii_lowercase() } else { c });
        }
        assert_eq!(Level::parse(&mixed), Some(l));
    }
}

fn chars(s: &str) -> Vec<char> {
    s.chars().collect()
}

#[test]
fn strip_timestamp_splits_off_the_first_nineteen_bytes() {
    let t = chars("2026-01-01T00:00:05Z ERROR x");
    assert_eq!(strip_timestamp(&t), (Some(Timestamp::from_secs(1767225605)), 20));
    let t = chars("2026-01-01 00:00:05 ERROR x");
    assert_eq!(strip_timestamp(&t), (Some(Timestamp::from_secs(1767225605)), 19));
    let t = chars("not a timestamp at all");
    assert_eq!(strip_timestamp(&t), (None, 0));
    let t = chars("2026-01-01");
    assert_eq!(strip_timestamp(&t), (None, 0));
    // Two-byte characters: the 19 bytes end after fewer characters.
    let t = chars("éééééééééx rest");
    assert_eq!(strip_timestamp(&t), (None, 0));
}

#[test]
fn strip_timestamp_with_a_given_outcome() {
    let t = chars("2026-01-01 00:00:05Z x");
    let ts = Timestamp::from_secs(7);
    assert_eq!(strip_timestamp_with(&t, Some(ts)), (Some(ts), 20));
    assert_eq!(strip_timestamp_with(&t, None), (None, 0));
    assert_eq!(strip_timestamp_with(&chars("short"), Some(ts)), (None, 0));
}

#[test]
fn strip_level_reads_one_level_word() {
    let s = chars("x   WARN  rest");
    assert_eq!(strip_level(&s, 1), (Some(Level::Warn), 8));
    assert_eq!(strip_level(&s, 0), (None, 0));
    assert_eq!(strip_level(&chars("   "), 0), (None, 0));
    assert_eq!(strip_level(&chars("Debug x"), 0), (None, 0));
}

#[test]
fn parse_line_extracts_request_info() {
    let e = parse_line("2026-01-01 00:00:05 INFO GET /api/users 200 42ms");
    assert_eq!(e.level, Some(Level::Info));
    assert_eq!(e.message, "GET /api/users 200 42ms");
    let h = e.http.unwrap();
    assert_eq!(h.method, "GET");
    assert_eq!(h.path, "/api/users");
    assert_eq!(h.status, 200);
    assert_eq!(h.duration_ms, Some(42));
    let e = parse_line(r#"10.0.0.1 - - [x] "POST /login HTTP/1.1" 401 12"#);
    assert_eq!(e.http.unwrap().status, 401);
    assert!(parse_line("ERROR Database connection timeout").http.is_none());
}

#[test]
fn line_cut_inside_a_character_has_no_timestamp() {
    // Ten two-byte characters: byte 19 falls inside the tenth.
    let e = parse_line("éééééééééé INFO rest");
    assert_eq!(e.timestamp, None);
    assert_eq!(e.level, None);
    assert_eq!(e.message, "éééééééééé INFO rest");
    let t: Vec<char> = "éééééééééé".chars().collect();
    assert_eq!(strip_timestamp(&t), (None, 0));
}

#[test]
fn message_is_a_trimmed_part_of_the_line() {
    for l in ["  2026-01-01 00:00:05Z  WARN   disk  full \t", "INFO", "  plain text  ", "éééééééééé x"] {
        let e = parse_line(l);
        assert_eq!(e.message.trim(), e.message);
        assert!(l.contains(e.message.as_str()));
    }
}

#[test]
fn plain_line_keeps_its_trimmed_text_and_timestamps_come_from_nineteen_bytes() {
    let e = parse("   just words here \t");
    assert_eq!(e.message, "just words here");
    // Same first 19 bytes, different rest: same timestamp.
    let a = parse("2026-01-01 00:00:05 anything");
    let b = parse("2026-01-01 00:00:05Z INFO else");
    assert_eq!(a.timestamp, b.timestamp);
    // Shorter than 19 bytes: no timestamp.
    assert_eq!(parse("2026-01-01 00:00").timestamp, None);
}
