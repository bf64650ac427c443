use loglens::analyzer::spikes::SpikeAccumulator;
use loglens::analyzer::errors::{normalize, ErrorAccumulator};
use loglens::model::{Level, LogEvent};
use loglens::time::Timestamp;

fn event(level: Level, msg: &str) -> LogEvent {
    LogEvent {
        timestamp: None,
        level: Some(level),
        message: msg.to_string(),
        http: None,
    }
}

#[test]
fn counts_repeated_errors() {
    let mut acc = ErrorAccumulator::new();
    acc.observe(&event(Level::Error, "Database connection timeout"));
    acc.observe(&event(Level::Error, "Database connection timeout"));
    acc.observe(&event(Level::Error, "Invalid token"));

    let summary = acc.finish(10);
    assert_eq!(summary.total, 3);
    assert_eq!(summary.top[0].message, "Database connection timeout");
    assert_eq!(summary.top[0].count, 2);
}

#[test]
fn ignores_non_errors() {
    let mut acc = ErrorAccumulator::new();
    acc.observe(&event(Level::Info, "everything is fine"));
    acc.observe(&event(Level::Warn, "just a warning"));
    assert_eq!(acc.finish(10).total, 0);
}

#[test]
fn normalizes_numbers() {
    let mut acc = ErrorAccumulator::new();
    acc.observe(&event(Level::Error, "User 18273 failed authentication"));
    acc.observe(&event(Level::Error, "User 18291 failed authentication"));

    let summary = acc.finish(10);
    assert_eq!(summary.total, 2);
    assert_eq!(summary.top.len(), 1);
    assert_eq!(summary.top[0].message, "User <NUM> failed authentication");
    assert_eq!(summary.top[0].count, 2);
}

#[test]
fn includes_fatal() {
    let mut acc = ErrorAccumulator::new();
    acc.observe(&event(Level::Fatal, "shutdown"));
    assert_eq!(acc.finish(10).total, 1);
}

#[test]
fn normalize_collapses_whitespace_and_masks_digit_runs() {
    assert_eq!(normalize("  a \t  b  "), "a b");
    assert_eq!(normalize("x12y345 6"), "x<NUM>y<NUM> <NUM>");
    assert_eq!(normalize("12 34"), "<NUM> <NUM>");
    assert_eq!(normalize(""), "");
    assert_eq!(normalize("\u{3000}a\u{a0}b"), "a b");
    // Only ASCII digits are masked.
    assert_eq!(normalize("id \u{0661}\u{0662}"), "id \u{0661}\u{0662}");
}

#[test]
fn normalizing_twice_changes_nothing() {
    let once = normalize("User  18273\tfailed 4 times");
    assert_eq!(normalize(&once), once);
}

#[test]
fn ties_are_ranked_by_message() {
    let mut acc = ErrorAccumulator::new();
    acc.observe(&event(Level::Error, "b"));
    acc.observe(&event(Level::Error, "a"));
    acc.observe(&event(Level::Error, "c"));
    acc.observe(&event(Level::Error, "c"));
    let summary = acc.finish(10);
    let order: Vec<&str> = summary.top.iter().map(|e| e.message.as_str()).collect();
    assert_eq!(order, vec!["c", "a", "b"]);
}

#[test]
fn top_n_limits_the_messages() {
    let mut acc = ErrorAccumulator::new();
    for m in ["a", "b", "c", "d"] {
        acc.observe(&event(Level::Error, m));
    }
    let summary = acc.finish(2);
    assert_eq!(summary.total, 4);
    assert_eq!(summary.top.len(), 2);
    assert_eq!(summary.top[0].message, "a");
    assert_eq!(summary.top[1].message, "b");
    let mut acc = ErrorAccumulator::new();
    acc.observe(&event(Level::Error, "a"));
    assert_eq!(acc.finish(0).top.len(), 0);
}

#[test]
fn timestamped_errors_feed_the_spikes() {
    let mut acc = ErrorAccumulator::new();
    let base = 1767225600;
    for b in 0..20 {
        let mut e = event(Level::Error, "quiet");
        e.timestamp = Some(Timestamp::from_secs(base + b * 300));
        acc.observe(&e);
    }
    for _ in 0..50 {
        let mut e = event(Level::Fatal, "outage");
        e.timestamp = Some(Timestamp::from_secs(base + 5 * 300 + 17));
        acc.observe(&e);
    }
    assert!(acc.spikes_computable());
    let summary = acc.finish(10);
    assert_eq!(summary.total, 70);
    assert_eq!(summary.spikes.len(), 1);
    assert_eq!(summary.spikes[0].count, 51);
    assert_eq!(summary.spikes[0].bucket_start.secs, base + 5 * 300);
    assert_eq!(summary.top[0].message, "outage");
    assert_eq!(summary.top[0].count, 50);
}

#[test]
fn numbers_of_any_length_count_together() {
    assert_eq!(normalize("User 18273 failed"), normalize("User 7 failed"));
    let mut acc = ErrorAccumulator::new();
    acc.observe(&event(Level::Error, "retry 1 of 10 for job 5521"));
    acc.observe(&event(Level::Error, "retry 10 of 10 for job 7"));
    acc.observe(&event(Level::Fatal, "retry  3 of 10 for job 12"));
    let summary = acc.finish(10);
    assert_eq!(summary.top.len(), 1);
    assert_eq!(summary.top[0].message, "retry <NUM> of <NUM> for job <NUM>");
    assert_eq!(summary.top[0].count, 3);
    // Reported messages are in normal form.
    assert_eq!(normalize(&summary.top[0].message), summary.top[0].message);
}

#[test]
fn normalized_messages_have_a_tidy_shape() {
    for m in ["  a  1 b\t22\n", " \t ", "x", "7", "9 apples  and 10 pears "] {
        let n = normalize(m);
        assert!(!n.chars().any(|c| c.is_ascii_digit()));
        assert!(!n.starts_with(' ') && !n.ends_with(' '));
        assert!(!n.contains("  "));
        assert!(n.chars().all(|c| c == ' ' || !c.is_whitespace()));
        assert_eq!(n.is_empty(), m.chars().all(|c| c.is_whitespace()));
    }
}

#[test]
fn error_spikes_match_a_spike_detector_fed_the_error_times() {
    let mut acc = ErrorAccumulator::new();
    let mut det = SpikeAccumulator::new();
    let mut times = Vec::new();
    for b in 0..10i64 {
        times.push(1767225600 + b * 300);
    }
    for _ in 0..20 {
        times.push(1767225600 + 4 * 300 + 17);
    }
    for t in &times {
        let ts = Timestamp::from_secs(*t);
        acc.observe(&LogEvent {
            timestamp: Some(ts),
            level: Some(Level::Error),
            message: "boom".to_string(),
            http: None,
        });
        // A non-error event with a timestamp is not counted.
        acc.observe(&LogEvent {
            timestamp: Some(ts),
            level: Some(Level::Info),
            message: "ok".to_string(),
            http: None,
        });
        det.observe(ts);
    }
    let s1 = acc.finish(0);
    assert!(s1.top.is_empty());
    let s2 = det.finish();
    let view = |v: &Vec<loglens::model::ErrorSpike>| v.iter().map(|s| (s.bucket_start, s.count)).collect::<Vec<_>>();
    assert_eq!(view(&s1.spikes), view(&s2));
    assert_eq!(s1.spikes.len(), 1);
}
