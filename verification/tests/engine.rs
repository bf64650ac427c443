use loglens::analyzer::engine::Analysis;
use loglens::analyzer::stats::{time_summary, time_summary_with, total_events, StatsAccumulator};
use loglens::model::{Level, LogEvent};
use loglens::time::Timestamp;

#[test]
fn analysis_of_a_small_log() {
    let lines = [
        "2026-01-01 00:00:00 INFO service started",
        "2026-01-01 00:00:03 ERROR User 18273 failed authentication",
        "2026-01-01 00:00:09 ERROR User 18291 failed authentication",
        "garbage line",
        "2026-01-01 00:02:00 FATAL out of memory",
        "2026-01-01 00:01:00 DEBUG cache warm",
    ];
    let mut a = Analysis::new();
    for l in lines {
        a.observe_line(l);
    }
    assert!(a.can_finish());
    let r = a.finish("app.log".to_string(), 10);
    assert_eq!(r.source, "app.log");
    assert_eq!(r.total_lines, 6);
    assert_eq!(r.parsed_events, 6);
    assert_eq!(r.stats.info, 1);
    assert_eq!(r.stats.error, 2);
    assert_eq!(r.stats.fatal, 1);
    assert_eq!(r.stats.debug, 1);
    assert_eq!(r.stats.unleveled, 1);
    assert_eq!(r.errors.total, 3);
    assert_eq!(r.errors.top[0].message, "User <NUM> failed authentication");
    assert_eq!(r.errors.top[0].count, 2);
    assert_eq!(r.time.first, Some(Timestamp::from_secs(1767225600)));
    assert_eq!(r.time.last, Some(Timestamp::from_secs(1767225720)));
    assert_eq!(r.time.duration_secs, Some(120));
    assert_eq!(r.http.total_requests, 0);
    assert!(r.errors.spikes.is_empty());
}

#[test]
fn empty_log() {
    let r = Analysis::new().finish(String::new(), 10);
    assert_eq!(r.total_lines, 0);
    assert_eq!(r.time.first, None);
    assert_eq!(r.time.duration_secs, None);
    assert!(r.errors.top.is_empty());
}

fn at(secs: i64, level: Option<Level>) -> LogEvent {
    LogEvent {
        timestamp: Some(Timestamp::from_secs(secs)),
        level,
        message: String::new(),
        http: None,
    }
}

#[test]
fn stats_track_first_and_last() {
    let mut acc = StatsAccumulator::new();
    acc.observe(&at(50, Some(Level::Info)));
    acc.observe(&at(10, None));
    acc.observe(&at(90, Some(Level::Trace)));
    acc.observe(&at(20, Some(Level::Warn)));
    let s = acc.finish();
    assert_eq!(s.first_timestamp, Some(Timestamp::from_secs(10)));
    assert_eq!(s.last_timestamp, Some(Timestamp::from_secs(90)));
    assert_eq!(total_events(&s), 4);
    let t = time_summary(&s);
    assert_eq!(t.duration_secs, Some(80));
}

#[test]
fn leap_second_is_later_than_its_second() {
    let mut acc = StatsAccumulator::new();
    acc.observe(&at(59, None));
    acc.observe(&LogEvent {
        timestamp: Some(Timestamp { secs: 59, nanos: 1_000_000_000 }),
        level: None,
        message: String::new(),
        http: None,
    });
    let s = acc.finish();
    assert_eq!(s.first_timestamp, Some(Timestamp::from_secs(59)));
    assert_eq!(s.last_timestamp, Some(Timestamp { secs: 59, nanos: 1_000_000_000 }));
    assert_eq!(time_summary(&s).duration_secs, Some(1));
}

#[test]
fn duration_is_never_negative() {
    let stats = loglens::model::Stats {
        info: 0,
        debug: 0,
        warn: 0,
        error: 0,
        fatal: 0,
        trace: 0,
        unleveled: 0,
        first_timestamp: Some(Timestamp::from_secs(100)),
        last_timestamp: Some(Timestamp::from_secs(40)),
    };
    assert_eq!(time_summary(&stats).duration_secs, Some(0));
    let only_first = loglens::model::Stats { last_timestamp: None, ..stats };
    assert_eq!(time_summary(&only_first).duration_secs, None);
}

fn stats_between(first: Option<Timestamp>, last: Option<Timestamp>) -> loglens::model::Stats {
    loglens::model::Stats {
        info: 0,
        debug: 0,
        warn: 0,
        error: 0,
        fatal: 0,
        trace: 0,
        unleveled: 0,
        first_timestamp: first,
        last_timestamp: last,
    }
}

#[test]
fn duration_drops_the_fraction_of_a_second() {
    let s = stats_between(
        Some(Timestamp { secs: 10, nanos: 900_000_000 }),
        Some(Timestamp { secs: 12, nanos: 100_000_000 }),
    );
    assert_eq!(time_summary(&s).duration_secs, Some(1));
    let s = stats_between(
        Some(Timestamp { secs: 10, nanos: 100_000_000 }),
        Some(Timestamp { secs: 12, nanos: 900_000_000 }),
    );
    assert_eq!(time_summary(&s).duration_secs, Some(2));
}

#[test]
fn time_summary_from_elapsed_seconds() {
    let s = stats_between(Some(Timestamp::from_secs(0)), Some(Timestamp::from_secs(5)));
    assert_eq!(time_summary_with(&s, Some(37)).duration_secs, Some(37));
    assert_eq!(time_summary_with(&s, Some(-4)).duration_secs, Some(0));
    assert_eq!(time_summary_with(&s, None).duration_secs, None);
    let t = time_summary_with(&stats_between(None, Some(Timestamp::from_secs(5))), Some(3));
    assert_eq!(t.duration_secs, None);
    assert_eq!(t.first, None);
    assert_eq!(t.last, Some(Timestamp::from_secs(5)));
}

#[test]
fn line_order_does_not_change_the_summaries() {
    let mut lines = vec![
        "2026-01-01 00:00:00 INFO service started".to_string(),
        "2026-01-01 00:00:03 ERROR User 18273 failed authentication".to_string(),
        "2026-01-01 00:07:09 ERROR Disk 3 full".to_string(),
        "no timestamp here".to_string(),
        "2026-01-01 00:02:00 FATAL out of memory".to_string(),
        "2026-01-01 00:11:00 error Disk 4 full".to_string(),
        "2026-01-01 00:01:00 WARN slow".to_string(),
    ];
    for i in 0..20 {
        lines.push(format!("2026-01-01 00:{:02}:00 ERROR burst {}", 20 + (i % 2), i));
    }
    let run = |ls: &[String]| {
        let mut a = Analysis::new();
        for l in ls {
            a.observe_line(l);
        }
        assert!(a.can_finish());
        a.finish("x".to_string(), 10)
    };
    let forward = run(&lines);
    let mut reversed = lines.clone();
    reversed.reverse();
    let backward = run(&reversed);
    assert_eq!(forward.stats.error, backward.stats.error);
    assert_eq!(forward.stats.fatal, backward.stats.fatal);
    assert_eq!(forward.stats.unleveled, backward.stats.unleveled);
    assert_eq!(forward.stats.first_timestamp, backward.stats.first_timestamp);
    assert_eq!(forward.stats.last_timestamp, backward.stats.last_timestamp);
    assert_eq!(forward.errors.total, backward.errors.total);
    let top = |r: &loglens::model::AnalysisResult| {
        r.errors.top.iter().map(|e| (e.message.clone(), e.count)).collect::<Vec<_>>()
    };
    assert_eq!(top(&forward), top(&backward));
    assert_eq!(top(&forward)[0], ("burst <NUM>".to_string(), 20));
    let spikes = |r: &loglens::model::AnalysisResult| {
        r.errors.spikes.iter().map(|s| (s.bucket_start, s.count)).collect::<Vec<_>>()
    };
    assert_eq!(spikes(&forward), spikes(&backward));
}

#[test]
fn analysis_counts_http_requests() {
    let lines = [
        "2026-01-01 00:00:00 INFO GET /api/users 200 42ms",
        "2026-01-01 00:00:01 INFO GET /api/users 201",
        "2026-01-01 00:00:02 WARN POST /api/orders 404 3ms",
        "2026-01-01 00:00:03 ERROR DELETE /api/orders/5 500",
        "2026-01-01 00:00:04 INFO service started",
        r#"1.2.3.4 - - [x] "GET /health HTTP/1.1" 301 0"#,
        "éééééééééé not a timestamp",
    ];
    let mut a = Analysis::new();
    for l in lines {
        a.observe_line(l);
    }
    assert!(a.can_finish());
    let r = a.finish("web.log".to_string(), 2);
    assert_eq!(r.total_lines, 7);
    assert_eq!(r.stats.unleveled, 2);
    assert_eq!(r.http.total_requests, 5);
    assert_eq!(r.http.s2xx, 2);
    assert_eq!(r.http.s3xx, 1);
    assert_eq!(r.http.s4xx, 1);
    assert_eq!(r.http.s5xx, 1);
    assert_eq!(r.http.other, 0);
    assert_eq!(r.http.top_endpoints.len(), 2);
    assert_eq!(r.http.top_endpoints[0].path, "/api/users");
    assert_eq!(r.http.top_endpoints[0].count, 2);
    assert_eq!(r.http.top_endpoints[1].path, "/api/orders");
    assert_eq!(r.errors.top[0].message, "DELETE /api/orders/<NUM> <NUM>");
}
