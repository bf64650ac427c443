use loglens::analyzer::spikes::{floor_to_bucket, SpikeAccumulator};
use loglens::time::{Timestamp, MAX_TIMESTAMP, MIN_TIMESTAMP};

fn ts(secs: i64) -> Timestamp {
    Timestamp::from_secs(secs)
}

#[test]
fn floors_to_bucket_boundary() {
    // 2026-01-01 00:00:00 UTC is 1767225600
    let t = ts(1767225600 + 7 * 60); // 7 minutes past the hour
    let floored = floor_to_bucket(t);
    assert_eq!(floored.secs % (5 * 60), 0);
    assert_eq!(floored.secs, 1767225600 + 5 * 60);
}

#[test]
fn no_spikes_in_uniform_log() {
    let mut acc = SpikeAccumulator::new();
    // 10 buckets, 5 errors each — perfectly flat.
    for b in 0..10 {
        for _ in 0..5 {
            acc.observe(ts(1767225600 + b * 5 * 60));
        }
    }
    assert!(acc.finish().is_empty());
}

#[test]
fn detects_obvious_spike() {
    let mut acc = SpikeAccumulator::new();
    // 20 quiet buckets with 1 error each...
    for b in 0..20 {
        acc.observe(ts(1767225600 + b * 5 * 60));
    }
    // ...and one bucket with 50 more errors (bucket 5 already has 1
    // from the loop above, so the total is 51).
    for _ in 0..50 {
        acc.observe(ts(1767225600 + 5 * 5 * 60));
    }
    let spikes = acc.finish();
    assert_eq!(spikes.len(), 1);
    assert_eq!(spikes[0].count, 51);
    let mean = spikes[0].total_errors as f64 / spikes[0].bucket_count as f64;
    let severity = spikes[0].count as f64 / mean;
    assert!(severity > 10.0);
}

#[test]
fn ignores_tiny_buckets() {
    let mut acc = SpikeAccumulator::new();
    // Below MIN_SPIKE_COUNT (3) — even if statistically odd.
    for b in 0..20 {
        acc.observe(ts(1767225600 + b * 5 * 60));
    }
    acc.observe(ts(1767225600 + 5 * 5 * 60));
    acc.observe(ts(1767225600 + 5 * 5 * 60)); // now that bucket has 3
                                              // Not enough spread — depends on stddev. Just confirm no panic.
    let _ = acc.finish();
}

#[test]
fn spike_reports_bucket_bounds() {
    let mut acc = SpikeAccumulator::new();
    for b in 0..20 {
        acc.observe(ts(1767225600 + b * 300 + 299));
    }
    for _ in 0..10 {
        acc.observe(ts(1767225600 + 7 * 300 + 1));
    }
    let spikes = acc.finish();
    assert_eq!(spikes.len(), 1);
    assert_eq!(spikes[0].bucket_start, ts(1767225600 + 7 * 300));
    assert_eq!(spikes[0].bucket_end, ts(1767225600 + 8 * 300));
    assert_eq!(spikes[0].total_errors, 30);
    assert_eq!(spikes[0].bucket_count, 20);
}

#[test]
fn fewer_than_three_buckets_never_spike() {
    let mut acc = SpikeAccumulator::new();
    acc.observe(ts(0));
    for _ in 0..100 {
        acc.observe(ts(600));
    }
    assert!(acc.finish().is_empty());
}

#[test]
fn small_samples_use_one_sigma() {
    // Four buckets: 1, 1, 1, 10. mean 3.25, stddev ~3.9; 10 > 3.25 + 3.9.
    let mut acc = SpikeAccumulator::new();
    for b in 0..3 {
        acc.observe(ts(b * 300));
    }
    for _ in 0..10 {
        acc.observe(ts(3 * 300));
    }
    let spikes = acc.finish();
    assert_eq!(spikes.len(), 1);
    assert_eq!(spikes[0].count, 10);
}

#[test]
fn spikes_come_biggest_first_then_in_time_order() {
    let mut acc = SpikeAccumulator::new();
    for b in 0..30 {
        acc.observe(ts(b * 300));
    }
    for (bucket, extra) in [(4, 30), (9, 40), (20, 30)] {
        for _ in 0..extra {
            acc.observe(ts(bucket * 300));
        }
    }
    let spikes = acc.finish();
    let got: Vec<(i64, u64)> = spikes.iter().map(|s| (s.bucket_start.secs / 300, s.count)).collect();
    assert_eq!(got, vec![(9, 41), (4, 31), (20, 31)]);
}

#[test]
fn negative_timestamps_floor_down() {
    assert_eq!(floor_to_bucket(ts(-1)).secs, -300);
    assert_eq!(floor_to_bucket(ts(-300)).secs, -300);
    let leap = Timestamp { secs: 59, nanos: 1_500_000_000 };
    assert_eq!(floor_to_bucket(leap), ts(0));
}

#[test]
fn chrono_range_matches_the_constants() {
    assert!(chrono::DateTime::from_timestamp(MIN_TIMESTAMP, 0).is_some());
    assert!(chrono::DateTime::from_timestamp(MIN_TIMESTAMP - 1, 0).is_none());
    assert!(chrono::DateTime::from_timestamp(MAX_TIMESTAMP, 0).is_some());
    assert!(chrono::DateTime::from_timestamp(MAX_TIMESTAMP + 1, 0).is_none());
    assert_eq!(floor_to_bucket(ts(MIN_TIMESTAMP)), ts(MIN_TIMESTAMP));
}

#[test]
fn last_bucket_end_is_checked() {
    let mut acc = SpikeAccumulator::new();
    for b in 1..10 {
        acc.observe(ts(MAX_TIMESTAMP - b * 300));
    }
    for _ in 0..20 {
        acc.observe(ts(MAX_TIMESTAMP));
    }
    assert!(!acc.spike_ends_in_range());
}

#[test]
fn spikes_out_of_order_input_have_distinct_buckets() {
    let mut acc = SpikeAccumulator::new();
    // Quiet buckets, fed from the latest back to the earliest.
    for b in (0..12).rev() {
        acc.observe(ts(1767225600 + b * 300 + 7));
    }
    // Two loud buckets, interleaved.
    for _ in 0..30 {
        acc.observe(ts(1767225600 + 9 * 300 + 1));
        acc.observe(ts(1767225600 + 2 * 300 + 299));
    }
    let spikes = acc.finish();
    assert_eq!(spikes.len(), 2);
    assert_ne!(spikes[0].bucket_start, spikes[1].bucket_start);
    // Equal counts: earlier bucket first.
    assert_eq!(spikes[0].count, 31);
    assert_eq!(spikes[0].bucket_start, Timestamp::from_secs(1767225600 + 2 * 300));
    assert_eq!(spikes[1].bucket_start, Timestamp::from_secs(1767225600 + 9 * 300));
}
