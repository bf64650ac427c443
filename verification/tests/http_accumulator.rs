use loglens::analyzer::http::HttpAccumulator;
use loglens::model::{HttpInfo, LogEvent};

fn ev(method: &str, path: &str, status: u16, dur: Option<u64>) -> LogEvent {
    LogEvent {
        timestamp: None,
        level: None,
        message: format!("{} {} {}", method, path, status),
        http: Some(HttpInfo {
            method: method.to_string(),
            path: path.to_string(),
            status,
            duration_ms: dur,
        }),
    }
}

#[test]
fn counts_status_classes() {
    let mut acc = HttpAccumulator::new();
    acc.observe(&ev("GET", "/a", 200, None));
    acc.observe(&ev("GET", "/a", 201, None));
    acc.observe(&ev("POST", "/b", 301, None));
    acc.observe(&ev("GET", "/c", 404, None));
    acc.observe(&ev("GET", "/d", 500, None));
    acc.observe(&ev("GET", "/e", 0, None));
    let s = acc.finish(10);
    assert_eq!(s.total_requests, 6);
    assert_eq!(s.s2xx, 2);
    assert_eq!(s.s3xx, 1);
    assert_eq!(s.s4xx, 1);
    assert_eq!(s.s5xx, 1);
    assert_eq!(s.other, 1);
}

#[test]
fn ignores_non_http_events() {
    let mut acc = HttpAccumulator::new();
    acc.observe(&LogEvent {
        timestamp: None,
        level: None,
        message: "not http".to_string(),
        http: None,
    });
    assert_eq!(acc.finish(10).total_requests, 0);
}

#[test]
fn sorts_endpoints_by_count_desc() {
    let mut acc = HttpAccumulator::new();
    acc.observe(&ev("GET", "/users", 200, None));
    acc.observe(&ev("GET", "/users", 200, None));
    acc.observe(&ev("GET", "/products", 200, None));
    let s = acc.finish(10);
    assert_eq!(s.top_endpoints[0].path, "/users");
    assert_eq!(s.top_endpoints[0].count, 2);
}

#[test]
fn respects_top_n() {
    let mut acc = HttpAccumulator::new();
    acc.observe(&ev("GET", "/a", 200, None));
    acc.observe(&ev("GET", "/b", 200, None));
    acc.observe(&ev("GET", "/c", 200, None));
    let s = acc.finish(2);
    assert_eq!(s.top_endpoints.len(), 2);
}

#[test]
fn status_class_boundaries() {
    let mut acc = HttpAccumulator::new();
    for st in [199, 200, 299, 300, 399, 400, 499, 500, 599, 600] {
        acc.observe(&ev("GET", "/", st, None));
    }
    let s = acc.finish(10);
    assert_eq!((s.s2xx, s.s3xx, s.s4xx, s.s5xx, s.other), (2, 2, 2, 2, 2));
    assert_eq!(s.s2xx + s.s3xx + s.s4xx + s.s5xx + s.other, s.total_requests);
    assert_eq!(s.top_endpoints.len(), 1);
    assert_eq!(s.top_endpoints[0].count, 10);
}

#[test]
fn endpoint_ties_are_ranked_by_path() {
    let mut acc = HttpAccumulator::new();
    acc.observe(&ev("GET", "/z", 200, None));
    acc.observe(&ev("GET", "/b", 200, None));
    acc.observe(&ev("GET", "/a", 200, None));
    let s = acc.finish(10);
    let order: Vec<&str> = s.top_endpoints.iter().map(|e| e.path.as_str()).collect();
    assert_eq!(order, vec!["/a", "/b", "/z"]);
}

#[test]
fn top_list_size_and_sum() {
    let mut acc = HttpAccumulator::new();
    for p in ["/a", "/b", "/a", "/c", "/a", "/b"] {
        acc.observe(&ev("GET", p, 200, None));
    }
    acc.observe(&LogEvent { timestamp: None, level: None, message: "x".to_string(), http: None });
    let s = acc.finish(2);
    assert_eq!(s.top_endpoints.len(), 2);
    let kept: u64 = s.top_endpoints.iter().map(|e| e.count).sum();
    assert_eq!(kept, 5);
    assert!(kept <= s.total_requests);
    let mut acc = HttpAccumulator::new();
    for p in ["/a", "/b", "/a"] {
        acc.observe(&ev("GET", p, 200, None));
    }
    let s = acc.finish(10);
    assert_eq!(s.top_endpoints.len(), 2);
    let kept: u64 = s.top_endpoints.iter().map(|e| e.count).sum();
    assert_eq!(kept, s.total_requests);
    let mut acc = HttpAccumulator::new();
    acc.observe(&ev("GET", "/a", 200, None));
    assert!(acc.finish(0).top_endpoints.is_empty());
}
