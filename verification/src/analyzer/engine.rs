//! The analysis engine: every line parsed into an event (with its HTTP
//! request info) and fed to the three accumulators (stats, errors, http) in
//! a single pass.

use vstd::prelude::*;
use crate::analyzer::errors::{
    buckets_run, buckets_step, counts_run, counts_step, error_counts_view, error_events, error_times,
    lemma_error_steps_commute, lemma_errors_run, normalized,
    ErrorAccumulator,
};
use crate::analyzer::http::{
    class_run, class_step, endpoint_counts_view, endpoints_run, endpoints_step, requests_run,
    requests_step, HttpAccumulator,
};
use crate::analyzer::spikes::{bucket_run, is_spike, spikes_of, BUCKET_SECS};
use crate::analyzer::stats::{
    duration_of, events_counted, lemma_stats_step_commutes, no_stats, plain_elapsed, stats_run, stats_step,
    time_summary,
    StatsAccumulator,
};
use crate::analyzer::tally::is_top;
use crate::model::{AnalysisResult, EventView, Stats};
use crate::parser::{line_view, parse_line};
use crate::parser::http::parse_spec;
use crate::parser::text::fields;
use crate::time::{lemma_whole_seconds_nonnegative, MAX_TIMESTAMP};

verus! {

/// The order of the lines does not matter: two lines read either way round
/// leave the same stats, error counts and error buckets.
pub proof fn lemma_line_order_irrelevant(
    stats: Stats,
    counts: Map<Seq<char>, nat>,
    buckets: Seq<(i64, nat)>,
    line1: Seq<char>,
    line2: Seq<char>,
)
    ensures
        ({
            let (t1, l1, m1) = fields(line1);
            let (t2, l2, m2) = fields(line2);
            &&& stats_step(stats_step(stats, l1, t1), l2, t2) == stats_step(
                stats_step(stats, l2, t2),
                l1,
                t1,
            )
            &&& counts_step(counts_step(counts, l1, m1), l2, m2) == counts_step(
                counts_step(counts, l2, m2),
                l1,
                m1,
            )
            &&& buckets_step(buckets_step(buckets, l1, t1), l2, t2) == buckets_step(
                buckets_step(buckets, l2, t2),
                l1,
                t1,
            )
        }),
{
    let (t1, l1, m1) = fields(line1);
    let (t2, l2, m2) = fields(line2);
    lemma_stats_step_commutes(stats, l1, t1, l2, t2);
    lemma_error_steps_commute(counts, buckets, l1, m1, t1, l2, m2, t2);
}

/// The state of an analysis in progress.
pub struct Analysis {
    total_lines: u64,
    parsed_events: u64,
    stats: StatsAccumulator,
    errors: ErrorAccumulator,
    http: HttpAccumulator,
    events: Ghost<Seq<EventView>>,
}

impl Analysis {
    pub closed spec fn wf(&self) -> bool {
        &&& self.stats.wf()
        &&& self.errors.wf()
        &&& self.http.wf()
        &&& self.parsed_events == self.total_lines
        &&& events_counted(self.stats@) == self.total_lines
        &&& self.errors.total() == self.stats@.error + self.stats@.fatal
        &&& self.http.requests() <= self.total_lines
        &&& self.events@.len() == self.total_lines
        &&& self.stats@ == stats_run(self.events@)
        &&& self.errors.counts() == counts_run(self.events@)
        &&& self.errors.total() == error_events(self.events@)
        &&& self.errors.buckets() == buckets_run(self.events@)
        &&& self.http.requests() == requests_run(self.events@)
        &&& forall|c: nat| c == 0 || 2 <= c <= 5 ==> #[trigger] self.http.in_class(c) == class_run(self.events@, c)
        &&& self.http.endpoints() == endpoints_run(self.events@)
    }

    /// The events of the lines read so far, in order.
    pub closed spec fn events(&self) -> Seq<EventView> {
        self.events@
    }

    /// What an analysis holds is what the accumulators hold when fed the
    /// events of the lines read, in order: the stats, error counts, error
    /// buckets and HTTP counts are the runs of those events.
    pub proof fn lemma_runs(&self)
        requires
            self.wf(),
        ensures
            self.lines() == self.events().len(),
            self.stats() == stats_run(self.events()),
            self.error_counts() == counts_run(self.events()),
            self.errors_total() == error_events(self.events()),
            self.error_buckets() == buckets_run(self.events()),
            self.http_requests() == requests_run(self.events()),
            forall|c: nat| c == 0 || 2 <= c <= 5 ==> #[trigger] self.http_in_class(c) == class_run(self.events(), c),
            self.http_endpoints() == endpoints_run(self.events()),
    {
    }

    /// Lines read so far.
    pub closed spec fn lines(&self) -> nat {
        self.total_lines as nat
    }

    /// Per-level counts and time range so far.
    pub closed spec fn stats(&self) -> Stats {
        self.stats@
    }

    /// Normalized error message → count, so far.
    pub closed spec fn error_counts(&self) -> Map<Seq<char>, nat> {
        self.errors.counts()
    }

    /// Errors so far.
    pub closed spec fn errors_total(&self) -> nat {
        self.errors.total()
    }

    /// Time buckets of the errors so far.
    pub closed spec fn error_buckets(&self) -> Seq<(i64, nat)> {
        self.errors.buckets()
    }

    /// HTTP requests so far.
    pub closed spec fn http_requests(&self) -> nat {
        self.http.requests()
    }

    /// HTTP requests so far in status class `c` (see `status_class`).
    pub closed spec fn http_in_class(&self, c: nat) -> nat {
        self.http.in_class(c)
    }

    /// Endpoint path → HTTP requests to it, so far.
    pub closed spec fn http_endpoints(&self) -> Map<Seq<char>, nat> {
        self.http.endpoints()
    }

    /// An analysis that has read nothing.
    pub fn new() -> (r: Analysis)
        ensures
            r.wf(),
            r.lines() == 0,
            r.stats() == no_stats(),
            events_counted(r.stats()) == 0,
            r.stats().first_timestamp is None,
            r.error_counts() == Map::<Seq<char>, nat>::empty(),
            r.errors_total() == 0,
            r.error_buckets() == Seq::<(i64, nat)>::empty(),
            r.http_requests() == 0,
            forall|c: nat| #[trigger] r.http_in_class(c) == 0,
            r.http_endpoints() == Map::<Seq<char>, nat>::empty(),
            r.events() == Seq::<EventView>::empty(),
    {
        Analysis {
            total_lines: 0,
            parsed_events: 0,
            stats: StatsAccumulator::new(),
            errors: ErrorAccumulator::new(),
            http: HttpAccumulator::new(),
            events: Ghost(Seq::empty()),
        }
    }

    /// Parses one more line and folds its event into the stats, the error
    /// summary and the HTTP summary.
    pub fn observe_line(&mut self, line: &str)
        requires
            old(self).wf(),
            old(self).lines() < u64::MAX,
        ensures
            final(self).wf(),
            final(self).lines() == old(self).lines() + 1,
            final(self).events() == old(self).events().push(line_view(line@)),
            ({
                let (ts, level, message) = fields(line@);
                let info = parse_spec(message);
                &&& final(self).stats() == stats_step(old(self).stats(), level, ts)
                &&& final(self).error_counts() == counts_step(old(self).error_counts(), level, message)
                &&& final(self).error_buckets() == buckets_step(old(self).error_buckets(), level, ts)
                &&& final(self).http_requests() == requests_step(old(self).http_requests(), info)
                &&& forall|c: nat|
                    c == 0 || 2 <= c <= 5 ==> #[trigger] final(self).http_in_class(c) == class_step(
                        old(self).http_in_class(c),
                        c,
                        info,
                    )
                &&& final(self).http_endpoints() == endpoints_step(old(self).http_endpoints(), info)
            }),
    {
        self.total_lines = self.total_lines + 1;
        let event = parse_line(line);
        proof {
            assert(crate::analyzer::stats::level_count(self.stats@, event.level) <= events_counted(self.stats@));
        }
        self.stats.observe(&event);
        self.errors.observe(&event);
        self.http.observe(&event);
        self.parsed_events = self.parsed_events + 1;
        let ghost prev = self.events@;
        proof {
            self.events@ = prev.push(line_view(line@));
            assert(self.events@.drop_last() =~= prev);
            assert(self.events@.last() == event@);
            assert forall|c: nat| c == 0 || 2 <= c <= 5 implies #[trigger] self.http.in_class(c) == class_run(
                self.events@,
                c,
            ) by {
                assert(old(self).http.in_class(c) == class_run(prev, c));
            }
        }
    }

    /// The spike computation can run on what was read: every spike bucket
    /// ends within chrono's range.
    pub fn can_finish(&self) -> (r: bool)
        requires
            self.wf(),
        ensures
            r == (forall|j: int|
                0 <= j < self.error_buckets().len() && is_spike(
                    self.error_buckets(),
                    #[trigger] self.error_buckets()[j].1,
                ) ==> self.error_buckets()[j].0 + BUCKET_SECS <= MAX_TIMESTAMP),
    {
        let r = self.errors.spikes_computable();
        assert(self.error_buckets() == self.errors.buckets());
        r
    }

    /// The combined result, keeping the `top_n` most frequent error
    /// messages and endpoints.
    pub fn finish(self, source: String, top_n: usize) -> (r: AnalysisResult)
        requires
            self.wf(),
            forall|j: int|
                0 <= j < self.error_buckets().len() && is_spike(
                    self.error_buckets(),
                    #[trigger] self.error_buckets()[j].1,
                ) ==> self.error_buckets()[j].0 + BUCKET_SECS <= MAX_TIMESTAMP,
        ensures
            r.source@ == source@,
            r.total_lines == self.lines(),
            r.parsed_events == r.total_lines,
            r.stats == self.stats(),
            events_counted(r.stats) == r.total_lines,
            r.errors.total == self.errors_total(),
            r.errors.total == r.stats.error + r.stats.fatal,
            is_top(self.error_counts(), top_n as nat, error_counts_view(r.errors.top@)),
            forall|i: int| 0 <= i < r.errors.top@.len() ==> normalized(
                #[trigger] r.errors.top@[i].message@,
            ) == r.errors.top@[i].message@,
            spikes_of(self.error_buckets(), r.errors.spikes@),
            forall|i: int, j: int|
                0 <= i < j < r.errors.spikes@.len() ==> #[trigger] r.errors.spikes@[i].bucket_start
                    != #[trigger] r.errors.spikes@[j].bucket_start,
            r.time.first == r.stats.first_timestamp,
            r.time.last == r.stats.last_timestamp,
            r.time.duration_secs == duration_of(r.stats.first_timestamp, r.stats.last_timestamp),
            plain_elapsed(r.stats.first_timestamp, r.stats.last_timestamp) matches Some(d) ==> d >= 0
                && r.time.duration_secs == Some(d as i64),
            r.http.total_requests == self.http_requests(),
            r.http.s2xx == self.http_in_class(2),
            r.http.s3xx == self.http_in_class(3),
            r.http.s4xx == self.http_in_class(4),
            r.http.s5xx == self.http_in_class(5),
            r.http.other == self.http_in_class(0),
            r.http.s2xx + r.http.s3xx + r.http.s4xx + r.http.s5xx + r.http.other == r.http.total_requests,
            r.http.total_requests <= r.total_lines,
            is_top(self.http_endpoints(), top_n as nat, endpoint_counts_view(r.http.top_endpoints@)),
            r.errors.top@.len() <= top_n,
            r.http.top_endpoints@.len() <= top_n,
            r.stats == stats_run(self.events()),
            r.errors.total == error_events(self.events()),
            is_top(counts_run(self.events()), top_n as nat, error_counts_view(r.errors.top@)),
            spikes_of(bucket_run(error_times(self.events())), r.errors.spikes@),
            r.http.total_requests == requests_run(self.events()),
            is_top(endpoints_run(self.events()), top_n as nat, endpoint_counts_view(r.http.top_endpoints@)),
    {
        proof {
            lemma_errors_run(self.events@);
        }
        let stats = self.stats.finish();
        assert(self.error_buckets() == self.errors.buckets());
        let errors = self.errors.finish(top_n);
        let http = self.http.finish(top_n);
        let time = time_summary(&stats);
        proof {
            if let (Some(f), Some(l)) = (stats.first_timestamp, stats.last_timestamp) {
                if f.nanos < 1_000_000_000 && l.nanos < 1_000_000_000 {
                    lemma_whole_seconds_nonnegative(l, f);
                }
            }
        }
        AnalysisResult {
            source,
            total_lines: self.total_lines,
            parsed_events: self.parsed_events,
            stats,
            errors,
            time,
            http,
        }
    }
}

} // verus!
