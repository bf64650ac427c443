//! Per-level counts and the time range of a log.

use vstd::prelude::*;
use crate::analyzer::errors::event_wf;
use crate::model::{EventView, Level, LogEvent, Stats, TimeSummary};
use crate::time::{chrono_seconds_between, lemma_earlier_total, seconds_between, whole_seconds, Timestamp};

verus! {

/// The earlier of a running first timestamp and a new one.
pub open spec fn earliest(cur: Option<Timestamp>, ts: Timestamp) -> Option<Timestamp> {
    match cur {
        None => Some(ts),
        Some(e) => if ts.earlier(e) {
            Some(ts)
        } else {
            Some(e)
        },
    }
}

/// The later of a running last timestamp and a new one.
pub open spec fn latest(cur: Option<Timestamp>, ts: Timestamp) -> Option<Timestamp> {
    match cur {
        None => Some(ts),
        Some(e) => if e.earlier(ts) {
            Some(ts)
        } else {
            Some(e)
        },
    }
}

/// The counter of `stats` that an event of level `level` goes to.
pub open spec fn level_count(stats: Stats, level: Option<Level>) -> u64 {
    match level {
        Some(Level::Info) => stats.info,
        Some(Level::Debug) => stats.debug,
        Some(Level::Warn) => stats.warn,
        Some(Level::Error) => stats.error,
        Some(Level::Fatal) => stats.fatal,
        Some(Level::Trace) => stats.trace,
        None => stats.unleveled,
    }
}

/// The stats after one more event with the given level and timestamp.
pub open spec fn stats_step(s: Stats, level: Option<Level>, ts: Option<Timestamp>) -> Stats {
    Stats {
        info: if level == Some(Level::Info) { (s.info + 1) as u64 } else { s.info },
        debug: if level == Some(Level::Debug) { (s.debug + 1) as u64 } else { s.debug },
        warn: if level == Some(Level::Warn) { (s.warn + 1) as u64 } else { s.warn },
        error: if level == Some(Level::Error) { (s.error + 1) as u64 } else { s.error },
        fatal: if level == Some(Level::Fatal) { (s.fatal + 1) as u64 } else { s.fatal },
        trace: if level == Some(Level::Trace) { (s.trace + 1) as u64 } else { s.trace },
        unleveled: if level is None { (s.unleveled + 1) as u64 } else { s.unleveled },
        first_timestamp: match ts {
            Some(t) => earliest(s.first_timestamp, t),
            None => s.first_timestamp,
        },
        last_timestamp: match ts {
            Some(t) => latest(s.last_timestamp, t),
            None => s.last_timestamp,
        },
    }
}

/// Two events fold into the same stats in either order.
pub proof fn lemma_stats_step_commutes(
    s: Stats,
    l1: Option<Level>,
    t1: Option<Timestamp>,
    l2: Option<Level>,
    t2: Option<Timestamp>,
)
    ensures
        stats_step(stats_step(s, l1, t1), l2, t2) == stats_step(stats_step(s, l2, t2), l1, t1),
{
    if let (Some(a), Some(b)) = (t1, t2) {
        lemma_earlier_total(a, b);
        if let Some(c) = s.first_timestamp {
            lemma_earlier_total(a, c);
            lemma_earlier_total(b, c);
        }
        if let Some(c) = s.last_timestamp {
            lemma_earlier_total(a, c);
            lemma_earlier_total(b, c);
        }
    }
}

/// After an event with a timestamp, the time range covers that timestamp
/// and the range before it: the first timestamp is the earliest seen and
/// the last the latest.
pub proof fn lemma_stats_step_covers(s: Stats, level: Option<Level>, t: Timestamp)
    ensures
        ({
            let r = stats_step(s, level, Some(t));
            &&& r.first_timestamp matches Some(f) && !t.earlier(f)
            &&& r.last_timestamp matches Some(l) && !l.earlier(t)
            &&& s.first_timestamp matches Some(f0) ==> !f0.earlier(r.first_timestamp->0)
            &&& s.last_timestamp matches Some(l0) ==> !r.last_timestamp->0.earlier(l0)
        }),
{
    lemma_earlier_total(t, t);
    if let Some(f0) = s.first_timestamp {
        lemma_earlier_total(t, f0);
    }
    if let Some(l0) = s.last_timestamp {
        lemma_earlier_total(t, l0);
    }
}

/// The stats of no events: every count zero, no time range.
pub open spec fn no_stats() -> Stats {
    Stats {
        info: 0,
        debug: 0,
        warn: 0,
        error: 0,
        fatal: 0,
        trace: 0,
        unleveled: 0,
        first_timestamp: None,
        last_timestamp: None,
    }
}

/// The stats of a run of events, folded in order from [`no_stats`].
pub open spec fn stats_run(evs: Seq<EventView>) -> Stats
    decreases evs.len(),
{
    if evs.len() == 0 {
        no_stats()
    } else {
        stats_step(stats_run(evs.drop_last()), evs.last().level, evs.last().timestamp)
    }
}

/// How many events of a run have level `l` (`None`: no level).
pub open spec fn level_events(evs: Seq<EventView>, l: Option<Level>) -> nat
    decreases evs.len(),
{
    if evs.len() == 0 {
        0
    } else {
        level_events(evs.drop_last(), l) + if evs.last().level == l {
            1nat
        } else {
            0nat
        }
    }
}

/// Some event of the run has a timestamp.
pub open spec fn has_timestamp(evs: Seq<EventView>) -> bool {
    exists|i: int| 0 <= i < evs.len() && (#[trigger] evs[i]).timestamp is Some
}

/// Over a run of events: each level's counter is the number of events of
/// that level, the counters add up to the number of events, and the time
/// range is from the earliest to the latest timestamp of the run (none
/// when no event has one).
pub proof fn lemma_stats_run(evs: Seq<EventView>)
    requires
        forall|l: Option<Level>| #[trigger] level_events(evs, l) <= u64::MAX,
    ensures
        forall|l: Option<Level>| #[trigger] level_count(stats_run(evs), l) == level_events(evs, l),
        events_counted(stats_run(evs)) == evs.len(),
        stats_run(evs).first_timestamp is None <==> !has_timestamp(evs),
        stats_run(evs).last_timestamp is None <==> !has_timestamp(evs),
        stats_run(evs).first_timestamp matches Some(f) ==> {
            &&& exists|i: int| 0 <= i < evs.len() && (#[trigger] evs[i]).timestamp == Some(f)
            &&& forall|i: int|
                0 <= i < evs.len() ==> ((#[trigger] evs[i]).timestamp matches Some(t) ==> !t.earlier(f))
        },
        stats_run(evs).last_timestamp matches Some(l) ==> {
            &&& exists|i: int| 0 <= i < evs.len() && (#[trigger] evs[i]).timestamp == Some(l)
            &&& forall|i: int|
                0 <= i < evs.len() ==> ((#[trigger] evs[i]).timestamp matches Some(t) ==> !l.earlier(t))
        },
    decreases evs.len(),
{
    if evs.len() == 0 {
        return;
    }
    let p = evs.drop_last();
    let e = evs.last();
    assert forall|l: Option<Level>| #[trigger] level_events(p, l) <= u64::MAX by {
        assert(level_events(p, l) <= level_events(evs, l));
    }
    lemma_stats_run(p);
    let sp = stats_run(p);
    assert(level_events(evs, e.level) == level_events(p, e.level) + 1);
    assert(level_count(sp, e.level) < u64::MAX);
    assert forall|l: Option<Level>| #[trigger] level_count(stats_run(evs), l) == level_events(evs, l) by {
        assert(level_count(sp, l) == level_events(p, l));
    }
    assert forall|i: int| 0 <= i < p.len() implies #[trigger] evs[i] == p[i] by {}
    assert(evs[evs.len() - 1] == e);
    if has_timestamp(evs) && !has_timestamp(p) {
        let i = choose|i: int| 0 <= i < evs.len() && (#[trigger] evs[i]).timestamp is Some;
        if i < p.len() {
            assert(p[i].timestamp is Some);
        }
    }
    if has_timestamp(p) {
        let i = choose|i: int| 0 <= i < p.len() && (#[trigger] p[i]).timestamp is Some;
        assert(evs[i].timestamp is Some);
    }
    if let Some(t) = e.timestamp {
        lemma_earlier_total(t, t);
        if let Some(f0) = sp.first_timestamp {
            lemma_earlier_total(t, f0);
            let i0 = choose|i: int| 0 <= i < p.len() && (#[trigger] p[i]).timestamp == Some(f0);
            assert(evs[i0].timestamp == Some(f0));
        }
        if let Some(l0) = sp.last_timestamp {
            lemma_earlier_total(t, l0);
            let i0 = choose|i: int| 0 <= i < p.len() && (#[trigger] p[i]).timestamp == Some(l0);
            assert(evs[i0].timestamp == Some(l0));
        }
    } else {
        if let Some(f0) = sp.first_timestamp {
            let i0 = choose|i: int| 0 <= i < p.len() && (#[trigger] p[i]).timestamp == Some(f0);
            assert(evs[i0].timestamp == Some(f0));
        }
        if let Some(l0) = sp.last_timestamp {
            let i0 = choose|i: int| 0 <= i < p.len() && (#[trigger] p[i]).timestamp == Some(l0);
            assert(evs[i0].timestamp == Some(l0));
        }
    }
}

/// One more event is one more step: feeding a [`StatsAccumulator`] a run
/// of events one by one gives the stats of the run.
pub proof fn lemma_stats_run_push(evs: Seq<EventView>, e: EventView)
    ensures
        stats_run(evs.push(e)) == stats_step(stats_run(evs), e.level, e.timestamp),
{
    assert(evs.push(e).drop_last() =~= evs);
}

/// Events counted, over all levels.
pub open spec fn events_counted(s: Stats) -> int {
    s.info + s.debug + s.warn + s.error + s.fatal + s.trace + s.unleveled
}

/// Both timestamps are present or both absent, valid, and in order.
pub open spec fn time_range_wf(first: Option<Timestamp>, last: Option<Timestamp>) -> bool {
    match (first, last) {
        (None, None) => true,
        (Some(f), Some(l)) => f.valid() && l.valid() && !l.earlier(f),
        _ => false,
    }
}

/// Folds LogEvents into a Stats struct.
///
/// Usage:
///     let mut acc = StatsAccumulator::new();
///     for event in events { acc.observe(&event); }
///     let stats = acc.finish();
pub struct StatsAccumulator {
    stats: Stats,
    /// The events observed so far, in order.
    events: Ghost<Seq<EventView>>,
}

impl View for StatsAccumulator {
    type V = Stats;

    closed spec fn view(&self) -> Stats {
        self.stats
    }
}

impl StatsAccumulator {
    pub closed spec fn wf(&self) -> bool {
        &&& time_range_wf(self.stats.first_timestamp, self.stats.last_timestamp)
        &&& self.stats == stats_run(self.events@)
        &&& forall|l: Option<Level>| #[trigger] level_count(self.stats, l) == level_events(self.events@, l)
    }

    /// The events observed so far, in order.
    pub closed spec fn events(&self) -> Seq<EventView> {
        self.events@
    }

    pub fn new() -> (r: StatsAccumulator)
        ensures
            r.wf(),
            r@ == no_stats(),
            events_counted(r@) == 0,
            r@.first_timestamp is None,
            r@.last_timestamp is None,
            r.events() == Seq::<EventView>::empty(),
    {
        StatsAccumulator {
            events: Ghost(Seq::empty()),
            stats: Stats {
                info: 0,
                debug: 0,
                warn: 0,
                error: 0,
                fatal: 0,
                trace: 0,
                unleveled: 0,
                first_timestamp: None,
                last_timestamp: None,
            },
        }
    }

    /// Fold one event into the running stats: its level's counter goes up
    /// by one, and its timestamp widens the time range.
    pub fn observe(&mut self, event: &LogEvent)
        requires
            old(self).wf(),
            event_wf(event),
            level_count(old(self)@, event.level) < u64::MAX,
        ensures
            final(self).wf(),
            final(self)@ == stats_step(old(self)@, event.level, event.timestamp),
            events_counted(final(self)@) == events_counted(old(self)@) + 1,
            final(self).events() == old(self).events().push(event@),
    {
        match event.level {
            Some(Level::Info) => self.stats.info = self.stats.info + 1,
            Some(Level::Debug) => self.stats.debug = self.stats.debug + 1,
            Some(Level::Warn) => self.stats.warn = self.stats.warn + 1,
            Some(Level::Error) => self.stats.error = self.stats.error + 1,
            Some(Level::Fatal) => self.stats.fatal = self.stats.fatal + 1,
            Some(Level::Trace) => self.stats.trace = self.stats.trace + 1,
            None => self.stats.unleveled = self.stats.unleveled + 1,
        }
        let ghost prev = self.events@;
        proof {
            self.events@ = prev.push(event@);
            lemma_stats_run_push(prev, event@);
            assert(self.events@.drop_last() =~= prev);
        }
        if let Some(ts) = event.timestamp {
            match self.stats.first_timestamp {
                None => self.stats.first_timestamp = Some(ts),
                Some(existing) => {
                    if ts.is_before(&existing) {
                        self.stats.first_timestamp = Some(ts);
                    }
                },
            }
            match self.stats.last_timestamp {
                None => self.stats.last_timestamp = Some(ts),
                Some(existing) => {
                    if existing.is_before(&ts) {
                        self.stats.last_timestamp = Some(ts);
                    }
                },
            }
        }
        proof {
            assert forall|l: Option<Level>| #[trigger] level_count(self.stats, l) == level_events(self.events@, l) by {
                assert(level_events(self.events@, l) == level_events(prev, l) + if event.level == l {
                    1nat
                } else {
                    0nat
                });
                assert(level_count(old(self).stats, l) == level_events(prev, l));
            }
        }
    }

    /// Consume the accumulator and produce the final Stats value.
    pub fn finish(self) -> (r: Stats)
        requires
            self.wf(),
        ensures
            r == self@,
            time_range_wf(r.first_timestamp, r.last_timestamp),
            r == stats_run(self.events()),
            forall|l: Option<Level>| #[trigger] level_count(r, l) == level_events(self.events(), l),
            events_counted(r) == self.events().len(),
            r.first_timestamp is None <==> !has_timestamp(self.events()),
            r.first_timestamp matches Some(f) ==> {
                &&& exists|i: int| 0 <= i < self.events().len() && (#[trigger] self.events()[i]).timestamp == Some(f)
                &&& forall|i: int|
                    0 <= i < self.events().len() ==> ((#[trigger] self.events()[i]).timestamp matches Some(t)
                        ==> !t.earlier(f))
            },
            r.last_timestamp matches Some(l) ==> {
                &&& exists|i: int| 0 <= i < self.events().len() && (#[trigger] self.events()[i]).timestamp == Some(l)
                &&& forall|i: int|
                    0 <= i < self.events().len() ==> ((#[trigger] self.events()[i]).timestamp matches Some(t)
                        ==> !l.earlier(t))
            },
    {
        proof {
            assert forall|l: Option<Level>| #[trigger] level_events(self.events@, l) <= u64::MAX by {
                assert(level_count(self.stats, l) == level_events(self.events@, l));
            }
            lemma_stats_run(self.events@);
        }
        self.stats
    }
}

/// What the time summary's duration is: the seconds from first to last
/// (by chrono's subtraction), never negative.
pub open spec fn duration_of(first: Option<Timestamp>, last: Option<Timestamp>) -> Option<i64> {
    match (first, last) {
        (Some(f), Some(l)) => {
            let d = chrono_seconds_between((l.secs, l.nanos), (f.secs, f.nanos));
            Some(if d < 0 { 0 } else { d })
        },
        _ => None,
    }
}

/// The whole seconds from `first` to `last`, when both are present and
/// neither is in a leap second.
pub open spec fn plain_elapsed(first: Option<Timestamp>, last: Option<Timestamp>) -> Option<int> {
    match (first, last) {
        (Some(f), Some(l)) => if f.nanos < 1_000_000_000 && l.nanos < 1_000_000_000 {
            Some(whole_seconds(l, f))
        } else {
            None
        },
        _ => None,
    }
}

/// The time summary of `stats`, given what chrono counts from the first to
/// the last timestamp (used only when there are both): a negative count
/// becomes zero.
pub fn time_summary_with(stats: &Stats, elapsed: Option<i64>) -> (r: TimeSummary)
    ensures
        r.first == stats.first_timestamp,
        r.last == stats.last_timestamp,
        r.duration_secs == (match (stats.first_timestamp, stats.last_timestamp, elapsed) {
            (Some(_), Some(_), Some(d)) => Some(if d < 0 { 0i64 } else { d }),
            _ => None,
        }),
{
    let duration_secs = match (stats.first_timestamp, stats.last_timestamp, elapsed) {
        (Some(_), Some(_), Some(d)) => Some(if d < 0 { 0 } else { d }),
        _ => None,
    };
    TimeSummary { first: stats.first_timestamp, last: stats.last_timestamp, duration_secs }
}

/// The time covered by a log, from its stats.
pub fn time_summary(stats: &Stats) -> (r: TimeSummary)
    requires
        stats.first_timestamp matches Some(f) ==> f.valid(),
        stats.last_timestamp matches Some(l) ==> l.valid(),
    ensures
        r.first == stats.first_timestamp,
        r.last == stats.last_timestamp,
        r.duration_secs == duration_of(stats.first_timestamp, stats.last_timestamp),
        r.duration_secs matches Some(d) ==> d >= 0,
        plain_elapsed(stats.first_timestamp, stats.last_timestamp) matches Some(d)
            ==> r.duration_secs == Some((if d < 0 { 0 } else { d }) as i64),
{
    let elapsed = match (stats.first_timestamp, stats.last_timestamp) {
        (Some(f), Some(l)) => Some(seconds_between(l, f)),
        _ => None,
    };
    time_summary_with(stats, elapsed)
}

/// Lines counted in `stats`, over all levels (as the stats report shows
/// them).
pub fn total_events(stats: &Stats) -> (r: u64)
    requires
        events_counted(*stats) <= u64::MAX,
    ensures
        r == events_counted(*stats),
{
    stats.info + stats.debug + stats.warn + stats.error + stats.fatal + stats.trace + stats.unleveled
}

} // verus!
