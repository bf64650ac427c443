//! HTTP request events: counts by status class and the busiest endpoints.

use vstd::prelude::*;
use crate::analyzer::tally::{
    count_in, counts_sum, entry_view, is_top, lemma_top_size, lemma_total_of_empty, lemma_total_of_insert, total_of, Entry, Tally,
};
use crate::model::{http_view, EndpointCount, EventView, HttpInfoView, HttpSummary, LogEvent};
use crate::text::{chars_of, string_of};

verus! {

/// The status class a response status falls in: 2, 3, 4 or 5 for
/// `200..=299` to `500..=599`, 0 for anything else.
pub open spec fn status_class(status: u16) -> nat {
    if 200 <= status <= 299 {
        2
    } else if 300 <= status <= 399 {
        3
    } else if 400 <= status <= 499 {
        4
    } else if 500 <= status <= 599 {
        5
    } else {
        0
    }
}

/// A status from 200 to 599 is counted in the class of its hundreds digit
/// (so every 3xx status, 304 among them, goes to the 3xx count); any other
/// status is counted as other.
pub proof fn lemma_status_class(status: u16)
    ensures
        status_class(status) == (if 200 <= status && status <= 599 {
            status as nat / 100
        } else {
            0
        }),
{
}

/// Endpoint counts as plain values.
pub open spec fn endpoint_counts_view(r: Seq<EndpointCount>) -> Seq<(Seq<char>, nat)> {
    r.map_values(|e: EndpointCount| (e.path@, e.count as nat))
}

/// Requests after one more event with request info `info`.
pub open spec fn requests_step(n: nat, info: Option<HttpInfoView>) -> nat {
    if info is Some {
        n + 1
    } else {
        n
    }
}

/// Requests in status class `c` after one more event with request info
/// `info`.
pub open spec fn class_step(n: nat, c: nat, info: Option<HttpInfoView>) -> nat {
    match info {
        Some(i) => if status_class(i.status) == c {
            n + 1
        } else {
            n
        },
        None => n,
    }
}

/// Endpoint counts after one more event with request info `info`.
pub open spec fn endpoints_step(m: Map<Seq<char>, nat>, info: Option<HttpInfoView>) -> Map<
    Seq<char>,
    nat,
> {
    match info {
        Some(i) => m.insert(i.path, count_in(m, i.path) + 1),
        None => m,
    }
}

/// Requests in a run of events.
pub open spec fn requests_run(evs: Seq<EventView>) -> nat
    decreases evs.len(),
{
    if evs.len() == 0 {
        0
    } else {
        requests_step(requests_run(evs.drop_last()), evs.last().http)
    }
}

/// Requests in status class `c` in a run of events.
pub open spec fn class_run(evs: Seq<EventView>, c: nat) -> nat
    decreases evs.len(),
{
    if evs.len() == 0 {
        0
    } else {
        class_step(class_run(evs.drop_last(), c), c, evs.last().http)
    }
}

/// Endpoint counts of a run of events.
pub open spec fn endpoints_run(evs: Seq<EventView>) -> Map<Seq<char>, nat>
    decreases evs.len(),
{
    if evs.len() == 0 {
        Map::empty()
    } else {
        endpoints_step(endpoints_run(evs.drop_last()), evs.last().http)
    }
}

/// How many events of a run are requests to path `p`.
pub open spec fn path_events(evs: Seq<EventView>, p: Seq<char>) -> nat
    decreases evs.len(),
{
    if evs.len() == 0 {
        0
    } else {
        path_events(evs.drop_last(), p) + match evs.last().http {
            Some(i) => if i.path == p {
                1nat
            } else {
                0nat
            },
            None => 0nat,
        }
    }
}

/// Over a run of events: each path is counted as often as it was
/// requested (and only requested paths are counted), the path counts add
/// up to the number of requests, and so do the status classes.
pub proof fn lemma_http_run(evs: Seq<EventView>)
    ensures
        endpoints_run(evs).dom().finite(),
        forall|p: Seq<char>| #[trigger] endpoints_run(evs).contains_key(p) <==> path_events(evs, p) > 0,
        forall|p: Seq<char>| #[trigger] count_in(endpoints_run(evs), p) == path_events(evs, p),
        total_of(endpoints_run(evs)) == requests_run(evs),
        class_run(evs, 2) + class_run(evs, 3) + class_run(evs, 4) + class_run(evs, 5) + class_run(evs, 0)
            == requests_run(evs),
    decreases evs.len(),
{
    if evs.len() == 0 {
        lemma_total_of_empty();
        return;
    }
    let p = evs.drop_last();
    lemma_http_run(p);
    let m = endpoints_run(p);
    match evs.last().http {
        Some(i) => {
            lemma_total_of_insert(m, i.path);
            assert forall|q: Seq<char>| #[trigger] count_in(endpoints_run(evs), q) == path_events(evs, q) by {
                assert(count_in(m, q) == path_events(p, q));
            }
            assert forall|q: Seq<char>| #[trigger] endpoints_run(evs).contains_key(q) <==> path_events(evs, q) > 0 by {
                assert(m.contains_key(q) <==> path_events(p, q) > 0);
                assert(count_in(m, q) == path_events(p, q));
            }
        },
        None => {
            assert forall|q: Seq<char>| #[trigger] count_in(endpoints_run(evs), q) == path_events(evs, q) by {
                assert(count_in(m, q) == path_events(p, q));
            }
            assert forall|q: Seq<char>| #[trigger] endpoints_run(evs).contains_key(q) <==> path_events(evs, q) > 0 by {
                assert(m.contains_key(q) <==> path_events(p, q) > 0);
            }
        },
    }
}

/// One more event is one more step: feeding an [`HttpAccumulator`] a run
/// of events one by one gives the counts of the run.
pub proof fn lemma_http_run_push(evs: Seq<EventView>, e: EventView)
    ensures
        requests_run(evs.push(e)) == requests_step(requests_run(evs), e.http),
        forall|c: nat| #[trigger] class_run(evs.push(e), c) == class_step(class_run(evs, c), c, e.http),
        endpoints_run(evs.push(e)) == endpoints_step(endpoints_run(evs), e.http),
{
    assert(evs.push(e).drop_last() =~= evs);
}

/// Folds HTTP request events into aggregate statistics.
pub struct HttpAccumulator {
    total_requests: u64,
    s2xx: u64,
    s3xx: u64,
    s4xx: u64,
    s5xx: u64,
    other: u64,
    endpoints: Tally,
    /// The events observed so far, in order.
    events: Ghost<Seq<EventView>>,
}

impl HttpAccumulator {
    pub closed spec fn wf(&self) -> bool {
        &&& self.endpoints.wf()
        &&& self.s2xx + self.s3xx + self.s4xx + self.s5xx + self.other == self.total_requests
        &&& forall|k: Seq<char>|
            #[trigger] self.endpoints@.contains_key(k) ==> self.endpoints@[k] <= self.total_requests
        &&& self.endpoints@.dom().finite()
        &&& total_of(self.endpoints@) == self.total_requests
        &&& self.total_requests == requests_run(self.events@)
        &&& self.s2xx == class_run(self.events@, 2)
        &&& self.s3xx == class_run(self.events@, 3)
        &&& self.s4xx == class_run(self.events@, 4)
        &&& self.s5xx == class_run(self.events@, 5)
        &&& self.other == class_run(self.events@, 0)
        &&& self.endpoints@ == endpoints_run(self.events@)
    }

    /// The events observed so far, in order.
    pub closed spec fn events(&self) -> Seq<EventView> {
        self.events@
    }

    /// Requests observed.
    pub closed spec fn requests(&self) -> nat {
        self.total_requests as nat
    }

    /// Requests observed in status class `c` (see [`status_class`]).
    pub closed spec fn in_class(&self, c: nat) -> nat {
        if c == 2 {
            self.s2xx as nat
        } else if c == 3 {
            self.s3xx as nat
        } else if c == 4 {
            self.s4xx as nat
        } else if c == 5 {
            self.s5xx as nat
        } else {
            self.other as nat
        }
    }

    /// Endpoint path → requests to it.
    pub closed spec fn endpoints(&self) -> Map<Seq<char>, nat> {
        self.endpoints@
    }

    pub fn new() -> (r: HttpAccumulator)
        ensures
            r.wf(),
            r.requests() == 0,
            forall|c: nat| r.in_class(c) == 0,
            r.endpoints() == Map::<Seq<char>, nat>::empty(),
            r.events() == Seq::<EventView>::empty(),
    {
        proof {
            lemma_total_of_empty();
        }
        HttpAccumulator {
            events: Ghost(Seq::empty()),
            total_requests: 0,
            s2xx: 0,
            s3xx: 0,
            s4xx: 0,
            s5xx: 0,
            other: 0,
            endpoints: Tally::new(),
        }
    }

    /// Observe one event. Only events with HTTP details are recorded: one
    /// more request, in its status class and for its path.
    pub fn observe(&mut self, event: &LogEvent)
        requires
            old(self).wf(),
            old(self).requests() < u64::MAX,
        ensures
            final(self).wf(),
            match event.http {
                Some(info) => {
                    let cls = status_class(info.status);
                    &&& final(self).requests() == old(self).requests() + 1
                    &&& final(self).in_class(cls) == old(self).in_class(cls) + 1
                    &&& forall|c: nat|
                        (c == 0 || 2 <= c <= 5) && c != cls ==> #[trigger] final(self).in_class(c)
                            == old(self).in_class(c)
                    &&& final(self).endpoints() == old(self).endpoints().insert(
                        info.path@,
                        count_in(old(self).endpoints(), info.path@) + 1,
                    )
                },
                None => {
                    &&& final(self).requests() == old(self).requests()
                    &&& forall|c: nat| #[trigger] final(self).in_class(c) == old(self).in_class(c)
                    &&& final(self).endpoints() == old(self).endpoints()
                },
            },
            final(self).requests() == requests_step(old(self).requests(), http_view(event.http)),
            forall|c: nat|
                c == 0 || 2 <= c <= 5 ==> #[trigger] final(self).in_class(c) == class_step(
                    old(self).in_class(c),
                    c,
                    http_view(event.http),
                ),
            final(self).endpoints() == endpoints_step(old(self).endpoints(), http_view(event.http)),
            final(self).events() == old(self).events().push(event@),
    {
        let ghost prev = self.events@;
        proof {
            self.events@ = prev.push(event@);
            lemma_http_run_push(prev, event@);
        }
        let info = match &event.http {
            Some(i) => i,
            None => return,
        };
        self.total_requests = self.total_requests + 1;
        let status = info.status;
        if 200 <= status && status <= 299 {
            self.s2xx = self.s2xx + 1;
        } else if 300 <= status && status <= 399 {
            self.s3xx = self.s3xx + 1;
        } else if 400 <= status && status <= 499 {
            self.s4xx = self.s4xx + 1;
        } else if 500 <= status && status <= 599 {
            self.s5xx = self.s5xx + 1;
        } else {
            self.other = self.other + 1;
        }
        let key = chars_of(info.path.as_str());
        let ghost k = key@;
        proof {
            if self.endpoints@.contains_key(k) {
                assert(old(self).endpoints@[k] <= old(self).total_requests);
            }
            lemma_total_of_insert(self.endpoints@, k);
        }
        self.endpoints.add(key);
        assert forall|k2: Seq<char>| #[trigger] self.endpoints@.contains_key(k2) implies self.endpoints@[k2]
            <= self.total_requests by {
            if k2 != k {
                assert(old(self).endpoints@.contains_key(k2));
            }
        }
    }

    /// Every request is counted once, under its path, and in one status
    /// class: both add up to the number of requests.
    pub proof fn lemma_requests_add_up(&self)
        requires
            self.wf(),
        ensures
            total_of(self.endpoints()) == self.requests(),
            self.in_class(2) + self.in_class(3) + self.in_class(4) + self.in_class(5) + self.in_class(0)
                == self.requests(),
    {
    }

    /// Consume the accumulator and produce the final HttpSummary.
    /// `top_n` limits how many distinct endpoints are kept.
    pub fn finish(self, top_n: usize) -> (r: HttpSummary)
        requires
            self.wf(),
        ensures
            r.total_requests == self.requests(),
            r.s2xx == self.in_class(2),
            r.s3xx == self.in_class(3),
            r.s4xx == self.in_class(4),
            r.s5xx == self.in_class(5),
            r.other == self.in_class(0),
            r.s2xx + r.s3xx + r.s4xx + r.s5xx + r.other == r.total_requests,
            is_top(self.endpoints(), top_n as nat, endpoint_counts_view(r.top_endpoints@)),
            r.top_endpoints@.len() == (if top_n < self.endpoints().dom().len() {
                top_n as nat
            } else {
                self.endpoints().dom().len()
            }),
            counts_sum(endpoint_counts_view(r.top_endpoints@)) <= r.total_requests,
            self.endpoints().dom().len() <= top_n ==> counts_sum(endpoint_counts_view(r.top_endpoints@))
                == r.total_requests,
            r.total_requests == requests_run(self.events()),
            r.s2xx == class_run(self.events(), 2) && r.s3xx == class_run(self.events(), 3),
            r.s4xx == class_run(self.events(), 4) && r.s5xx == class_run(self.events(), 5),
            r.other == class_run(self.events(), 0),
            is_top(endpoints_run(self.events()), top_n as nat, endpoint_counts_view(r.top_endpoints@)),
            forall|i: int|
                0 <= i < r.top_endpoints@.len() ==> (#[trigger] r.top_endpoints@[i]).count == path_events(
                    self.events(),
                    r.top_endpoints@[i].path@,
                ),
    {
        let ranked = self.endpoints.into_top(top_n);
        let mut top: Vec<EndpointCount> = Vec::new();
        let mut i: usize = 0;
        while i < ranked.len()
            invariant
                i <= ranked@.len(),
                top@.len() == i,
                forall|j: int|
                    0 <= j < i ==> (#[trigger] top@[j]).path@ == ranked@[j].0@ && top@[j].count
                        == ranked@[j].1,
            decreases ranked@.len() - i,
        {
            top.push(EndpointCount { path: string_of(ranked[i].0.as_slice()), count: ranked[i].1 });
            i = i + 1;
        }
        assert(endpoint_counts_view(top@) =~= ranked@.map_values(|e: Entry| entry_view(e)));
        proof {
            lemma_top_size(self.endpoints@, top_n as nat, endpoint_counts_view(top@));
            lemma_http_run(self.events@);
            assert forall|i: int| 0 <= i < top@.len() implies (#[trigger] top@[i]).count == path_events(
                self.events@,
                top@[i].path@,
            ) by {
                let e = endpoint_counts_view(top@)[i];
                assert(e == (top@[i].path@, top@[i].count as nat));
                assert(self.endpoints@.contains_key(e.0) && self.endpoints@[e.0] == e.1);
                assert(count_in(endpoints_run(self.events@), e.0) == path_events(self.events@, e.0));
            }
        }
        HttpSummary {
            total_requests: self.total_requests,
            s2xx: self.s2xx,
            s3xx: self.s3xx,
            s4xx: self.s4xx,
            s5xx: self.s5xx,
            other: self.other,
            top_endpoints: top,
        }
    }
}

} // verus!
