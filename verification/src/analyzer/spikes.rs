//! Error spikes: five-minute buckets whose error count stands out. The
//! buckets are kept in a `BTreeMap` from bucket start to error count (see
//! `buckets.rs`).
//!
//! A bucket is a spike when its count is above the mean of all buckets by
//! more than a number of standard deviations (two, or one when there are
//! fewer than six buckets) and it holds at least three errors. With fewer
//! than three buckets, or when all buckets hold the same count, there are
//! none. The comparison is made exactly, in integers: with `n` buckets,
//! `s` errors in all and `q` the sum of the squared counts, a count `c`
//! passes when `n*c - s > k * sqrt(n*q - s*s)` (in 256-bit arithmetic).

use vstd::prelude::*;
use crate::model::ErrorSpike;
use crate::time::{utc_from_timestamp, Timestamp, MAX_TIMESTAMP, MIN_TIMESTAMP};
use crate::wide::{wide_add, wide_less, wide_mul, wide_sub, wide_value};
use crate::analyzer::buckets::{
    bucket_count, count_at, lemma_lists_bump, lemma_lists_unique, listing, lists, nat_counts, new_buckets,
    set_bucket,
};
use std::collections::BTreeMap;

verus! {

/// Bucket width in minutes. 5 is a good default for log analysis:
/// small enough to catch short outages, large enough to smooth noise.
pub const BUCKET_MINUTES: i64 = 5;

/// Bucket width in seconds.
pub const BUCKET_SECS: i64 = 300;

/// Minimum spike count to bother reporting. Avoids flagging
/// 1-error buckets in near-silent logs as "spikes".
pub const MIN_SPIKE_COUNT: u64 = 3;

/// How many standard deviations above the mean a bucket must be
/// to qualify as a spike.
pub const SIGMA_THRESHOLD: u128 = 2;

/// With very few populated buckets, a genuine outage inflates the
/// stddev so much that it can't clear its own 2σ threshold. Loosen
/// the bar to 1σ when we have fewer than this many buckets.
pub const SMALL_SAMPLE_BUCKETS: usize = 6;
pub const SIGMA_THRESHOLD_SMALL: u128 = 1;

/// Fewer buckets than this say nothing statistically meaningful.
pub const MIN_BUCKETS: usize = 3;

/// The start of the bucket of a timestamp: the whole second rounded down
/// to a multiple of five minutes, or `ts` itself where chrono cannot
/// represent that second.
pub open spec fn bucket_of(ts: Timestamp) -> Timestamp {
    let floored = ts.secs - ts.secs % BUCKET_SECS;
    if MIN_TIMESTAMP <= floored <= MAX_TIMESTAMP {
        Timestamp { secs: floored as i64, nanos: 0 }
    } else {
        ts
    }
}

/// Rounds `ts` down to the nearest 5-minute boundary.
pub fn floor_to_bucket(ts: Timestamp) -> (r: Timestamp)
    requires
        ts.valid(),
    ensures
        r == bucket_of(ts),
{
    let secs = ts.secs;
    let rem = match secs.checked_rem_euclid(BUCKET_SECS) {
        Some(r) => r,
        None => 0,
    };
    assert(rem == secs % BUCKET_SECS);
    let floored = secs - rem;
    match utc_from_timestamp(floored) {
        Some(t) => t,
        None => ts,
    }
}

/// A valid timestamp falls in the bucket that starts at a multiple of five
/// minutes at most five minutes before it.
pub proof fn lemma_bucket_of_valid(ts: Timestamp)
    requires
        ts.valid(),
    ensures
        bucket_of(ts).nanos == 0,
        bucket_of(ts).secs % BUCKET_SECS == 0,
        bucket_of(ts).secs <= ts.secs < bucket_of(ts).secs + BUCKET_SECS,
        bucket_of(ts).valid(),
{
    let floored = ts.secs - ts.secs % BUCKET_SECS;
    assert(MIN_TIMESTAMP % BUCKET_SECS == 0);
    assert(floored % (BUCKET_SECS as int) == 0) by {
        vstd::arithmetic::div_mod::lemma_fundamental_div_mod(ts.secs as int, BUCKET_SECS as int);
        vstd::arithmetic::div_mod::lemma_mod_multiples_basic(ts.secs / BUCKET_SECS, BUCKET_SECS as int);
    }
    assert(MIN_TIMESTAMP <= floored) by {
        // floored is the largest multiple of BUCKET_SECS that is at most ts.secs
        vstd::arithmetic::div_mod::lemma_fundamental_div_mod(ts.secs as int, BUCKET_SECS as int);
        vstd::arithmetic::div_mod::lemma_fundamental_div_mod(MIN_TIMESTAMP as int, BUCKET_SECS as int);
        assert(floored == (ts.secs / BUCKET_SECS) * BUCKET_SECS);
        assert(MIN_TIMESTAMP == (MIN_TIMESTAMP / BUCKET_SECS) * BUCKET_SECS);
        if ts.secs / BUCKET_SECS < MIN_TIMESTAMP / BUCKET_SECS {
            vstd::arithmetic::mul::lemma_mul_inequality(
                ts.secs / BUCKET_SECS + 1,
                MIN_TIMESTAMP / BUCKET_SECS,
                BUCKET_SECS as int,
            );
            vstd::arithmetic::mul::lemma_mul_is_distributive_add_other_way(
                BUCKET_SECS as int,
                ts.secs / BUCKET_SECS,
                1,
            );
        } else {
            vstd::arithmetic::mul::lemma_mul_inequality(
                MIN_TIMESTAMP / BUCKET_SECS,
                ts.secs / BUCKET_SECS,
                BUCKET_SECS as int,
            );
        }
    }
}

// ---------------------------------------------------------------------------
// The buckets, in increasing order of their start
// ---------------------------------------------------------------------------

/// Counts one more error in the bucket that starts at `k`.
pub open spec fn bump(s: Seq<(i64, nat)>, k: i64) -> Seq<(i64, nat)>
    decreases s.len(),
{
    if s.len() == 0 {
        seq![(k, 1nat)]
    } else if s[0].0 == k {
        seq![(k, s[0].1 + 1)] + s.drop_first()
    } else if k < s[0].0 {
        seq![(k, 1nat)] + s
    } else {
        seq![s[0]] + bump(s.drop_first(), k)
    }
}

/// Errors over all buckets.
pub open spec fn errors_in(s: Seq<(i64, nat)>) -> nat
    decreases s.len(),
{
    if s.len() == 0 {
        0
    } else {
        s[0].1 + errors_in(s.drop_first())
    }
}

/// Sum of the squared bucket counts.
pub open spec fn squares_in(s: Seq<(i64, nat)>) -> nat
    decreases s.len(),
{
    if s.len() == 0 {
        0
    } else {
        s[0].1 * s[0].1 + squares_in(s.drop_first())
    }
}

/// How many standard deviations a spike must clear among `n` buckets.
pub open spec fn sigma(n: nat) -> int {
    if n < SMALL_SAMPLE_BUCKETS {
        SIGMA_THRESHOLD_SMALL as int
    } else {
        SIGMA_THRESHOLD as int
    }
}

/// A count `c` clears the bar among `n` buckets holding `total` errors
/// with squared counts summing to `squares`, `k2` being the square of the
/// number of standard deviations: `c > mean + k * stddev`, multiplied out
/// by `n`, and `c` is at least `MIN_SPIKE_COUNT`.
pub open spec fn clears_bar(n: int, c: int, total: int, squares: int, k2: int) -> bool {
    let d = n * c - total;
    &&& d > 0
    &&& d * d > k2 * (n * squares - total * total)
    &&& c >= MIN_SPIKE_COUNT
}

/// A bucket with `c` errors is a spike among the buckets `s`.
pub open spec fn is_spike(s: Seq<(i64, nat)>, c: nat) -> bool {
    let n = s.len();
    let total = errors_in(s);
    let squares = squares_in(s);
    &&& n >= MIN_BUCKETS
    &&& n * squares != total * total
    &&& clears_bar(n as int, c as int, total as int, squares as int, sigma(n) * sigma(n))
}

/// `a` is reported before `b`: more errors, or as many and earlier.
pub open spec fn spike_before(a: ErrorSpike, b: ErrorSpike) -> bool {
    a.count > b.count || (a.count == b.count && a.bucket_start.secs < b.bucket_start.secs)
}

/// `e` reports the bucket `b` among the buckets `s`.
pub open spec fn reports(e: ErrorSpike, s: Seq<(i64, nat)>, b: (i64, nat)) -> bool {
    &&& e.bucket_start == Timestamp { secs: b.0, nanos: 0 }
    &&& e.bucket_end.secs == b.0 + BUCKET_SECS
    &&& e.bucket_end.nanos == 0
    &&& e.count == b.1
    &&& e.total_errors == errors_in(s)
    &&& e.bucket_count == s.len()
}

/// `e` reports a spike among the buckets `s`.
pub open spec fn reports_a_spike(s: Seq<(i64, nat)>, e: ErrorSpike) -> bool {
    exists|j: int| 0 <= j < s.len() && is_spike(s, s[j].1) && reports(e, s, #[trigger] s[j])
}

/// `r` lists the spikes among the buckets `s`, biggest first (ties in
/// time order).
pub open spec fn spikes_of(s: Seq<(i64, nat)>, r: Seq<ErrorSpike>) -> bool {
    &&& forall|i: int| 0 <= i < r.len() ==> reports_a_spike(s, #[trigger] r[i])
    &&& forall|j: int|
        0 <= j < s.len() && is_spike(s, #[trigger] s[j].1) ==> exists|i: int|
            0 <= i < r.len() && reports(#[trigger] r[i], s, s[j])
    &&& forall|i: int, j: int| 0 <= i < j < r.len() ==> spike_before(#[trigger] r[i], #[trigger] r[j])
}

proof fn lemma_errors_skip(s: Seq<(i64, nat)>, i: int)
    requires
        0 <= i <= s.len(),
    ensures
        errors_in(s.skip(i)) <= errors_in(s),
        squares_in(s.skip(i)) <= squares_in(s),
    decreases i,
{
    if i > 0 {
        lemma_errors_skip(s, i - 1);
        assert(s.skip(i - 1).drop_first() == s.skip(i));
    } else {
        assert(s.skip(0) == s);
    }
}

proof fn lemma_squares_le(s: Seq<(i64, nat)>)
    ensures
        squares_in(s) <= errors_in(s) * errors_in(s),
    decreases s.len(),
{
    if s.len() > 0 {
        lemma_squares_le(s.drop_first());
        let c = s[0].1;
        let t = errors_in(s.drop_first());
        let q = squares_in(s.drop_first());
        assert(c * c + q <= (c + t) * (c + t)) by (nonlinear_arith)
            requires
                q <= t * t,
        ;
    }
}

proof fn lemma_len_le_errors(s: Seq<(i64, nat)>)
    requires
        forall|i: int| 0 <= i < s.len() ==> #[trigger] s[i].1 >= 1,
    ensures
        s.len() <= errors_in(s),
    decreases s.len(),
{
    if s.len() > 0 {
        let d = s.drop_first();
        assert forall|i: int| 0 <= i < d.len() implies #[trigger] d[i].1 >= 1 by {
            assert(d[i] == s[i + 1]);
        }
        lemma_len_le_errors(d);
    }
}

/// Collects error timestamps and computes which time buckets stand out.
pub struct SpikeAccumulator {
    /// Bucket start (in seconds) → errors in the bucket.
    buckets: BTreeMap<i64, u64>,
    /// The buckets in increasing order of start.
    listed: Ghost<Seq<(i64, nat)>>,
    /// The timestamps observed so far, in order.
    times: Ghost<Seq<Timestamp>>,
}

impl View for SpikeAccumulator {
    type V = Seq<(i64, nat)>;

    /// Bucket start (in seconds) and error count, by increasing start.
    closed spec fn view(&self) -> Seq<(i64, nat)> {
        self.listed@
    }
}

/// The buckets of a [`SpikeAccumulator`] in increasing order of start, as
/// the spike computation reads them.
struct SortedBuckets {
    buckets: Vec<(i64, u64)>,
}

impl View for SortedBuckets {
    type V = Seq<(i64, nat)>;

    closed spec fn view(&self) -> Seq<(i64, nat)> {
        nat_counts(self.buckets@)
    }
}

/// Counting one error adds one to the total.
pub proof fn lemma_bump_errors(s: Seq<(i64, nat)>, k: i64)
    ensures
        errors_in(bump(s, k)) == errors_in(s) + 1,
    decreases s.len(),
{
    let b = bump(s, k);
    if s.len() == 0 {
        assert(b.drop_first().len() == 0);
        assert(errors_in(b.drop_first()) == 0);
        assert(b[0].1 == 1);
    } else if s[0].0 == k {
        assert(b.drop_first() == s.drop_first());
        assert(b[0].1 == s[0].1 + 1);
    } else if k < s[0].0 {
        assert(b.drop_first() == s);
        assert(b[0].1 == 1);
    } else {
        lemma_bump_errors(s.drop_first(), k);
        assert(b.drop_first() == bump(s.drop_first(), k));
        assert(b[0] == s[0]);
    }
    assert(errors_in(b) == b[0].1 + errors_in(b.drop_first()));
}

proof fn lemma_bump_cons(x: (i64, nat), r: Seq<(i64, nat)>, k: i64)
    ensures
        bump(seq![x] + r, k) == (if x.0 == k {
            seq![(k, x.1 + 1)] + r
        } else if k < x.0 {
            seq![(k, 1nat)] + (seq![x] + r)
        } else {
            seq![x] + bump(r, k)
        }),
{
    let s = seq![x] + r;
    assert(s[0] == x);
    assert(s.drop_first() =~= r);
}

/// The buckets of a [`SpikeAccumulator`] fed the timestamps `ts` in order,
/// from none.
pub open spec fn bucket_run(ts: Seq<Timestamp>) -> Seq<(i64, nat)>
    decreases ts.len(),
{
    if ts.len() == 0 {
        Seq::empty()
    } else {
        bump(bucket_run(ts.drop_last()), bucket_of(ts.last()).secs)
    }
}

/// One more timestamp is one more error in its bucket: feeding a
/// [`SpikeAccumulator`] timestamps one by one gives the buckets of the run.
pub proof fn lemma_bucket_run_push(ts: Seq<Timestamp>, t: Timestamp)
    ensures
        bucket_run(ts.push(t)) == bump(bucket_run(ts), bucket_of(t).secs),
{
    assert(ts.push(t).drop_last() =~= ts);
}

/// Counting two errors gives the same buckets in either order.
pub proof fn lemma_bump_commutes(s: Seq<(i64, nat)>, k1: i64, k2: i64)
    ensures
        bump(bump(s, k1), k2) == bump(bump(s, k2), k1),
    decreases s.len(),
{
    let e: Seq<(i64, nat)> = Seq::empty();
    if s.len() == 0 {
        assert(bump(s, k1) =~= seq![(k1, 1nat)] + e);
        assert(bump(s, k2) =~= seq![(k2, 1nat)] + e);
        lemma_bump_cons((k1, 1nat), e, k2);
        lemma_bump_cons((k2, 1nat), e, k1);
        assert(bump(e, k1) =~= seq![(k1, 1nat)] + e);
        assert(bump(e, k2) =~= seq![(k2, 1nat)] + e);
        assert(bump(bump(s, k1), k2) =~= bump(bump(s, k2), k1));
    } else {
        let x = s[0];
        let t = s.drop_first();
        assert(s =~= seq![x] + t);
        lemma_bump_cons(x, t, k1);
        lemma_bump_cons(x, t, k2);
        if k1 == x.0 {
            lemma_bump_cons((k1, x.1 + 1), t, k2);
            if k2 == x.0 {
            } else if k2 < x.0 {
                lemma_bump_cons((k2, 1nat), seq![x] + t, k1);
                lemma_bump_cons(x, t, k1);
            } else {
                lemma_bump_cons(x, bump(t, k2), k1);
            }
        } else if k1 < x.0 {
            lemma_bump_cons((k1, 1nat), seq![x] + t, k2);
            if k2 == x.0 {
                lemma_bump_cons((k2, x.1 + 1), t, k1);
            } else if k2 < x.0 {
                lemma_bump_cons((k2, 1nat), seq![x] + t, k1);
                if k1 < k2 {
                } else if k2 < k1 {
                }
            } else {
                lemma_bump_cons(x, bump(t, k2), k1);
            }
        } else {
            lemma_bump_cons(x, bump(t, k1), k2);
            if k2 == x.0 {
                lemma_bump_cons((k2, x.1 + 1), t, k1);
            } else if k2 < x.0 {
                lemma_bump_cons((k2, 1nat), seq![x] + t, k1);
            } else {
                lemma_bump_cons(x, bump(t, k2), k1);
                lemma_bump_commutes(t, k1, k2);
            }
        }
        assert(bump(bump(s, k1), k2) =~= bump(bump(s, k2), k1));
    }
}

/// No bucket holds more errors than all buckets together.
pub proof fn lemma_count_le_errors(s: Seq<(i64, nat)>, i: int)
    requires
        0 <= i < s.len(),
    ensures
        s[i].1 <= errors_in(s),
    decreases s.len(),
{
    if i > 0 {
        lemma_count_le_errors(s.drop_first(), i - 1);
    }
}


impl SpikeAccumulator {
    pub closed spec fn wf(&self) -> bool {
        &&& lists(self.listed@, self.buckets@)
        &&& forall|i: int| 0 <= i < self.listed@.len() ==> #[trigger] self.listed@[i].1 >= 1
        &&& self.listed@ == bucket_run(self.times@)
    }

    /// The timestamps observed so far, in order.
    pub closed spec fn times(&self) -> Seq<Timestamp> {
        self.times@
    }

    /// No errors recorded yet.
    pub fn new() -> (r: SpikeAccumulator)
        ensures
            r.wf(),
            r@ == Seq::<(i64, nat)>::empty(),
            r.times() == Seq::<Timestamp>::empty(),
    {
        SpikeAccumulator { buckets: new_buckets(), listed: Ghost(Seq::empty()), times: Ghost(Seq::empty()) }
    }

    /// The buckets in increasing order of start.
    fn sorted(&self) -> (r: SortedBuckets)
        requires
            self.wf(),
        ensures
            r.wf(),
            r@ == self@,
    {
        let v = listing(&self.buckets);
        proof {
            lemma_lists_unique(nat_counts(v@), self.listed@, self.buckets@);
        }
        let r = SortedBuckets { buckets: v };
        assert forall|i: int| 0 <= i < r.buckets@.len() implies #[trigger] r.buckets@[i].1 >= 1 by {
            assert(r@[i].1 == self@[i].1);
        }
        assert forall|i: int, j: int| 0 <= i < j < r.buckets@.len() implies #[trigger] r.buckets@[i].0
            < #[trigger] r.buckets@[j].0 by {
            assert(r@[i].0 < r@[j].0);
        }
        r
    }

    /// Every spike bucket can be given its end time: it starts at least
    /// five minutes before the last second that chrono represents.
    pub fn spike_ends_in_range(&self) -> (r: bool)
        requires
            self.wf(),
            errors_in(self@) <= u64::MAX,
        ensures
            r == forall|j: int|
                0 <= j < self@.len() && is_spike(self@, #[trigger] self@[j].1) ==> self@[j].0
                    + BUCKET_SECS <= MAX_TIMESTAMP,
    {
        self.sorted().spike_ends_in_range()
    }

    /// Compute spikes from the accumulated buckets.
    /// Returns an empty Vec if there aren't enough buckets to be meaningful.
    pub fn finish(self) -> (r: Vec<ErrorSpike>)
        requires
            self.wf(),
            errors_in(self@) <= u64::MAX,
            forall|j: int|
                0 <= j < self@.len() && is_spike(self@, #[trigger] self@[j].1) ==> self@[j].0
                    + BUCKET_SECS <= MAX_TIMESTAMP,
        ensures
            spikes_of(self@, r@),
            forall|i: int, j: int|
                0 <= i < j < r@.len() ==> #[trigger] r@[i].bucket_start != #[trigger] r@[j].bucket_start,
            spikes_of(bucket_run(self.times()), r@),
    {
        self.sorted().finish()
    }

    /// Records that an error occurred at `ts`.
    pub fn observe(&mut self, ts: Timestamp)
        requires
            old(self).wf(),
            ts.valid(),
            forall|i: int|
                0 <= i < old(self)@.len() && #[trigger] old(self)@[i].0 == bucket_of(ts).secs
                    ==> old(self)@[i].1 < u64::MAX,
        ensures
            final(self).wf(),
            final(self)@ == bump(old(self)@, bucket_of(ts).secs),
            final(self).times() == old(self).times().push(ts),
    {
        let key = floor_to_bucket(ts).secs;
        let c = bucket_count(&self.buckets, key);
        let ghost s = self.listed@;
        let ghost m = self.buckets@;
        proof {
            if m.contains_key(key) {
                let i = choose|i: int| 0 <= i < s.len() && #[trigger] s[i].0 == key;
                assert(s[i].1 == m[key]);
                assert(old(self)@ == s);
                assert(old(self)@[i].0 == bucket_of(ts).secs);
                assert(old(self)@[i].1 < u64::MAX);
            }
            assert(c == count_at(m, key));
            assert(count_at(m, key) < u64::MAX);
            lemma_lists_bump(s, m, key);
        }
        set_bucket(&mut self.buckets, key, c + 1);
        proof {
            lemma_bucket_run_push(self.times@, ts);
            self.times@ = self.times@.push(ts);
            self.listed@ = bump(s, key);
            let b = self.listed@;
            let m2 = self.buckets@;
            assert forall|i: int| 0 <= i < b.len() implies #[trigger] b[i].1 >= 1 by {
                assert(m2.contains_key(b[i].0) && m2[b[i].0] == b[i].1);
                if b[i].0 != key {
                    let j = choose|j: int| 0 <= j < s.len() && #[trigger] s[j].0 == b[i].0;
                    assert(s[j].1 == m[b[i].0]);
                }
            }
        }
    }
}

impl SortedBuckets {
    closed spec fn wf(&self) -> bool {
        &&& forall|i: int, j: int|
            0 <= i < j < self.buckets@.len() ==> #[trigger] self.buckets@[i].0 < #[trigger] self.buckets@[j].0
        &&& forall|i: int| 0 <= i < self.buckets@.len() ==> #[trigger] self.buckets@[i].1 >= 1
    }

    /// The buckets that are spikes, in time order, with the number of
    /// errors over all buckets; `at` gives the position of each in `self@`.
    #[verifier::spinoff_prover]
    fn spiking(&self) -> (r: (Vec<(i64, u64)>, u64, Ghost<Seq<int>>))
        requires
            self.wf(),
            errors_in(self@) <= u64::MAX,
        ensures
            r.1 == errors_in(self@),
            r.2@.len() == r.0@.len(),
            forall|a: int|
                0 <= a < r.0@.len() ==> 0 <= #[trigger] r.2@[a] < self@.len() && is_spike(self@, self@[r.2@[a]].1)
                    && r.0@[a].0 == self@[r.2@[a]].0 && r.0@[a].1 == self@[r.2@[a]].1,
            forall|a: int, b: int| 0 <= a < b < r.0@.len() ==> #[trigger] r.2@[a] < #[trigger] r.2@[b],
            forall|t: int|
                0 <= t < self@.len() && is_spike(self@, #[trigger] self@[t].1) ==> exists|a: int|
                    0 <= a < r.0@.len() && #[trigger] r.2@[a] == t,
    {
        let ghost s = self@;
        let n = self.buckets.len();
        assert(s.len() == n);
        let mut found: Vec<(i64, u64)> = Vec::new();
        let ghost mut at: Seq<int> = Seq::empty();
        proof {
            assert forall|i: int| 0 <= i < s.len() implies #[trigger] s[i].1 >= 1 by {
                assert(s[i].1 == self.buckets@[i].1);
            }
            lemma_len_le_errors(s);
            lemma_squares_le(s);
        }
        if n < MIN_BUCKETS {
            let (total, _) = self.totals();
            return (found, total, Ghost(at));
        }
        let (total, squares) = self.totals();
        let nn = n as u128;
        let tt = total as u128;
        proof {
            lemma_square_fits(tt);
        }
        let nq = wide_mul(nn, squares);
        let ss = (0u128, tt * tt);
        // If all buckets hold the same count (a uniform log), nothing spikes.
        if !wide_less(nq, ss) && !wide_less(ss, nq) {
            return (found, total, Ghost(at));
        }
        let k2: u128 = if n < SMALL_SAMPLE_BUCKETS {
            SIGMA_THRESHOLD_SMALL * SIGMA_THRESHOLD_SMALL
        } else {
            SIGMA_THRESHOLD * SIGMA_THRESHOLD
        };
        let mut j: usize = 0;
        while j < n
            invariant
                j <= n == self.buckets@.len() == s.len(),
                s == self@,
                self.wf(),
                total == errors_in(s),
                squares == squares_in(s),
                nn == n,
                tt == total,
                n >= MIN_BUCKETS,
                nn * squares != tt * tt,
                errors_in(s) <= u64::MAX,
                s.len() <= errors_in(s),
                squares <= tt * tt,
                k2 == sigma(n as nat) * sigma(n as nat),
                k2 <= 4,
                at.len() == found@.len(),
                forall|a: int|
                    0 <= a < found@.len() ==> 0 <= #[trigger] at[a] < j && is_spike(s, s[at[a]].1)
                        && found@[a].0 == s[at[a]].0 && found@[a].1 == s[at[a]].1,
                forall|a: int, b: int| 0 <= a < b < found@.len() ==> #[trigger] at[a] < #[trigger] at[b],
                forall|t: int|
                    0 <= t < j && is_spike(s, #[trigger] s[t].1) ==> exists|a: int|
                        0 <= a < found@.len() && #[trigger] at[a] == t,
            decreases n - j,
        {
            let (start, c) = self.buckets[j];
            proof {
                assert(s[j as int].1 == c);
                assert(s[j as int].0 == start);
                lemma_count_le_errors(s, j as int);
            }
            if clears(nn, c as u128, tt, squares, k2) {
                let ghost prev_at = at;
                found.push((start, c));
                proof {
                    at = at.push(j as int);
                    assert forall|t: int|
                        0 <= t < j + 1 && is_spike(s, #[trigger] s[t].1) implies exists|a: int|
                            0 <= a < found@.len() && #[trigger] at[a] == t by {
                        if t < j {
                            let a = choose|a: int| 0 <= a < prev_at.len() && #[trigger] prev_at[a] == t;
                            assert(at[a] == t);
                        } else {
                            assert(at[prev_at.len() as int] == t);
                        }
                    }
                }
            }
            j = j + 1;
        }
        assert(s == self@);
        (found, total, Ghost(at))
    }

    /// Every spike bucket can be given its end time: it starts at least
    /// five minutes before the last second that chrono represents.
    fn spike_ends_in_range(&self) -> (r: bool)
        requires
            self.wf(),
            errors_in(self@) <= u64::MAX,
        ensures
            r == forall|j: int|
                0 <= j < self@.len() && is_spike(self@, #[trigger] self@[j].1) ==> self@[j].0
                    + BUCKET_SECS <= MAX_TIMESTAMP,
    {
        let (found, _, Ghost(at)) = self.spiking();
        let ghost s = self@;
        let mut i: usize = 0;
        while i < found.len()
            invariant
                i <= found@.len(),
                s == self@,
                at.len() == found@.len(),
                forall|a: int|
                    0 <= a < found@.len() ==> 0 <= #[trigger] at[a] < s.len() && is_spike(s, s[at[a]].1)
                        && found@[a].0 == s[at[a]].0 && found@[a].1 == s[at[a]].1,
                forall|a: int| 0 <= a < i ==> #[trigger] found@[a].0 + BUCKET_SECS <= MAX_TIMESTAMP,
            decreases found@.len() - i,
        {
            if found[i].0 > MAX_TIMESTAMP - BUCKET_SECS {
                proof {
                    assert(is_spike(self@, self@[at[i as int]].1));
                }
                return false;
            }
            i = i + 1;
        }
        proof {
            assert forall|j: int|
                0 <= j < self@.len() && is_spike(self@, #[trigger] self@[j].1) implies self@[j].0
                    + BUCKET_SECS <= MAX_TIMESTAMP by {
                let a = choose|a: int| 0 <= a < found@.len() && #[trigger] at[a] == j;
            }
        }
        true
    }

    /// Compute spikes from the accumulated buckets.
    /// Returns an empty Vec if there aren't enough buckets to be meaningful.
    fn finish(self) -> (r: Vec<ErrorSpike>)
        requires
            self.wf(),
            errors_in(self@) <= u64::MAX,
            forall|j: int|
                0 <= j < self@.len() && is_spike(self@, #[trigger] self@[j].1) ==> self@[j].0
                    + BUCKET_SECS <= MAX_TIMESTAMP,
        ensures
            spikes_of(self@, r@),
            forall|i: int, j: int|
                0 <= i < j < r@.len() ==> #[trigger] r@[i].bucket_start != #[trigger] r@[j].bucket_start,
    {
        let ghost s = self@;
        let (found, total, Ghost(at)) = self.spiking();
        let n = self.buckets.len();
        let mut spikes: Vec<ErrorSpike> = Vec::new();
        let mut i: usize = 0;
        while i < found.len()
            invariant
                i <= found@.len(),
                spikes@.len() == i,
                n == s.len(),
                total == errors_in(s),
                at.len() == found@.len(),
                forall|a: int|
                    0 <= a < found@.len() ==> 0 <= #[trigger] at[a] < s.len() && is_spike(s, s[at[a]].1)
                        && found@[a].0 == s[at[a]].0 && found@[a].1 == s[at[a]].1,
                forall|t: int|
                    0 <= t < s.len() && is_spike(s, #[trigger] s[t].1) ==> s[t].0 + BUCKET_SECS
                        <= MAX_TIMESTAMP,
                forall|a: int| 0 <= a < i ==> reports(#[trigger] spikes@[a], s, s[at[a]]),
            decreases found@.len() - i,
        {
            let (start, c) = found[i];
            proof {
                assert(is_spike(s, s[at[i as int]].1));
            }
            spikes.push(
                ErrorSpike {
                    bucket_start: Timestamp { secs: start, nanos: 0 },
                    bucket_end: Timestamp { secs: start + BUCKET_SECS, nanos: 0 },
                    count: c,
                    total_errors: total,
                    bucket_count: n as u64,
                },
            );
            i = i + 1;
        }
        proof {
            assert forall|a: int, b: int| 0 <= a < b < spikes@.len() implies #[trigger] spikes@[a].bucket_start.secs
                < #[trigger] spikes@[b].bucket_start.secs by {
                assert(at[a] < at[b]);
                assert(self.buckets@[at[a]].0 < self.buckets@[at[b]].0);
            }
        }
        let ghost spikes_v = spikes@;
        let r = sort_spikes(spikes);
        proof {
            lemma_sorted_spikes(s, spikes_v, at, r@);
            assert forall|i: int, j: int| 0 <= i < j < r@.len() implies #[trigger] r@[i].bucket_start
                != #[trigger] r@[j].bucket_start by {
                assert(reports_a_spike(s, r@[i]));
                assert(reports_a_spike(s, r@[j]));
                let a = choose|a: int| 0 <= a < s.len() && is_spike(s, s[a].1) && reports(r@[i], s, #[trigger] s[a]);
                let b = choose|b: int| 0 <= b < s.len() && is_spike(s, s[b].1) && reports(r@[j], s, #[trigger] s[b]);
                assert(spike_before(r@[i], r@[j]));
                if r@[i].bucket_start == r@[j].bucket_start {
                    assert(s[a].0 == self.buckets@[a].0);
                    assert(s[b].0 == self.buckets@[b].0);
                    if a < b {
                        assert(self.buckets@[a].0 < self.buckets@[b].0);
                    } else if b < a {
                        assert(self.buckets@[b].0 < self.buckets@[a].0);
                    }
                }
            }
        }
        r
    }

    /// Errors over all buckets and the sum of their squared counts.
    fn totals(&self) -> (r: (u64, u128))
        requires
            self.wf(),
            errors_in(self@) <= u64::MAX,
            squares_in(self@) <= errors_in(self@) * errors_in(self@),
        ensures
            r.0 == errors_in(self@),
            r.1 == squares_in(self@),
    {
        let ghost s = self@;
        let mut total: u64 = 0;
        let mut squares: u128 = 0;
        let mut i = self.buckets.len();
        assert(s.skip(i as int).len() == 0);
        while i > 0
            invariant
                i <= self.buckets@.len() == s.len(),
                s == self@,
                errors_in(s) <= u64::MAX,
                squares_in(s) <= errors_in(s) * errors_in(s),
                total == errors_in(s.skip(i as int)),
                squares == squares_in(s.skip(i as int)),
            decreases i,
        {
            let c = self.buckets[i - 1].1;
            proof {
                assert(s.skip(i - 1).drop_first() == s.skip(i as int));
                assert(s.skip(i - 1)[0].1 == c);
                lemma_errors_skip(s, i - 1);
                lemma_square_fits(errors_in(s) as u128);
                assert(squares_in(s) <= u128::MAX);
            }
            total = total + c;
            squares = squares + (c as u128) * (c as u128);
            i = i - 1;
        }
        assert(s.skip(0) == s);
        (total, squares)
    }

}

/// With fewer than three buckets there are no spikes.
pub proof fn lemma_few_buckets_no_spikes(s: Seq<(i64, nat)>, r: Seq<ErrorSpike>)
    requires
        s.len() < MIN_BUCKETS,
        spikes_of(s, r),
    ensures
        r.len() == 0,
{
    if r.len() > 0 {
        assert(reports_a_spike(s, r[0]));
    }
}

proof fn lemma_uniform_sums(s: Seq<(i64, nat)>, c: nat)
    requires
        forall|i: int| 0 <= i < s.len() ==> #[trigger] s[i].1 == c,
    ensures
        errors_in(s) == s.len() * c,
        squares_in(s) == s.len() * (c * c),
    decreases s.len(),
{
    if s.len() > 0 {
        let d = s.drop_first();
        assert forall|i: int| 0 <= i < d.len() implies #[trigger] d[i].1 == c by {
            assert(d[i] == s[i + 1]);
        }
        lemma_uniform_sums(d, c);
        assert(s[0].1 == c);
        assert(errors_in(s) == c + d.len() * c);
        assert(squares_in(s) == c * c + d.len() * (c * c));
        vstd::arithmetic::mul::lemma_mul_is_distributive_add_other_way(c as int, 1, d.len() as int);
        vstd::arithmetic::mul::lemma_mul_is_distributive_add_other_way((c * c) as int, 1, d.len() as int);
    }
}

/// When every bucket holds the same number of errors (a uniform log),
/// nothing spikes.
pub proof fn lemma_uniform_no_spikes(s: Seq<(i64, nat)>, r: Seq<ErrorSpike>)
    requires
        forall|i: int, j: int| 0 <= i < s.len() && 0 <= j < s.len() ==> #[trigger] s[i].1 == #[trigger] s[j].1,
        spikes_of(s, r),
    ensures
        r.len() == 0,
{
    if r.len() > 0 {
        assert(reports_a_spike(s, r[0]));
        let j = choose|j: int| 0 <= j < s.len() && is_spike(s, s[j].1) && reports(r[0], s, #[trigger] s[j]);
        let c = s[j].1;
        assert forall|i: int| 0 <= i < s.len() implies #[trigger] s[i].1 == c by {
            assert(s[i].1 == s[j].1);
        }
        lemma_uniform_sums(s, c);
        let n = s.len();
        assert(n * (n * (c * c)) == (n * c) * (n * c)) by (nonlinear_arith);
    }
}

/// Every reported spike holds at least `MIN_SPIKE_COUNT` errors, more than
/// the mean of all buckets, and spans five minutes from a multiple of five
/// minutes on; spikes come biggest first.
pub proof fn lemma_spike_shape(s: Seq<(i64, nat)>, r: Seq<ErrorSpike>, i: int)
    requires
        spikes_of(s, r),
        0 <= i < r.len(),
    ensures
        r[i].count >= MIN_SPIKE_COUNT,
        r[i].count * r[i].bucket_count > r[i].total_errors,
        r[i].bucket_count == s.len(),
        r[i].total_errors == errors_in(s),
        r[i].bucket_end.secs == r[i].bucket_start.secs + BUCKET_SECS,
        i + 1 < r.len() ==> r[i].count >= r[i + 1].count,
{
    assert(reports_a_spike(s, r[i]));
    let j = choose|j: int| 0 <= j < s.len() && is_spike(s, s[j].1) && reports(r[i], s, #[trigger] s[j]);
    assert(s.len() * s[j].1 == r[i].bucket_count * r[i].count) by (nonlinear_arith)
        requires
            s.len() == r[i].bucket_count,
            s[j].1 == r[i].count,
    ;
    if i + 1 < r.len() {
        assert(spike_before(r[i], r[i + 1]));
    }
}

proof fn lemma_sigma_square(n: nat)
    ensures
        n < 6 ==> sigma(n) * sigma(n) == 1,
        n >= 6 ==> sigma(n) * sigma(n) == 4,
{
    if n < 6 {
        assert(sigma(n) == 1);
        assert(sigma(n) * sigma(n) == 1) by (nonlinear_arith)
            requires
                sigma(n) == 1,
        ;
    } else {
        assert(sigma(n) == 2);
        assert(sigma(n) * sigma(n) == 4) by (nonlinear_arith)
            requires
                sigma(n) == 2,
        ;
    }
}

proof fn lemma_bar_plain(s: Seq<(i64, nat)>, c: nat)
    ensures
        ({
            let n = s.len() as int;
            let t = errors_in(s) as int;
            let q = squares_in(s) as int;
            is_spike(s, c) <==> {
                &&& c >= 3
                &&& n >= 3
                &&& n * q != t * t
                &&& n * c > t
                &&& n >= 6 ==> (n * c - t) * (n * c - t) > 4 * (n * q - t * t)
                &&& n < 6 ==> (n * c - t) * (n * c - t) > n * q - t * t
            }
        }),
{
    let n = s.len() as int;
    let t = errors_in(s) as int;
    let q = squares_in(s) as int;
    let k2 = sigma(s.len()) * sigma(s.len());
    lemma_sigma_square(s.len());
    let spread = n * q - t * t;
    assert(k2 * spread == (if n < 6 { spread } else { 4 * spread })) by (nonlinear_arith)
        requires
            n < 6 ==> k2 == 1,
            n >= 6 ==> k2 == 4,
    ;
}

/// The spike rule in plain arithmetic. Among `n` buckets holding `t`
/// errors in all, with squared counts summing to `q`, every reported spike
/// comes from a bucket whose count `c` is at least 3, with at least 3
/// buckets, above the mean (`n*c > t`), and clearing two standard
/// deviations when there are 6 buckets or more, `(n*c - t)^2 > 4*(n*q -
/// t^2)`, or one when there are fewer, `(n*c - t)^2 > n*q - t^2`.
/// Conversely every bucket whose count passes that test (in a log whose
/// buckets are not all equal) is reported.
pub proof fn lemma_spike_rule(s: Seq<(i64, nat)>, r: Seq<ErrorSpike>)
    requires
        spikes_of(s, r),
    ensures
        forall|i: int|
            0 <= i < r.len() ==> {
                let n = s.len() as int;
                let t = errors_in(s) as int;
                let q = squares_in(s) as int;
                let c = (#[trigger] r[i]).count as int;
                &&& c >= 3
                &&& n >= 3
                &&& n * c > t
                &&& n >= 6 ==> (n * c - t) * (n * c - t) > 4 * (n * q - t * t)
                &&& n < 6 ==> (n * c - t) * (n * c - t) > n * q - t * t
            },
        forall|j: int|
            0 <= j < s.len() && ({
                let n = s.len() as int;
                let t = errors_in(s) as int;
                let q = squares_in(s) as int;
                let c = (#[trigger] s[j]).1 as int;
                &&& c >= 3
                &&& n >= 3
                &&& n * q != t * t
                &&& n * c > t
                &&& n >= 6 ==> (n * c - t) * (n * c - t) > 4 * (n * q - t * t)
                &&& n < 6 ==> (n * c - t) * (n * c - t) > n * q - t * t
            }) ==> exists|i: int|
                0 <= i < r.len() && r[i].count == s[j].1 && r[i].bucket_start.secs == s[j].0,
{
    assert forall|i: int| 0 <= i < r.len() implies {
        let n = s.len() as int;
        let t = errors_in(s) as int;
        let q = squares_in(s) as int;
        let c = (#[trigger] r[i]).count as int;
        &&& c >= 3
        &&& n >= 3
        &&& n * c > t
        &&& n >= 6 ==> (n * c - t) * (n * c - t) > 4 * (n * q - t * t)
        &&& n < 6 ==> (n * c - t) * (n * c - t) > n * q - t * t
    } by {
        assert(reports_a_spike(s, r[i]));
        let j = choose|j: int| 0 <= j < s.len() && is_spike(s, s[j].1) && reports(r[i], s, #[trigger] s[j]);
        assert(r[i].count == s[j].1);
        lemma_bar_plain(s, s[j].1);
    }
    assert forall|j: int|
        0 <= j < s.len() && ({
            let n = s.len() as int;
            let t = errors_in(s) as int;
            let q = squares_in(s) as int;
            let c = (#[trigger] s[j]).1 as int;
            &&& c >= 3
            &&& n >= 3
            &&& n * q != t * t
            &&& n * c > t
            &&& n >= 6 ==> (n * c - t) * (n * c - t) > 4 * (n * q - t * t)
            &&& n < 6 ==> (n * c - t) * (n * c - t) > n * q - t * t
        }) implies exists|i: int| 0 <= i < r.len() && r[i].count == s[j].1 && r[i].bucket_start.secs == s[j].0 by {
        lemma_bar_plain(s, s[j].1);
        assert(is_spike(s, s[j].1));
        let i = choose|i: int| 0 <= i < r.len() && reports(#[trigger] r[i], s, s[j]);
        assert(r[i].count == s[j].1 && r[i].bucket_start.secs == s[j].0);
    }
}

proof fn lemma_spike_in_other(s: Seq<(i64, nat)>, r1: Seq<ErrorSpike>, r2: Seq<ErrorSpike>, i: int) -> (k: int)
    requires
        spikes_of(s, r1),
        spikes_of(s, r2),
        0 <= i < r1.len(),
    ensures
        0 <= k < r2.len(),
        r2[k] == r1[i],
{
    assert(reports_a_spike(s, r1[i]));
    let j = choose|j: int| 0 <= j < s.len() && is_spike(s, s[j].1) && reports(r1[i], s, #[trigger] s[j]);
    let k = choose|k: int| 0 <= k < r2.len() && reports(#[trigger] r2[k], s, s[j]);
    k
}

#[verifier::spinoff_prover]
proof fn lemma_spikes_prefix_equal(s: Seq<(i64, nat)>, r1: Seq<ErrorSpike>, r2: Seq<ErrorSpike>, i: int)
    requires
        spikes_of(s, r1),
        spikes_of(s, r2),
        0 <= i < r1.len(),
        i < r2.len(),
    ensures
        r1[i] == r2[i],
    decreases i,
{
    assert forall|k: int| 0 <= k < i implies r1[k] == r2[k] by {
        lemma_spikes_prefix_equal(s, r1, r2, k);
    }
    if r1[i] != r2[i] {
        let j1 = lemma_spike_in_other(s, r2, r1, i);
        let j2 = lemma_spike_in_other(s, r1, r2, i);
        if j1 < i {
            assert(r2[j1] == r1[j1]);
            assert(spike_before(r2[j1], r2[i]));
        }
        if j2 < i {
            assert(r1[j2] == r2[j2]);
            assert(spike_before(r1[j2], r1[i]));
        }
        if j1 > i && j2 > i {
            assert(spike_before(r1[i], r1[j1]));
            assert(spike_before(r2[i], r2[j2]));
        }
    }
}

proof fn lemma_spikes_not_shorter(s: Seq<(i64, nat)>, r1: Seq<ErrorSpike>, r2: Seq<ErrorSpike>)
    requires
        spikes_of(s, r1),
        spikes_of(s, r2),
        forall|i: int| 0 <= i < r1.len() && i < r2.len() ==> r1[i] == r2[i],
    ensures
        r1.len() >= r2.len(),
{
    if r1.len() < r2.len() {
        let i = r1.len() as int;
        let j = lemma_spike_in_other(s, r2, r1, i);
        assert(r2[j] == r1[j]);
        assert(spike_before(r2[j], r2[i]));
    }
}

/// The spike list is determined by the buckets: there is one list of
/// spikes for given buckets.
pub proof fn lemma_spikes_unique(s: Seq<(i64, nat)>, r1: Seq<ErrorSpike>, r2: Seq<ErrorSpike>)
    requires
        spikes_of(s, r1),
        spikes_of(s, r2),
    ensures
        r1 == r2,
{
    assert forall|i: int| 0 <= i < r1.len() && i < r2.len() implies r1[i] == r2[i] by {
        lemma_spikes_prefix_equal(s, r1, r2, i);
    }
    lemma_spikes_not_shorter(s, r1, r2);
    lemma_spikes_not_shorter(s, r2, r1);
    assert(r1 =~= r2);
}

proof fn lemma_sorted_spikes(s: Seq<(i64, nat)>, found: Seq<ErrorSpike>, at: Seq<int>, r: Seq<ErrorSpike>)
    requires
        at.len() == found.len(),
        forall|a: int|
            0 <= a < found.len() ==> 0 <= #[trigger] at[a] < s.len() && is_spike(s, s[at[a]].1)
                && reports(found[a], s, s[at[a]]),
        forall|t: int|
            0 <= t < s.len() && is_spike(s, #[trigger] s[t].1) ==> exists|a: int|
                0 <= a < found.len() && #[trigger] at[a] == t,
        forall|i: int| 0 <= i < r.len() ==> #[trigger] found.contains(r[i]),
        forall|i: int| 0 <= i < found.len() ==> #[trigger] r.contains(found[i]),
        forall|i: int, j: int| 0 <= i < j < r.len() ==> spike_before(#[trigger] r[i], #[trigger] r[j]),
    ensures
        spikes_of(s, r),
{
    assert forall|i: int| 0 <= i < r.len() implies reports_a_spike(s, #[trigger] r[i]) by {
        assert(found.contains(r[i]));
        let a = choose|a: int| 0 <= a < found.len() && found[a] == r[i];
        let j = at[a];
        assert(0 <= j < s.len() && is_spike(s, s[j].1) && reports(r[i], s, s[j]));
    }
    assert forall|t: int| 0 <= t < s.len() && is_spike(s, #[trigger] s[t].1) implies (exists|i: int|
        0 <= i < r.len() && reports(#[trigger] r[i], s, s[t])) by {
        let a = choose|a: int| 0 <= a < found.len() && #[trigger] at[a] == t;
        assert(r.contains(found[a]));
        let i = choose|i: int| 0 <= i < r.len() && r[i] == found[a];
        assert(reports(r[i], s, s[t]));
    }
}

/// A count of at most `u64::MAX`, squared, fits in 128 bits.
proof fn lemma_square_fits(t: u128)
    requires
        t <= u64::MAX,
    ensures
        t * t <= u128::MAX,
{
    assert(t * t <= 0xFFFF_FFFF_FFFF_FFFFint * 0xFFFF_FFFF_FFFF_FFFFint) by (nonlinear_arith)
        requires
            t <= 0xFFFF_FFFF_FFFF_FFFFint,
    ;
    assert(0xFFFF_FFFF_FFFF_FFFFint * 0xFFFF_FFFF_FFFF_FFFFint <= 0xFFFF_FFFF_FFFF_FFFF_FFFF_FFFF_FFFF_FFFFint);
}

/// The exact spike test for one bucket.
fn clears(n: u128, c: u128, total: u128, squares: u128, k2: u128) -> (r: bool)
    requires
        n <= total,
        c <= total,
        total <= u64::MAX,
        squares <= total * total,
        k2 <= 4,
    ensures
        r == clears_bar(n as int, c as int, total as int, squares as int, k2 as int),
{
    proof {
        lemma_square_fits(total);
        assert(n * c <= total * total) by (nonlinear_arith)
            requires
                n <= total,
                c <= total,
        ;
    }
    let nc = n * c;
    if nc <= total || c < MIN_SPIKE_COUNT as u128 {
        return false;
    }
    let d = nc - total;
    let nq = wide_mul(n, squares);
    let ss = (0u128, total * total);
    if wide_less(nq, ss) {
        // The spread is negative, and so is the bar.
        proof {
            assert(k2 * (n * squares - total * total) <= 0) by (nonlinear_arith)
                requires
                    n * squares < total * total,
                    0 <= k2,
            ;
            assert(d * d > 0) by (nonlinear_arith)
                requires
                    d > 0,
            ;
        }
        return true;
    }
    let spread = wide_sub(nq, ss);
    proof {
        assert(n * squares <= u64::MAX * (u64::MAX * u64::MAX)) by (nonlinear_arith)
            requires
                n <= total,
                squares <= total * total,
                total <= u64::MAX,
        ;
        assert(4 * (u64::MAX * (u64::MAX * u64::MAX)) < crate::wide::base() * crate::wide::base());
    }
    let mut bar = (0u128, 0u128);
    let mut i: u128 = 0;
    while i < k2
        invariant
            i <= k2 <= 4,
            wide_value(spread) == n * squares - total * total,
            0 <= wide_value(spread) <= u64::MAX * (u64::MAX * u64::MAX),
            4 * (u64::MAX * (u64::MAX * u64::MAX)) < crate::wide::base() * crate::wide::base(),
            wide_value(bar) == i * wide_value(spread),
        decreases k2 - i,
    {
        proof {
            assert((i + 1) * wide_value(spread) <= 4 * (u64::MAX * (u64::MAX * u64::MAX))) by (nonlinear_arith)
                requires
                    i + 1 <= 4,
                    0 <= wide_value(spread) <= u64::MAX * (u64::MAX * u64::MAX),
            ;
            assert(i * wide_value(spread) + wide_value(spread) == (i + 1) * wide_value(spread)) by (nonlinear_arith);
        }
        bar = wide_add(bar, spread);
        i = i + 1;
    }
    let dd = wide_mul(d, d);
    wide_less(bar, dd)
}

/// Sorts spikes by count, descending; spikes of equal count stay in time
/// order.
fn sort_spikes(v: Vec<ErrorSpike>) -> (r: Vec<ErrorSpike>)
    requires
        forall|a: int, b: int| 0 <= a < b < v@.len() ==> #[trigger] v@[a].bucket_start.secs < #[trigger] v@[b].bucket_start.secs,
    ensures
        forall|i: int| 0 <= i < r@.len() ==> #[trigger] v@.contains(r@[i]),
        forall|i: int| 0 <= i < v@.len() ==> #[trigger] r@.contains(v@[i]),
        forall|i: int, j: int| 0 <= i < j < r@.len() ==> spike_before(#[trigger] r@[i], #[trigger] r@[j]),
{
    let ghost orig = v@;
    let mut remaining = v;
    let mut result: Vec<ErrorSpike> = Vec::new();
    while remaining.len() > 0
        invariant
            forall|a: int, b: int|
                0 <= a < remaining@.len() && 0 <= b < remaining@.len() && a != b
                    ==> #[trigger] remaining@[a].bucket_start.secs != #[trigger] remaining@[b].bucket_start.secs,
            forall|i: int| 0 <= i < remaining@.len() ==> #[trigger] orig.contains(remaining@[i]),
            forall|i: int| 0 <= i < result@.len() ==> #[trigger] orig.contains(result@[i]),
            forall|i: int|
                0 <= i < orig.len() ==> #[trigger] result@.contains(orig[i]) || remaining@.contains(orig[i]),
            forall|i: int, j: int| 0 <= i < j < result@.len() ==> spike_before(#[trigger] result@[i], #[trigger] result@[j]),
            forall|i: int, j: int|
                0 <= i < result@.len() && 0 <= j < remaining@.len() ==> spike_before(#[trigger] result@[i], #[trigger] remaining@[j]),
        decreases remaining@.len(),
    {
        let mut best: usize = 0;
        let mut j: usize = 1;
        while j < remaining.len()
            invariant
                best < j <= remaining@.len(),
                forall|a: int, b: int|
                    0 <= a < remaining@.len() && 0 <= b < remaining@.len() && a != b
                        ==> #[trigger] remaining@[a].bucket_start.secs != #[trigger] remaining@[b].bucket_start.secs,
                forall|t: int| 0 <= t < j && t != best ==> spike_before(remaining@[best as int], #[trigger] remaining@[t]),
            decreases remaining@.len() - j,
        {
            let a = &remaining[j];
            let c = &remaining[best];
            if a.count > c.count || (a.count == c.count && a.bucket_start.secs < c.bucket_start.secs) {
                best = j;
            }
            j = j + 1;
        }
        let ghost before_remove = remaining@;
        let e = remaining.remove(best);
        let ghost before_push = result@;
        result.push(e);
        proof {
            assert forall|i: int| 0 <= i < remaining@.len() implies #[trigger] orig.contains(remaining@[i]) by {
                let i2 = if i < best { i } else { i + 1 };
                assert(remaining@[i] == before_remove[i2]);
            }
            assert forall|a: int, b: int|
                0 <= a < remaining@.len() && 0 <= b < remaining@.len() && a != b
                    implies #[trigger] remaining@[a].bucket_start.secs != #[trigger] remaining@[b].bucket_start.secs by {
                let a2 = if a < best { a } else { a + 1 };
                let b2 = if b < best { b } else { b + 1 };
                assert(remaining@[a] == before_remove[a2]);
                assert(remaining@[b] == before_remove[b2]);
            }
            assert forall|i: int| 0 <= i < result@.len() implies #[trigger] orig.contains(result@[i]) by {
                if i < before_push.len() {
                    assert(result@[i] == before_push[i]);
                }
            }
            assert forall|i: int| 0 <= i < orig.len() implies #[trigger] result@.contains(orig[i]) || remaining@.contains(orig[i]) by {
                if before_push.contains(orig[i]) {
                    let k = choose|k: int| 0 <= k < before_push.len() && before_push[k] == orig[i];
                    assert(result@[k] == before_push[k]);
                } else {
                    let k = choose|k: int| 0 <= k < before_remove.len() && before_remove[k] == orig[i];
                    if k == best {
                        assert(result@[before_push.len() as int] == orig[i]);
                    } else if k < best {
                        assert(remaining@[k] == orig[i]);
                    } else {
                        assert(remaining@[k - 1] == orig[i]);
                    }
                }
            }
            assert forall|i: int, j: int| 0 <= i < result@.len() && 0 <= j < remaining@.len()
                implies spike_before(#[trigger] result@[i], #[trigger] remaining@[j]) by {
                let j2 = if j < best { j } else { j + 1 };
                assert(remaining@[j] == before_remove[j2]);
                if i < before_push.len() {
                    assert(result@[i] == before_push[i]);
                }
            }
            assert forall|i: int, j: int| 0 <= i < j < result@.len() implies spike_before(#[trigger] result@[i], #[trigger] result@[j]) by {
                if j < before_push.len() {
                    assert(result@[i] == before_push[i]);
                    assert(result@[j] == before_push[j]);
                } else {
                    assert(result@[i] == before_push[i]);
                }
            }
        }
    }
    result
}

} // verus!
