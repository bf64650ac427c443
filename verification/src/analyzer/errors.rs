//! Recurring errors: ERROR and FATAL events, counted by normalized message.
//!
//! Messages are normalized before counting so that variable values
//! don't fragment otherwise-identical errors. Example:
//!
//!     "User 18273 failed authentication"
//!     "User 18291 failed authentication"
//!     →  "User <NUM> failed authentication"  (count: 2)

use vstd::prelude::*;
use crate::analyzer::spikes::{
    bucket_run, bump, bucket_of, errors_in, lemma_spikes_unique, is_spike, lemma_bump_commutes, lemma_bump_errors, spikes_of, SpikeAccumulator,
    BUCKET_SECS, lemma_count_le_errors,
};
use crate::analyzer::tally::{
    count_in, counts_sum, entry_view, is_top, lemma_top_size, lemma_total_of_empty, lemma_total_of_insert, total_of, Entry, Tally,
};
use crate::model::{ErrorCount, ErrorSpike, ErrorSummary, EventView, Level, LogEvent};
use crate::text::{chars_of, is_digit, is_whitespace, is_ws, string_of};
use crate::time::{Timestamp, MAX_TIMESTAMP};

verus! {

/// Whitespace collapsing, from a position where `started` says whether a
/// word was already written and `pending` whether a space is owed before
/// the next word.
pub open spec fn collapse_from(s: Seq<char>, started: bool, pending: bool) -> Seq<char>
    decreases s.len(),
{
    if s.len() == 0 {
        Seq::empty()
    } else if is_ws(s[0]) {
        collapse_from(s.drop_first(), started, started)
    } else {
        (if pending { seq![' '] } else { Seq::empty() }) + seq![s[0]] + collapse_from(
            s.drop_first(),
            true,
            false,
        )
    }
}

/// `split_whitespace` joined by single spaces: no leading or trailing
/// whitespace, and each run of whitespace between words becomes one space.
pub open spec fn collapse(s: Seq<char>) -> Seq<char> {
    collapse_from(s, false, false)
}

/// Digit masking, from a position where `in_digits` says whether the
/// previous character was an ASCII digit.
pub open spec fn mask_from(s: Seq<char>, in_digits: bool) -> Seq<char>
    decreases s.len(),
{
    if s.len() == 0 {
        Seq::empty()
    } else if is_digit(s[0]) {
        (if in_digits { Seq::empty() } else { seq!['<', 'N', 'U', 'M', '>'] }) + mask_from(
            s.drop_first(),
            true,
        )
    } else {
        seq![s[0]] + mask_from(s.drop_first(), false)
    }
}

/// Each run of ASCII digits replaced by `<NUM>`.
pub open spec fn mask_digits(s: Seq<char>) -> Seq<char> {
    mask_from(s, false)
}

/// The normalized form of an error message.
pub open spec fn normalized(s: Seq<char>) -> Seq<char> {
    mask_digits(collapse(s))
}

fn collapse_whitespace(s: &[char]) -> (r: Vec<char>)
    ensures
        r@ == collapse(s@),
{
    let mut out: Vec<char> = Vec::new();
    let mut started = false;
    let mut pending = false;
    let mut i: usize = 0;
    assert(s@.skip(0) == s@);
    while i < s.len()
        invariant
            i <= s.len(),
            out@ + collapse_from(s@.skip(i as int), started, pending) == collapse(s@),
        decreases s.len() - i,
    {
        let c = s[i];
        let ghost rest = s@.skip(i as int);
        assert(rest[0] == c);
        assert(rest.drop_first() == s@.skip(i + 1));
        if is_whitespace(c) {
            pending = started;
        } else {
            let ghost before = out@;
            if pending {
                out.push(' ');
            }
            out.push(c);
            assert(out@ == before + ((if pending { seq![' '] } else { Seq::<char>::empty() }) + seq![c]));
            assert(out@ + collapse_from(s@.skip(i + 1), true, false) == before + collapse_from(
                rest,
                started,
                pending,
            ));
            started = true;
            pending = false;
        }
        i = i + 1;
    }
    assert(s@.skip(i as int).len() == 0);
    assert(out@ + Seq::<char>::empty() == out@);
    out
}

fn mask_numbers(s: &[char]) -> (r: Vec<char>)
    ensures
        r@ == mask_digits(s@),
{
    let mut out: Vec<char> = Vec::new();
    let mut prev_digit = false;
    let mut i: usize = 0;
    assert(s@.skip(0) == s@);
    while i < s.len()
        invariant
            i <= s.len(),
            out@ + mask_from(s@.skip(i as int), prev_digit) == mask_digits(s@),
        decreases s.len() - i,
    {
        let c = s[i];
        let ghost rest = s@.skip(i as int);
        let ghost before = out@;
        assert(rest[0] == c);
        assert(rest.drop_first() == s@.skip(i + 1));
        if '0' <= c && c <= '9' {
            if !prev_digit {
                out.push('<');
                out.push('N');
                out.push('U');
                out.push('M');
                out.push('>');
            }
            assert(out@ == before + (if prev_digit { Seq::<char>::empty() } else { seq!['<', 'N', 'U', 'M', '>'] }));
            prev_digit = true;
        } else {
            out.push(c);
            prev_digit = false;
        }
        i = i + 1;
    }
    assert(s@.skip(i as int).len() == 0);
    assert(out@ + Seq::<char>::empty() == out@);
    out
}

proof fn lemma_mask_cons(c: char, x: Seq<char>, in_digits: bool)
    ensures
        mask_from(seq![c] + x, in_digits) == (if is_digit(c) {
            (if in_digits { Seq::empty() } else { seq!['<', 'N', 'U', 'M', '>'] }) + mask_from(x, true)
        } else {
            seq![c] + mask_from(x, false)
        }),
{
    let s = seq![c] + x;
    assert(s[0] == c);
    assert(s.drop_first() =~= x);
}

proof fn lemma_collapse_cons(c: char, x: Seq<char>, started: bool, pending: bool)
    ensures
        collapse_from(seq![c] + x, started, pending) == (if is_ws(c) {
            collapse_from(x, started, started)
        } else {
            (if pending { seq![' '] } else { Seq::empty() }) + seq![c] + collapse_from(x, true, false)
        }),
{
    let s = seq![c] + x;
    assert(s[0] == c);
    assert(s.drop_first() =~= x);
}

/// Collapsing a word: it is written out whole, after the space owed.
proof fn lemma_collapse_word(w: Seq<char>, m: Seq<char>, started: bool, pending: bool)
    requires
        w.len() > 0,
        forall|i: int| 0 <= i < w.len() ==> !is_ws(#[trigger] w[i]),
    ensures
        collapse_from(w + m, started, pending) == (if pending { seq![' '] } else { Seq::empty() }) + w
            + collapse_from(m, true, false),
    decreases w.len(),
{
    let rest = w.drop_first();
    assert(w + m =~= seq![w[0]] + (rest + m));
    lemma_collapse_cons(w[0], rest + m, started, pending);
    let pre: Seq<char> = if pending { seq![' '] } else { Seq::empty() };
    if rest.len() == 0 {
        assert(rest + m =~= m);
        assert(pre + w =~= pre + seq![w[0]]);
    } else {
        assert forall|i: int| 0 <= i < rest.len() implies !is_ws(#[trigger] rest[i]) by {
            assert(rest[i] == w[i + 1]);
        }
        lemma_collapse_word(rest, m, true, false);
        assert(Seq::<char>::empty() + rest =~= rest);
        assert(pre + seq![w[0]] + (rest + collapse_from(m, true, false)) =~= pre + w + collapse_from(
            m,
            true,
            false,
        ));
    }
}

/// How the digit state of masking a collapsed text (`in_out`) and of
/// masking the raw text (`in_raw`) relate at a point of collapsing.
spec fn states_agree(in_out: bool, in_raw: bool, started: bool, pending: bool) -> bool {
    &&& pending ==> started && !in_raw
    &&& !pending && started ==> in_out == in_raw
    &&& !started ==> !in_out && !in_raw && !pending
}

proof fn lemma_mask_collapse_commute(
    s: Seq<char>,
    in_out: bool,
    in_raw: bool,
    started: bool,
    pending: bool,
)
    requires
        states_agree(in_out, in_raw, started, pending),
    ensures
        mask_from(collapse_from(s, started, pending), in_out) == collapse_from(
            mask_from(s, in_raw),
            started,
            pending,
        ),
    decreases s.len(),
{
    let num = seq!['<', 'N', 'U', 'M', '>'];
    let e = Seq::<char>::empty();
    if s.len() == 0 {
        assert(collapse_from(s, started, pending) =~= e);
        assert(mask_from(s, in_raw) =~= e);
        assert(mask_from(e, in_out) =~= e);
        assert(collapse_from(e, started, pending) =~= e);
        return;
    }
    let c = s[0];
    let t = s.drop_first();
    assert(s =~= seq![c] + t);
    lemma_collapse_cons(c, t, started, pending);
    lemma_mask_cons(c, t, in_raw);
    if is_ws(c) {
        lemma_mask_collapse_commute(t, in_out, false, started, started);
        lemma_collapse_cons(c, mask_from(t, false), started, pending);
        return;
    }
    let ct = collapse_from(t, true, false);
    let pre: Seq<char> = if pending { seq![' '] } else { e };
    assert(collapse_from(s, started, pending) == pre + seq![c] + ct);
    if pending {
        assert(pre + seq![c] + ct =~= seq![' '] + (seq![c] + ct));
        lemma_mask_cons(' ', seq![c] + ct, in_out);
        lemma_mask_cons(c, ct, false);
    } else {
        assert(pre + seq![c] + ct =~= seq![c] + ct);
        lemma_mask_cons(c, ct, in_out);
    }
    if is_digit(c) {
        let mt = mask_from(t, true);
        lemma_mask_collapse_commute(t, true, true, true, false);
        assert forall|i: int| 0 <= i < num.len() implies !is_ws(#[trigger] num[i]) by {}
        if in_raw {
            assert(e + mt =~= mt);
        } else {
            lemma_collapse_word(num, mt, started, pending);
        }
        assert(e + mask_from(ct, true) =~= mask_from(ct, true));
        assert(seq![' '] + (num + mask_from(ct, true)) =~= seq![' '] + num + mask_from(ct, true));
    } else {
        let mt = mask_from(t, false);
        lemma_mask_collapse_commute(t, false, false, true, false);
        lemma_collapse_cons(c, mt, started, pending);
    }
}

/// Collapsing whitespace and masking numbers can be done in either order.
proof fn lemma_normalized_masks_first(s: Seq<char>)
    ensures
        normalized(s) == collapse(mask_digits(s)),
{
    lemma_mask_collapse_commute(s, false, false, false, false);
}

/// Messages that differ only in their numbers, each run of digits of
/// whatever length, normalize to the same text, so they are counted
/// together.
pub proof fn lemma_normalized_ignores_numbers(a: Seq<char>, b: Seq<char>)
    requires
        mask_digits(a) == mask_digits(b),
    ensures
        normalized(a) == normalized(b),
{
    lemma_normalized_masks_first(a);
    lemma_normalized_masks_first(b);
}

/// Every whitespace character of `u` is a space followed by a character
/// that is not whitespace.
pub open spec fn tidy(u: Seq<char>) -> bool
    decreases u.len(),
{
    if u.len() == 0 {
        true
    } else if is_ws(u[0]) {
        u[0] == ' ' && u.len() > 1 && !is_ws(u[1]) && tidy(u.drop_first())
    } else {
        tidy(u.drop_first())
    }
}

/// `u` holds no ASCII digit.
pub open spec fn no_digits(u: Seq<char>) -> bool {
    forall|i: int| 0 <= i < u.len() ==> !is_digit(#[trigger] u[i])
}

proof fn lemma_tidy_prepend(c: char, m: Seq<char>)
    requires
        !is_ws(c),
        tidy(m),
    ensures
        tidy(seq![c] + m),
{
    assert((seq![c] + m).drop_first() =~= m);
}

proof fn lemma_collapse_tidy(s: Seq<char>, started: bool, pending: bool)
    ensures
        tidy(collapse_from(s, started, pending)),
    decreases s.len(),
{
    if s.len() > 0 {
        if is_ws(s[0]) {
            lemma_collapse_tidy(s.drop_first(), started, started);
        } else {
            let r = collapse_from(s.drop_first(), true, false);
            lemma_collapse_tidy(s.drop_first(), true, false);
            lemma_tidy_prepend(s[0], r);
            if pending {
                let w = seq![s[0]] + r;
                assert(seq![' '] + seq![s[0]] + r =~= seq![' '] + w);
                assert((seq![' '] + w).drop_first() =~= w);
                assert((seq![' '] + w)[1] == s[0]);
            } else {
                assert(Seq::<char>::empty() + seq![s[0]] + r =~= seq![s[0]] + r);
            }
        }
    }
}

proof fn lemma_collapse_lead(s: Seq<char>)
    ensures
        collapse_from(s, false, false).len() > 0 ==> !is_ws(collapse_from(s, false, false)[0]),
    decreases s.len(),
{
    if s.len() > 0 {
        if is_ws(s[0]) {
            lemma_collapse_lead(s.drop_first());
        } else {
            let r = collapse_from(s.drop_first(), true, false);
            assert(Seq::<char>::empty() + seq![s[0]] + r =~= seq![s[0]] + r);
        }
    }
}

proof fn lemma_collapse_fixes_tail(u: Seq<char>)
    requires
        tidy(u),
    ensures
        collapse_from(u, true, false) == u,
    decreases u.len(),
{
    if u.len() > 0 {
        let v = u.drop_first();
        if is_ws(u[0]) {
            let w = v.drop_first();
            assert(tidy(v) && v.len() > 0 && !is_ws(v[0]));
            assert(tidy(w));
            lemma_collapse_fixes_tail(w);
            assert(collapse_from(v, true, true) == seq![' '] + seq![v[0]] + collapse_from(w, true, false));
            assert(u =~= seq![' '] + seq![v[0]] + w);
        } else {
            lemma_collapse_fixes_tail(v);
            assert(u =~= Seq::<char>::empty() + seq![u[0]] + v);
        }
    }
}

proof fn lemma_collapse_fixes(u: Seq<char>)
    requires
        tidy(u),
        u.len() > 0 ==> !is_ws(u[0]),
    ensures
        collapse(u) == u,
{
    if u.len() > 0 {
        let v = u.drop_first();
        lemma_collapse_fixes_tail(v);
        assert(u =~= Seq::<char>::empty() + seq![u[0]] + v);
    }
}

proof fn lemma_mask_tidy(u: Seq<char>, in_digits: bool)
    requires
        tidy(u),
    ensures
        tidy(mask_from(u, in_digits)),
        no_digits(mask_from(u, in_digits)),
        u.len() > 0 && !is_digit(u[0]) ==> mask_from(u, in_digits).len() > 0 && mask_from(
            u,
            in_digits,
        )[0] == u[0],
        u.len() > 0 && is_digit(u[0]) && !in_digits ==> mask_from(u, in_digits).len() > 0 && mask_from(
            u,
            in_digits,
        )[0] == '<',
    decreases u.len(),
{
    if u.len() > 0 {
        let v = u.drop_first();
        if is_digit(u[0]) {
            lemma_mask_tidy(v, true);
            let m = mask_from(v, true);
            if !in_digits {
                lemma_tidy_prepend('>', m);
                lemma_tidy_prepend('M', seq!['>'] + m);
                lemma_tidy_prepend('U', seq!['M'] + (seq!['>'] + m));
                lemma_tidy_prepend('N', seq!['U'] + (seq!['M'] + (seq!['>'] + m)));
                lemma_tidy_prepend('<', seq!['N'] + (seq!['U'] + (seq!['M'] + (seq!['>'] + m))));
                assert(seq!['<', 'N', 'U', 'M', '>'] + m =~= seq!['<'] + (seq!['N'] + (seq!['U'] + (
                seq!['M'] + (seq!['>'] + m)))));
            } else {
                assert(Seq::<char>::empty() + m =~= m);
            }
            assert forall|i: int| 0 <= i < mask_from(u, in_digits).len() implies !is_digit(
                #[trigger] mask_from(u, in_digits)[i],
            ) by {
                if !in_digits && i >= 5 {
                    assert(mask_from(u, in_digits)[i] == m[i - 5]);
                }
            }
        } else {
            lemma_mask_tidy(v, false);
            let m = mask_from(v, false);
            if is_ws(u[0]) {
                assert((seq![u[0]] + m).drop_first() =~= m);
            } else {
                lemma_tidy_prepend(u[0], m);
            }
            assert forall|i: int| 0 <= i < mask_from(u, in_digits).len() implies !is_digit(
                #[trigger] mask_from(u, in_digits)[i],
            ) by {
                if i >= 1 {
                    assert(mask_from(u, in_digits)[i] == m[i - 1]);
                }
            }
        }
    }
}

proof fn lemma_mask_fixes(y: Seq<char>, in_digits: bool)
    requires
        no_digits(y),
    ensures
        mask_from(y, in_digits) == y,
    decreases y.len(),
{
    if y.len() > 0 {
        let v = y.drop_first();
        assert(!is_digit(y[0]));
        assert forall|i: int| 0 <= i < v.len() implies !is_digit(#[trigger] v[i]) by {
            assert(v[i] == y[i + 1]);
        }
        lemma_mask_fixes(v, false);
        assert(y =~= seq![y[0]] + v);
    }
}

proof fn lemma_collapse_empty(s: Seq<char>, started: bool, pending: bool)
    ensures
        collapse_from(s, started, pending).len() == 0 <==> forall|i: int|
            0 <= i < s.len() ==> is_ws(#[trigger] s[i]),
    decreases s.len(),
{
    if s.len() > 0 {
        let t = s.drop_first();
        if is_ws(s[0]) {
            lemma_collapse_empty(t, started, started);
            if collapse_from(t, started, started).len() == 0 {
                assert forall|i: int| 0 <= i < s.len() implies is_ws(#[trigger] s[i]) by {
                    if i > 0 {
                        assert(s[i] == t[i - 1]);
                    }
                }
            } else {
                let k = choose|k: int| 0 <= k < t.len() && !is_ws(#[trigger] t[k]);
                assert(s[k + 1] == t[k]);
            }
        } else {
            let r = collapse_from(t, true, false);
            let pre: Seq<char> = if pending { seq![' '] } else { Seq::empty() };
            assert((pre + seq![s[0]] + r).len() > 0);
        }
    }
}

/// The shape of a normalized message: no ASCII digit; every whitespace
/// character a single space between two words (none leading, none
/// trailing, never two in a row); empty exactly when the message is all
/// whitespace.
pub proof fn lemma_normalized_shape(s: Seq<char>)
    ensures
        no_digits(normalized(s)),
        tidy(normalized(s)),
        normalized(s).len() > 0 ==> !is_ws(normalized(s)[0]),
        normalized(s).len() == 0 <==> forall|i: int| 0 <= i < s.len() ==> is_ws(#[trigger] s[i]),
{
    let c = collapse(s);
    lemma_collapse_tidy(s, false, false);
    lemma_collapse_lead(s);
    lemma_collapse_empty(s, false, false);
    lemma_mask_tidy(c, false);
    if c.len() > 0 {
        assert(!is_ws(c[0]));
        if is_digit(c[0]) {
            assert(normalized(s)[0] == '<');
        } else {
            assert(normalized(s)[0] == c[0]);
        }
    } else {
        assert(mask_digits(c) =~= Seq::<char>::empty());
    }
}

/// Normalizing twice changes nothing: a normalized message is its own
/// normal form.
pub proof fn lemma_normalize_idempotent(s: Seq<char>)
    ensures
        normalized(normalized(s)) == normalized(s),
{
    let c = collapse(s);
    lemma_collapse_tidy(s, false, false);
    lemma_collapse_lead(s);
    lemma_mask_tidy(c, false);
    let m = mask_digits(c);
    if c.len() > 0 {
        assert(!is_ws(c[0]));
        if is_digit(c[0]) {
            assert(m[0] == '<');
        }
    }
    lemma_collapse_fixes(m);
    lemma_mask_fixes(m, false);
}

/// Normalizes an error message so that repeated-but-variable content
/// doesn't fragment counts.
///
/// Rules (deliberately simple for V1):
///   - Trim whitespace
///   - Collapse consecutive whitespace to a single space
///   - Replace runs of digits with `<NUM>`
pub fn normalize(msg: &str) -> (r: String)
    ensures
        r@ == normalized(msg@),
{
    let v = chars_of(msg);
    let collapsed = collapse_whitespace(v.as_slice());
    let out = mask_numbers(collapsed.as_slice());
    string_of(out.as_slice())
}

/// The summary of ranked texts as error counts.
pub open spec fn error_counts_view(r: Seq<ErrorCount>) -> Seq<(Seq<char>, nat)> {
    r.map_values(|e: ErrorCount| (e.message@, e.count as nat))
}

/// Folds ERROR and FATAL events into a summary of recurring messages.
pub struct ErrorAccumulator {
    counts: Tally,
    total: u64,
    spikes: SpikeAccumulator,
    /// The events observed so far, in order.
    events: Ghost<Seq<EventView>>,
}

/// An event's timestamp, if any, is one that chrono can hold.
pub open spec fn event_wf(e: &LogEvent) -> bool {
    e.timestamp matches Some(t) ==> t.valid()
}

/// An ERROR or FATAL level.
pub open spec fn is_error_level(level: Option<Level>) -> bool {
    level == Some(Level::Error) || level == Some(Level::Fatal)
}

/// Message counts after one more event.
pub open spec fn counts_step(m: Map<Seq<char>, nat>, level: Option<Level>, message: Seq<char>) -> Map<
    Seq<char>,
    nat,
> {
    if is_error_level(level) {
        m.insert(normalized(message), count_in(m, normalized(message)) + 1)
    } else {
        m
    }
}

/// Error time buckets after one more event.
pub open spec fn buckets_step(b: Seq<(i64, nat)>, level: Option<Level>, ts: Option<Timestamp>) -> Seq<
    (i64, nat),
> {
    if is_error_level(level) {
        match ts {
            Some(t) => bump(b, bucket_of(t).secs),
            None => b,
        }
    } else {
        b
    }
}

/// Two events are counted the same in either order: the same message
/// counts and the same time buckets.
pub proof fn lemma_error_steps_commute(
    m: Map<Seq<char>, nat>,
    b: Seq<(i64, nat)>,
    l1: Option<Level>,
    msg1: Seq<char>,
    t1: Option<Timestamp>,
    l2: Option<Level>,
    msg2: Seq<char>,
    t2: Option<Timestamp>,
)
    ensures
        counts_step(counts_step(m, l1, msg1), l2, msg2) == counts_step(
            counts_step(m, l2, msg2),
            l1,
            msg1,
        ),
        buckets_step(buckets_step(b, l1, t1), l2, t2) == buckets_step(
            buckets_step(b, l2, t2),
            l1,
            t1,
        ),
{
    assert(counts_step(counts_step(m, l1, msg1), l2, msg2) =~= counts_step(
        counts_step(m, l2, msg2),
        l1,
        msg1,
    ));
    if let (Some(a), Some(c)) = (t1, t2) {
        lemma_bump_commutes(b, bucket_of(a).secs, bucket_of(c).secs);
    }
}

/// Message counts of a run of events.
pub open spec fn counts_run(evs: Seq<EventView>) -> Map<Seq<char>, nat>
    decreases evs.len(),
{
    if evs.len() == 0 {
        Map::empty()
    } else {
        counts_step(counts_run(evs.drop_last()), evs.last().level, evs.last().message)
    }
}

/// Error time buckets of a run of events.
pub open spec fn buckets_run(evs: Seq<EventView>) -> Seq<(i64, nat)>
    decreases evs.len(),
{
    if evs.len() == 0 {
        Seq::empty()
    } else {
        buckets_step(buckets_run(evs.drop_last()), evs.last().level, evs.last().timestamp)
    }
}

/// How many events of a run are errors (ERROR or FATAL).
pub open spec fn error_events(evs: Seq<EventView>) -> nat
    decreases evs.len(),
{
    if evs.len() == 0 {
        0
    } else {
        error_events(evs.drop_last()) + if is_error_level(evs.last().level) {
            1nat
        } else {
            0nat
        }
    }
}

/// How many errors of a run normalize to `m`.
pub open spec fn message_events(evs: Seq<EventView>, m: Seq<char>) -> nat
    decreases evs.len(),
{
    if evs.len() == 0 {
        0
    } else {
        message_events(evs.drop_last(), m) + if is_error_level(evs.last().level) && normalized(
            evs.last().message,
        ) == m {
            1nat
        } else {
            0nat
        }
    }
}

/// The timestamps of the errors of a run that have one, in order.
pub open spec fn error_times(evs: Seq<EventView>) -> Seq<Timestamp>
    decreases evs.len(),
{
    if evs.len() == 0 {
        Seq::empty()
    } else {
        let p = error_times(evs.drop_last());
        match evs.last().timestamp {
            Some(t) => if is_error_level(evs.last().level) {
                p.push(t)
            } else {
                p
            },
            None => p,
        }
    }
}

/// Over a run of events: each normalized message is counted as often as
/// errors with it occurred (and only those are counted), the counts add up
/// to the number of errors, every counted message is in normal form, and
/// the time buckets are those of a spike accumulator fed the timestamps of
/// the errors in order.
pub proof fn lemma_errors_run(evs: Seq<EventView>)
    ensures
        counts_run(evs).dom().finite(),
        forall|m: Seq<char>| #[trigger] counts_run(evs).contains_key(m) <==> message_events(evs, m) > 0,
        forall|m: Seq<char>| #[trigger] count_in(counts_run(evs), m) == message_events(evs, m),
        forall|m: Seq<char>| #[trigger] counts_run(evs).contains_key(m) ==> normalized(m) == m,
        total_of(counts_run(evs)) == error_events(evs),
        buckets_run(evs) == bucket_run(error_times(evs)),
    decreases evs.len(),
{
    if evs.len() == 0 {
        lemma_total_of_empty();
        return;
    }
    let p = evs.drop_last();
    let e = evs.last();
    lemma_errors_run(p);
    let m = counts_run(p);
    if is_error_level(e.level) {
        let k = normalized(e.message);
        lemma_total_of_insert(m, k);
        lemma_normalize_idempotent(e.message);
    }
    assert forall|q: Seq<char>| #[trigger] count_in(counts_run(evs), q) == message_events(evs, q) by {
        assert(count_in(m, q) == message_events(p, q));
    }
    assert forall|q: Seq<char>| #[trigger] counts_run(evs).contains_key(q) <==> message_events(evs, q) > 0 by {
        assert(m.contains_key(q) <==> message_events(p, q) > 0);
        assert(count_in(m, q) == message_events(p, q));
    }
    if let Some(t) = e.timestamp {
        if is_error_level(e.level) {
            assert(error_times(p).push(t).drop_last() =~= error_times(p));
        }
    }
}

/// The spikes of an error summary are those that a spike accumulator fed
/// the timestamps of the errors, in order, reports, whatever number of top
/// messages was asked for: for given events there is one list.
pub proof fn lemma_error_spikes_detected(
    evs: Seq<EventView>,
    summary: Seq<ErrorSpike>,
    detected: Seq<ErrorSpike>,
)
    requires
        spikes_of(bucket_run(error_times(evs)), summary),
        spikes_of(bucket_run(error_times(evs)), detected),
    ensures
        summary == detected,
{
    lemma_spikes_unique(bucket_run(error_times(evs)), summary, detected);
}

/// One more event is one more step: feeding an [`ErrorAccumulator`] a run
/// of events one by one gives the counts and buckets of the run.
pub proof fn lemma_errors_run_push(evs: Seq<EventView>, e: EventView)
    ensures
        counts_run(evs.push(e)) == counts_step(counts_run(evs), e.level, e.message),
        buckets_run(evs.push(e)) == buckets_step(buckets_run(evs), e.level, e.timestamp),
        error_events(evs.push(e)) == error_events(evs) + if is_error_level(e.level) {
            1nat
        } else {
            0nat
        },
{
    assert(evs.push(e).drop_last() =~= evs);
}

impl ErrorAccumulator {
    pub closed spec fn wf(&self) -> bool {
        &&& self.counts.wf()
        &&& self.spikes.wf()
        &&& forall|k: Seq<char>| #[trigger] self.counts@.contains_key(k) ==> self.counts@[k] <= self.total
        &&& errors_in(self.spikes@) <= self.total
        &&& self.counts@.dom().finite()
        &&& total_of(self.counts@) == self.total
        &&& forall|k: Seq<char>| #[trigger] self.counts@.contains_key(k) ==> normalized(k) == k
        &&& self.counts@ == counts_run(self.events@)
        &&& self.total == error_events(self.events@)
        &&& self.spikes@ == buckets_run(self.events@)
    }

    /// The events observed so far, in order.
    pub closed spec fn events(&self) -> Seq<EventView> {
        self.events@
    }

    /// Normalized message → number of errors with it.
    pub closed spec fn counts(&self) -> Map<Seq<char>, nat> {
        self.counts@
    }

    /// Number of errors observed.
    pub closed spec fn total(&self) -> nat {
        self.total as nat
    }

    /// The time buckets of the errors that had a timestamp.
    pub closed spec fn buckets(&self) -> Seq<(i64, nat)> {
        self.spikes@
    }

    pub fn new() -> (r: ErrorAccumulator)
        ensures
            r.wf(),
            r.counts() == Map::<Seq<char>, nat>::empty(),
            r.total() == 0,
            r.buckets() == Seq::<(i64, nat)>::empty(),
            r.events() == Seq::<EventView>::empty(),
    {
        proof {
            lemma_total_of_empty();
        }
        ErrorAccumulator {
            counts: Tally::new(),
            total: 0,
            spikes: SpikeAccumulator::new(),
            events: Ghost(Seq::empty()),
        }
    }

    /// Observe one event. Only ERROR and FATAL are recorded: the count of
    /// its normalized message and the total go up by one, and its time
    /// bucket, when it has a timestamp, holds one more error.
    pub fn observe(&mut self, event: &LogEvent)
        requires
            old(self).wf(),
            old(self).total() < u64::MAX,
            event_wf(event),
        ensures
            final(self).wf(),
            final(self).counts() == counts_step(old(self).counts(), event.level, event.message@),
            final(self).total() == old(self).total() + (if is_error_level(event.level) {
                1nat
            } else {
                0nat
            }),
            final(self).buckets() == buckets_step(old(self).buckets(), event.level, event.timestamp),
            final(self).events() == old(self).events().push(event@),
    {
        let ghost prev = self.events@;
        proof {
            self.events@ = prev.push(event@);
            lemma_errors_run_push(prev, event@);
        }
        let is_error = match event.level {
            Some(Level::Error) | Some(Level::Fatal) => true,
            _ => false,
        };
        if !is_error {
            return;
        }
        let normalized_msg = normalize(event.message.as_str());
        let key = chars_of(normalized_msg.as_str());
        let ghost k = key@;
        proof {
            if self.counts@.contains_key(k) {
                assert(self.counts@[k] <= self.total);
            }
            lemma_total_of_insert(self.counts@, k);
        }
        self.counts.add(key);
        self.total = self.total + 1;
        match event.timestamp {
            Some(ts) => {
                proof {
                    lemma_bump_errors(self.spikes@, bucket_of(ts).secs);
                    assert forall|i: int|
                        0 <= i < self.spikes@.len() && #[trigger] self.spikes@[i].0 == bucket_of(ts).secs
                        implies self.spikes@[i].1 < u64::MAX by {
                        lemma_count_le_errors(self.spikes@, i);
                    }
                }
                self.spikes.observe(ts);
            },
            None => {},
        }
        assert forall|k2: Seq<char>| #[trigger] self.counts@.contains_key(k2) implies self.counts@[k2] <= self.total
            && normalized(k2) == k2 by {
            if k2 != k {
                assert(old(self).counts@.contains_key(k2));
            } else {
                lemma_normalize_idempotent(event.message@);
            }
        }
    }

    /// Every error is counted once, under its normalized message: the
    /// counts add up to the total. The time buckets hold no more errors
    /// than were counted.
    pub proof fn lemma_counts_add_up(&self)
        requires
            self.wf(),
        ensures
            total_of(self.counts()) == self.total(),
            errors_in(self.buckets()) <= self.total(),
    {
    }

    /// Spikes can be computed: every spike bucket ends within chrono's
    /// range.
    pub fn spikes_computable(&self) -> (r: bool)
        requires
            self.wf(),
        ensures
            r == (forall|j: int|
                0 <= j < self.buckets().len() && is_spike(self.buckets(), #[trigger] self.buckets()[j].1)
                    ==> self.buckets()[j].0 + BUCKET_SECS <= MAX_TIMESTAMP),
    {
        let r = self.spikes.spike_ends_in_range();
        assert(self.buckets() == self.spikes@);
        r
    }

    /// Consume the accumulator and produce the final ErrorSummary.
    /// `top_n` limits how many distinct messages are kept.
    pub fn finish(self, top_n: usize) -> (r: ErrorSummary)
        requires
            self.wf(),
            forall|j: int|
                0 <= j < self.buckets().len() && is_spike(self.buckets(), #[trigger] self.buckets()[j].1)
                    ==> self.buckets()[j].0 + BUCKET_SECS <= MAX_TIMESTAMP,
        ensures
            r.total == self.total(),
            is_top(self.counts(), top_n as nat, error_counts_view(r.top@)),
            r.top@.len() == (if top_n < self.counts().dom().len() {
                top_n as nat
            } else {
                self.counts().dom().len()
            }),
            counts_sum(error_counts_view(r.top@)) <= r.total,
            self.counts().dom().len() <= top_n ==> counts_sum(error_counts_view(r.top@)) == r.total,
            forall|i: int| 0 <= i < r.top@.len() ==> normalized(#[trigger] r.top@[i].message@)
                == r.top@[i].message@,
            spikes_of(self.buckets(), r.spikes@),
            forall|i: int, j: int|
                0 <= i < j < r.spikes@.len() ==> #[trigger] r.spikes@[i].bucket_start
                    != #[trigger] r.spikes@[j].bucket_start,
            r.total == error_events(self.events()),
            is_top(counts_run(self.events()), top_n as nat, error_counts_view(r.top@)),
            forall|i: int|
                0 <= i < r.top@.len() ==> (#[trigger] r.top@[i]).count == message_events(
                    self.events(),
                    r.top@[i].message@,
                ),
            spikes_of(bucket_run(error_times(self.events())), r.spikes@),
    {
        proof {
            lemma_errors_run(self.events@);
        }
        let ghost counts = self.counts@;
        let ranked = self.counts.into_top(top_n);
        let mut top: Vec<ErrorCount> = Vec::new();
        let mut i: usize = 0;
        while i < ranked.len()
            invariant
                i <= ranked@.len(),
                top@.len() == i,
                forall|j: int| 0 <= j < i ==> (#[trigger] top@[j]).message@ == ranked@[j].0@ && top@[j].count == ranked@[j].1,
            decreases ranked@.len() - i,
        {
            top.push(ErrorCount { message: string_of(ranked[i].0.as_slice()), count: ranked[i].1 });
            i = i + 1;
        }
        assert(error_counts_view(top@) =~= ranked@.map_values(|e: Entry| entry_view(e)));
        proof {
            lemma_top_size(counts, top_n as nat, error_counts_view(top@));
        }
        assert forall|i: int| 0 <= i < top@.len() implies normalized(#[trigger] top@[i].message@)
            == top@[i].message@ by {
            assert(error_counts_view(top@)[i].0 == top@[i].message@);
            assert(counts.contains_key(error_counts_view(top@)[i].0));
        }
        assert forall|i: int| 0 <= i < top@.len() implies (#[trigger] top@[i]).count == message_events(
            self.events@,
            top@[i].message@,
        ) by {
            let e = error_counts_view(top@)[i];
            assert(e == (top@[i].message@, top@[i].count as nat));
            assert(counts.contains_key(e.0) && counts[e.0] == e.1);
            assert(count_in(counts_run(self.events@), e.0) == message_events(self.events@, e.0));
        }
        assert(self.buckets() == self.spikes@);
        let spikes = self.spikes.finish();
        ErrorSummary { total: self.total, top, spikes }
    }
}

} // verus!
