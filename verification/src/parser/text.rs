//! Plain-text log lines: `[timestamp] [LEVEL] message`.
//!
//! The timestamp is looked for in the first 19 bytes of the trimmed line,
//! read as `YYYY-MM-DD HH:MM:SS` (a `T` may stand for the space) by
//! `chrono`, and may be followed by `Z`; a line whose first 19 bytes do not
//! end on a character boundary has no timestamp. The level is the next word when it
//! names a level and looks like one (upper case, or `info`/`warn` in any
//! case). The rest, trimmed, is the message.

use vstd::prelude::*;
use crate::model::{parse_level, Level, LogEvent};
use crate::text::{
    byte_len, chars_equal, chars_of, copy_range, eq_ignore_case, find_ws, first_ws, is_upper, is_ws,
    lemma_byte_len_prefix, lemma_first_ws_bounds, lemma_trim_part, lemma_trim_start_suffix, skip_ws, string_of, trim, trim_end_index, trim_start, trimmed, upper,
    upper_chars, width_of,
};
use crate::time::{chrono_parse_utc, parse_utc, Timestamp};

verus! {

/// Number of bytes of the trimmed line that may hold the timestamp.
pub const TIMESTAMP_BYTES: usize = 19;

/// The format handed to chrono.
pub open spec fn timestamp_format() -> Seq<char> {
    seq!['%', 'Y', '-', '%', 'm', '-', '%', 'd', ' ', '%', 'H', ':', '%', 'M', ':', '%', 'S']
}

/// Some prefix of `t` is exactly `TIMESTAMP_BYTES` bytes long.
pub open spec fn has_cut(t: Seq<char>) -> bool {
    exists|k: int| 0 <= k <= t.len() && byte_len(#[trigger] t.take(k)) == TIMESTAMP_BYTES
}

/// The number of characters in the first `TIMESTAMP_BYTES` bytes of `t`.
pub open spec fn cut(t: Seq<char>) -> int {
    choose|k: int| 0 <= k <= t.len() && byte_len(#[trigger] t.take(k)) == TIMESTAMP_BYTES
}

/// `str::replace('T', " ")`.
pub open spec fn t_as_space(s: Seq<char>) -> Seq<char> {
    s.map_values(|c: char| if c == 'T' { ' ' } else { c })
}

/// The text handed to chrono for a trimmed line that is long enough.
pub open spec fn candidate(t: Seq<char>) -> Seq<char> {
    t_as_space(t.take(cut(t)))
}

/// Splits the timestamp off a trimmed line, given what chrono made of the
/// candidate text. A line whose first `TIMESTAMP_BYTES` bytes do not end
/// on a character boundary (or that is shorter) has no timestamp.
pub open spec fn split_timestamp(t: Seq<char>, parsed: Option<Timestamp>) -> (
    Option<Timestamp>,
    Seq<char>,
) {
    if has_cut(t) {
        match parsed {
            Some(ts) => {
                let tail = t.skip(cut(t));
                (
                    Some(ts),
                    if tail.len() > 0 && tail[0] == 'Z' {
                        tail.drop_first()
                    } else {
                        tail
                    },
                )
            },
            None => (None, t),
        }
    } else {
        (None, t)
    }
}

/// A word that looks like a level: all ASCII upper case, or `info` or
/// `warn` in any case.
pub open spec fn looks_like_level(token: Seq<char>) -> bool {
    ||| forall|i: int| 0 <= i < token.len() ==> is_upper(#[trigger] token[i])
    ||| eq_ignore_case(token, seq!['i', 'n', 'f', 'o'])
    ||| eq_ignore_case(token, seq!['w', 'a', 'r', 'n'])
}

/// Splits a leading level word off `s`.
pub open spec fn split_level(s: Seq<char>) -> (Option<Level>, Seq<char>) {
    let tr = trim_start(s);
    let end = first_ws(tr);
    if end == 0 {
        (None, s)
    } else {
        let token = tr.take(end as int);
        match parse_level(token) {
            Some(l) => if looks_like_level(token) {
                (Some(l), tr.skip(end as int))
            } else {
                (None, s)
            },
            None => (None, s),
        }
    }
}

/// Timestamp, level and message of a line, given what chrono made of the
/// timestamp candidate.
pub open spec fn fields_with(line: Seq<char>, parsed: Option<Timestamp>) -> (
    Option<Timestamp>,
    Option<Level>,
    Seq<char>,
) {
    let (ts, rest) = split_timestamp(trim(line), parsed);
    let (level, rest2) = split_level(rest);
    (ts, level, trim(rest2))
}

/// What chrono makes of the timestamp candidate of a trimmed line.
pub open spec fn chrono_candidate(t: Seq<char>) -> Option<Timestamp> {
    match chrono_parse_utc(candidate(t), timestamp_format()) {
        Some((secs, nanos)) => Some(Timestamp { secs, nanos }),
        None => None,
    }
}

/// What chrono makes of the timestamp candidate of a line.
pub open spec fn chrono_timestamp(line: Seq<char>) -> Option<Timestamp> {
    chrono_candidate(trim(line))
}

/// Timestamp, level and message of a line.
pub open spec fn fields(line: Seq<char>) -> (Option<Timestamp>, Option<Level>, Seq<char>) {
    fields_with(line, chrono_timestamp(line))
}

/// `e` holds the given fields and no HTTP details.
pub open spec fn event_has(e: LogEvent, f: (Option<Timestamp>, Option<Level>, Seq<char>)) -> bool {
    &&& e.timestamp == f.0
    &&& e.level == f.1
    &&& e.message@ == f.2
    &&& e.http is None
}

/// `e` is the event of `line`.
pub open spec fn event_of(e: LogEvent, line: Seq<char>) -> bool {
    event_has(e, fields(line))
}

proof fn lemma_timestamp_rest_suffix(t: Seq<char>, parsed: Option<Timestamp>) -> (k: int)
    ensures
        0 <= k <= t.len(),
        split_timestamp(t, parsed).1 == t.skip(k),
{
    if has_cut(t) && parsed is Some {
        let c = cut(t);
        let tail = t.skip(c);
        if tail.len() > 0 && tail[0] == 'Z' {
            assert(tail.drop_first() =~= t.skip(c + 1));
            c + 1
        } else {
            c
        }
    } else {
        assert(t.skip(0) =~= t);
        0
    }
}

proof fn lemma_level_rest_suffix(rest: Seq<char>) -> (k: int)
    ensures
        0 <= k <= rest.len(),
        split_level(rest).1 == rest.skip(k),
{
    let a = lemma_trim_start_suffix(rest);
    let tr = trim_start(rest);
    lemma_first_ws_bounds(tr);
    let end = first_ws(tr) as int;
    if split_level(rest).1 == rest {
        assert(rest.skip(0) =~= rest);
        0
    } else {
        assert(split_level(rest).1 == tr.skip(end));
        assert(tr.skip(end) =~= rest.skip(a + end));
        a + end
    }
}

/// The message of a line is trimmed, and it is a contiguous part of the
/// line, whatever chrono made of the timestamp candidate.
pub proof fn lemma_message_shape(line: Seq<char>, parsed: Option<Timestamp>)
    ensures
        trim(fields_with(line, parsed).2) == fields_with(line, parsed).2,
        exists|i: int, j: int|
            0 <= i <= j <= line.len() && #[trigger] line.subrange(i, j) == fields_with(line, parsed).2,
{
    let (a0, b0) = lemma_trim_part(line);
    let t = trim(line);
    let k1 = lemma_timestamp_rest_suffix(t, parsed);
    let rest = split_timestamp(t, parsed).1;
    assert(rest =~= line.subrange(a0 + k1, b0));
    let k2 = lemma_level_rest_suffix(rest);
    let rest2 = split_level(rest).1;
    assert(rest2 =~= line.subrange(a0 + k1 + k2, b0));
    let (a2, b2) = lemma_trim_part(rest2);
    let m = trim(rest2);
    assert(fields_with(line, parsed).2 == m);
    assert(m =~= line.subrange(a0 + k1 + k2 + a2, a0 + k1 + k2 + b2));
}

proof fn lemma_first_ws_word(w: Seq<char>, rest: Seq<char>)
    requires
        forall|i: int| 0 <= i < w.len() ==> !is_ws(#[trigger] w[i]),
        rest.len() > 0 ==> is_ws(rest[0]),
    ensures
        first_ws(w + rest) == w.len(),
    decreases w.len(),
{
    if w.len() == 0 {
        assert(w + rest =~= rest);
    } else {
        let w2 = w.drop_first();
        assert forall|i: int| 0 <= i < w2.len() implies !is_ws(#[trigger] w2[i]) by {
            assert(w2[i] == w[i + 1]);
        }
        lemma_first_ws_word(w2, rest);
        assert((w + rest).drop_first() =~= w2 + rest);
        assert((w + rest)[0] == w[0]);
    }
}

/// A word of upper-case ASCII letters that names a level is read as that
/// level, whatever its length (`ERR` as well as `ERROR`), and the rest of
/// the text after it is left.
pub proof fn lemma_upper_word_is_level(w: Seq<char>, rest: Seq<char>, l: Level)
    requires
        w.len() > 0,
        forall|i: int| 0 <= i < w.len() ==> 'A' <= #[trigger] w[i] <= 'Z',
        rest.len() > 0 ==> is_ws(rest[0]),
        parse_level(w) == Some(l),
    ensures
        split_level(w + rest) == (Some(l), rest),
{
    let s = w + rest;
    assert forall|i: int| 0 <= i < w.len() implies !is_ws(#[trigger] w[i]) by {
        assert('A' <= w[i] <= 'Z');
    }
    assert(s[0] == w[0]);
    assert(!is_ws(s[0]));
    assert(trim_start(s) == s);
    lemma_first_ws_word(w, rest);
    assert(s.take(w.len() as int) =~= w);
    assert(s.skip(w.len() as int) =~= rest);
    assert(looks_like_level(w));
}

/// A line with neither a timestamp nor a level word keeps its whole
/// trimmed text as the message.
pub proof fn lemma_plain_line_message(line: Seq<char>, parsed: Option<Timestamp>)
    ensures
        fields_with(line, parsed).0 is None && fields_with(line, parsed).1 is None
            ==> fields_with(line, parsed).2 == trim(line),
{
    lemma_trim_part(line);
}

/// The timestamp is read from the first 19 bytes of the trimmed line
/// alone: there is none unless those bytes end on a character boundary,
/// and two lines whose first 19 bytes agree get the same timestamp.
pub proof fn lemma_timestamp_from_prefix(l1: Seq<char>, l2: Seq<char>)
    ensures
        fields(l1).0 is Some ==> has_cut(trim(l1)) && byte_len(trim(l1).take(cut(trim(l1))))
            == TIMESTAMP_BYTES,
        has_cut(trim(l1)) && has_cut(trim(l2)) && trim(l1).take(cut(trim(l1))) == trim(l2).take(
            cut(trim(l2)),
        ) ==> fields(l1).0 == fields(l2).0,
{
}

proof fn lemma_cut_unique(t: Seq<char>, k: int)
    requires
        0 <= k <= t.len(),
        byte_len(t.take(k)) == TIMESTAMP_BYTES,
    ensures
        has_cut(t),
        cut(t) == k,
{
    assert(byte_len(t.take(k)) == TIMESTAMP_BYTES);
    let c = cut(t);
    if c < k {
        lemma_byte_len_prefix(t, c, k);
    } else if k < c {
        lemma_byte_len_prefix(t, k, c);
    }
}

/// Where the first `TIMESTAMP_BYTES` bytes of `t` end, as a character
/// index; `None` when `t` is shorter or a character straddles that byte.
fn find_cut(t: &[char]) -> (r: Option<usize>)
    ensures
        r is None <==> !has_cut(t@),
        r matches Some(k) ==> k == cut(t@),
{
    let mut i: usize = 0;
    let mut b: usize = 0;
    while i < t.len() && b < TIMESTAMP_BYTES
        invariant
            i <= t.len(),
            b == byte_len(t@.take(i as int)),
            b < TIMESTAMP_BYTES + 4,
            i > 0 ==> byte_len(t@.take(i - 1)) < TIMESTAMP_BYTES,
        decreases t.len() - i,
    {
        assert(t@.take(i + 1).drop_last() == t@.take(i as int));
        b = b + width_of(t[i]);
        i = i + 1;
    }
    if b < TIMESTAMP_BYTES {
        assert(t@.take(i as int) == t@);
        proof {
            if has_cut(t@) {
                let k = choose|k: int| 0 <= k <= t@.len() && byte_len(#[trigger] t@.take(k)) == TIMESTAMP_BYTES;
                lemma_byte_len_prefix(t@, k, t@.len() as int);
            }
        }
        return None;
    }
    proof {
        assert(t@.take(t@.len() as int) == t@);
        lemma_byte_len_prefix(t@, i as int, t@.len() as int);
    }
    if b == TIMESTAMP_BYTES {
        proof {
            lemma_cut_unique(t@, i as int);
        }
        Some(i)
    } else {
        proof {
            if has_cut(t@) {
                let k = choose|k: int| 0 <= k <= t@.len() && byte_len(#[trigger] t@.take(k)) == TIMESTAMP_BYTES;
                if k < i {
                    lemma_byte_len_prefix(t@, k, i - 1);
                } else {
                    lemma_byte_len_prefix(t@, i as int, k);
                }
            }
        }
        None
    }
}

/// The first `k` characters of `t`, each `T` replaced by a space.
fn candidate_text(t: &[char], k: usize) -> (r: String)
    requires
        k <= t.len(),
    ensures
        r@ == t_as_space(t@.take(k as int)),
{
    let mut v: Vec<char> = Vec::new();
    let mut i: usize = 0;
    while i < k
        invariant
            i <= k <= t.len(),
            v@ == t_as_space(t@.take(i as int)),
        decreases k - i,
    {
        let c = t[i];
        v.push(if c == 'T' { ' ' } else { c });
        assert(t_as_space(t@.take(i + 1)) =~= t_as_space(t@.take(i as int)).push(
            if c == 'T' { ' ' } else { c },
        ));
        i = i + 1;
    }
    string_of(v.as_slice())
}

/// `true` when `token` looks like a level word.
fn token_looks_like_level(token: &[char]) -> (r: bool)
    ensures
        r == looks_like_level(token@),
{
    let mut all_upper = true;
    let mut i: usize = 0;
    while i < token.len()
        invariant
            i <= token.len(),
            all_upper == forall|j: int| 0 <= j < i ==> is_upper(#[trigger] token@[j]),
        decreases token.len() - i,
    {
        if !('A' <= token[i] && token[i] <= 'Z') {
            all_upper = false;
        }
        i = i + 1;
    }
    if all_upper {
        return true;
    }
    let u = upper_chars(token);
    proof {
        assert(upper(seq!['i', 'n', 'f', 'o']) =~= seq!['I', 'N', 'F', 'O']);
        assert(upper(seq!['w', 'a', 'r', 'n']) =~= seq!['W', 'A', 'R', 'N']);
    }
    chars_equal(u.as_slice(), &['I', 'N', 'F', 'O']) || chars_equal(u.as_slice(), &['W', 'A', 'R', 'N'])
}

/// Splits a leading level word off `s[from..]`: the level and the index
/// where the rest begins (`from` itself when there is no level word).
pub fn strip_level(s: &[char], from: usize) -> (r: (Option<Level>, usize))
    requires
        from <= s.len(),
    ensures
        r.1 <= s.len(),
        split_level(s@.skip(from as int)) == (r.0, s@.skip(r.1 as int)),
{
    let ghost rest = s@.skip(from as int);
    let a = skip_ws(s, from);
    let end = find_ws(s, a);
    assert(trim_start(rest) == s@.skip(a as int));
    if end == a {
        return (None, from);
    }
    let token = copy_range(s, a, end);
    assert(token@ == s@.skip(a as int).take(end - a));
    let level = Level::parse(string_of(token.as_slice()).as_str());
    match level {
        Some(l) => {
            if token_looks_like_level(token.as_slice()) {
                assert(s@.skip(a as int).skip(end - a) == s@.skip(end as int));
                (Some(l), end)
            } else {
                (None, from)
            }
        },
        None => (None, from),
    }
}

/// Splits the timestamp off a trimmed line `t`, given what chrono made of
/// its candidate text: the timestamp and the index where the rest begins.
pub fn strip_timestamp_with(t: &[char], parsed: Option<Timestamp>) -> (r: (Option<Timestamp>, usize))
    ensures
        r.1 <= t.len(),
        split_timestamp(t@, parsed) == (r.0, t@.skip(r.1 as int)),
{
    assert(t@.skip(0) == t@);
    match find_cut(t) {
        Some(k) => match parsed {
            Some(ts) => {
                if k < t.len() && t[k] == 'Z' {
                    assert(t@.skip(k as int).drop_first() == t@.skip(k + 1));
                    (Some(ts), k + 1)
                } else {
                    (Some(ts), k)
                }
            },
            None => (None, 0),
        },
        None => (None, 0),
    }
}

/// Splits a leading timestamp off a trimmed line `t`: its first 19 bytes,
/// each `T` read as a space, parsed by chrono as `%Y-%m-%d %H:%M:%S`, and a
/// `Z` right after them dropped. Returns the timestamp and the index where
/// the rest begins.
pub fn strip_timestamp(t: &[char]) -> (r: (Option<Timestamp>, usize))
    ensures
        r.1 <= t.len(),
        split_timestamp(t@, chrono_candidate(t@)) == (r.0, t@.skip(r.1 as int)),
        r.0 matches Some(ts) ==> ts.valid(),
{
    let parsed = match find_cut(t) {
        Some(k) => {
            let text = candidate_text(t, k);
            let fmt = "%Y-%m-%d %H:%M:%S";
            proof {
                reveal_strlit("%Y-%m-%d %H:%M:%S");
                assert(fmt@ =~= timestamp_format());
            }
            parse_utc(text.as_str(), fmt)
        },
        None => None,
    };
    proof {
        if has_cut(t@) {
            assert(split_timestamp(t@, parsed) == split_timestamp(t@, chrono_candidate(t@)));
        }
    }
    strip_timestamp_with(t, parsed)
}

/// The event of a trimmed line `t` whose timestamp was split off, the rest
/// beginning at `from`: the level word, if any, and the trimmed message.
fn event_after_timestamp(t: &[char], timestamp: Option<Timestamp>, from: usize) -> (e: LogEvent)
    requires
        from <= t.len(),
    ensures
        ({
            let (level, rest) = split_level(t@.skip(from as int));
            event_has(e, (timestamp, level, trim(rest)))
        }),
{
    let (level, rest_at) = strip_level(t, from);
    assert(t@.skip(rest_at as int) == t@.subrange(rest_at as int, t@.len() as int));
    let a = skip_ws(t, rest_at);
    assert(t@.skip(a as int) == t@.subrange(a as int, t@.len() as int));
    let b = trim_end_index(t, a, t.len());
    let message = copy_range(t, a, b);
    LogEvent { timestamp, level, message: string_of(message.as_slice()), http: None }
}

/// Parses a line, given what chrono made of its timestamp candidate (the
/// first 19 bytes of the trimmed line, `T` read as a space): the rest of
/// the parsing, for every outcome of chrono.
pub fn parse_with_timestamp(line: &str, parsed: Option<Timestamp>) -> (e: LogEvent)
    ensures
        event_has(e, fields_with(line@, parsed)),
{
    let v = chars_of(line);
    let t = trimmed(v.as_slice());
    let (timestamp, from) = strip_timestamp_with(t.as_slice(), parsed);
    event_after_timestamp(t.as_slice(), timestamp, from)
}

/// Parses a log line into an event.
pub fn parse(line: &str) -> (e: LogEvent)
    ensures
        event_of(e, line@),
        e.timestamp matches Some(t) ==> t.valid(),
{
    let v = chars_of(line);
    let t = trimmed(v.as_slice());
    let (timestamp, from) = strip_timestamp(t.as_slice());
    event_after_timestamp(t.as_slice(), timestamp, from)
}

} // verus!
