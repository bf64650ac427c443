//! Counting distinct texts, and ranking them: most frequent first, ties in
//! the order of the texts.

use vstd::prelude::*;
use crate::text::{
    chars_equal, chars_less, lemma_lex_asymmetric, lemma_lex_irreflexive, lemma_lex_total,
    lemma_lex_transitive, lex_lt,
};

verus! {

/// A text and how often it was seen.
pub type Entry = (Vec<char>, u64);

/// The plain value of an [`Entry`].
pub open spec fn entry_view(e: Entry) -> (Seq<char>, nat) {
    (e.0@, e.1 as nat)
}

/// `a` ranks before `b`: seen more often, or as often and smaller as text.
pub open spec fn ranks_before(a: (Seq<char>, nat), b: (Seq<char>, nat)) -> bool {
    a.1 > b.1 || (a.1 == b.1 && lex_lt(a.0, b.0))
}

pub proof fn lemma_ranks_before_order(a: (Seq<char>, nat), b: (Seq<char>, nat), c: (Seq<char>, nat))
    ensures
        !ranks_before(a, a),
        !(ranks_before(a, b) && ranks_before(b, a)),
        a.0 != b.0 ==> ranks_before(a, b) || ranks_before(b, a),
        ranks_before(a, b) && ranks_before(b, c) ==> ranks_before(a, c),
{
    lemma_lex_irreflexive(a.0);
    lemma_lex_asymmetric(a.0, b.0);
    lemma_lex_total(a.0, b.0);
    if ranks_before(a, b) && ranks_before(b, c) && a.1 == b.1 && b.1 == c.1 {
        lemma_lex_transitive(a.0, b.0, c.0);
    }
}

/// How often `k` was counted in `m`.
pub open spec fn count_in(m: Map<Seq<char>, nat>, k: Seq<char>) -> nat {
    if m.contains_key(k) {
        m[k]
    } else {
        0
    }
}

/// The sum of all counts in `m`.
pub open spec fn total_of(m: Map<Seq<char>, nat>) -> nat {
    m.dom().fold(0nat, |acc: nat, k: Seq<char>| acc + m[k])
}

proof fn lemma_fold_agree(r: Set<Seq<char>>, m1: Map<Seq<char>, nat>, m2: Map<Seq<char>, nat>)
    requires
        r.finite(),
        forall|x: Seq<char>| #[trigger] r.contains(x) ==> m1[x] == m2[x],
    ensures
        r.fold(0nat, |acc: nat, k: Seq<char>| acc + m1[k]) == r.fold(
            0nat,
            |acc: nat, k: Seq<char>| acc + m2[k],
        ),
    decreases r.len(),
{
    let f1 = |acc: nat, k: Seq<char>| acc + m1[k];
    let f2 = |acc: nat, k: Seq<char>| acc + m2[k];
    assert(vstd::set::fold::is_fun_commutative(f1));
    assert(vstd::set::fold::is_fun_commutative(f2));
    if r.len() == 0 {
        assert(r =~= Set::empty());
        vstd::set::fold::lemma_fold_empty(0nat, f1);
        vstd::set::fold::lemma_fold_empty(0nat, f2);
    } else {
        let a = r.choose();
        assert(r.contains(a));
        let rest = r.remove(a);
        assert(rest.insert(a) =~= r);
        lemma_fold_agree(rest, m1, m2);
        vstd::set::fold::lemma_fold_insert(rest, 0nat, f1, a);
        vstd::set::fold::lemma_fold_insert(rest, 0nat, f2, a);
    }
}

/// Counting `k` once more adds one to the sum of all counts.
pub proof fn lemma_total_of_insert(m: Map<Seq<char>, nat>, k: Seq<char>)
    requires
        m.dom().finite(),
    ensures
        total_of(m.insert(k, count_in(m, k) + 1)) == total_of(m) + 1,
{
    let m2 = m.insert(k, count_in(m, k) + 1);
    let f1 = |acc: nat, x: Seq<char>| acc + m[x];
    let f2 = |acc: nat, x: Seq<char>| acc + m2[x];
    assert(vstd::set::fold::is_fun_commutative(f1));
    assert(vstd::set::fold::is_fun_commutative(f2));
    let rest = m.dom().remove(k);
    assert(m2.dom() =~= rest.insert(k));
    lemma_fold_agree(rest, m, m2);
    vstd::set::fold::lemma_fold_insert(rest, 0nat, f2, k);
    if m.contains_key(k) {
        assert(m.dom() =~= rest.insert(k));
        vstd::set::fold::lemma_fold_insert(rest, 0nat, f1, k);
    } else {
        assert(m.dom() =~= rest);
    }
}

/// Nothing counted sums to zero.
pub proof fn lemma_total_of_empty()
    ensures
        total_of(Map::<Seq<char>, nat>::empty()) == 0,
{
    let f = |acc: nat, x: Seq<char>| acc + Map::<Seq<char>, nat>::empty()[x];
    assert(Map::<Seq<char>, nat>::empty().dom() =~= Set::empty());
    vstd::set::fold::lemma_fold_empty(0nat, f);
}

/// Counting drops out of the sum one text at a time.
proof fn lemma_total_of_remove(m: Map<Seq<char>, nat>, k: Seq<char>)
    requires
        m.dom().finite(),
        m.contains_key(k),
    ensures
        total_of(m) == m[k] + total_of(m.remove(k)),
{
    let m2 = m.remove(k);
    let f1 = |acc: nat, x: Seq<char>| acc + m[x];
    let f2 = |acc: nat, x: Seq<char>| acc + m2[x];
    assert(vstd::set::fold::is_fun_commutative(f1));
    assert(vstd::set::fold::is_fun_commutative(f2));
    let rest = m.dom().remove(k);
    assert(m2.dom() =~= rest);
    assert(m.dom() =~= rest.insert(k));
    lemma_fold_agree(rest, m2, m);
    vstd::set::fold::lemma_fold_insert(rest, 0nat, f1, k);
}

/// The sum of the counts of a list of entries.
pub open spec fn counts_sum(r: Seq<(Seq<char>, nat)>) -> nat
    decreases r.len(),
{
    if r.len() == 0 {
        0
    } else {
        r[0].1 + counts_sum(r.drop_first())
    }
}

/// Every text counted in `m` is in the list `r`.
pub open spec fn covers(m: Map<Seq<char>, nat>, r: Seq<(Seq<char>, nat)>) -> bool {
    forall|k: Seq<char>| #[trigger] m.contains_key(k) ==> exists|i: int| 0 <= i < r.len() && #[trigger] r[i].0 == k
}

proof fn lemma_list_within(m: Map<Seq<char>, nat>, r: Seq<(Seq<char>, nat)>)
    requires
        m.dom().finite(),
        forall|i: int| 0 <= i < r.len() ==> m.contains_key(#[trigger] r[i].0) && m[r[i].0] == r[i].1,
        forall|i: int, j: int| 0 <= i < r.len() && 0 <= j < r.len() && i != j ==> #[trigger] r[i].0 != #[trigger] r[j].0,
    ensures
        counts_sum(r) <= total_of(m),
        r.len() <= m.dom().len(),
        covers(m, r) ==> counts_sum(r) == total_of(m) && r.len() == m.dom().len(),
        !covers(m, r) ==> r.len() < m.dom().len(),
    decreases r.len(),
{
    if r.len() == 0 {
        if covers(m, r) {
            assert(m.dom() =~= Set::empty());
            assert(m =~= Map::<Seq<char>, nat>::empty());
            lemma_total_of_empty();
        } else {
            let q = choose|q: Seq<char>| m.contains_key(q) && !(exists|i: int| 0 <= i < r.len() && #[trigger] r[i].0 == q);
            assert(m.dom().contains(q));
        }
        return;
    }
    let k = r[0].0;
    let m2 = m.remove(k);
    let r2 = r.drop_first();
    lemma_total_of_remove(m, k);
    assert(m2.dom() =~= m.dom().remove(k));
    assert forall|i: int| 0 <= i < r2.len() implies m2.contains_key(#[trigger] r2[i].0) && m2[r2[i].0] == r2[i].1 by {
        assert(r2[i] == r[i + 1]);
        assert(r[i + 1].0 != r[0].0);
    }
    assert forall|i: int, j: int| 0 <= i < r2.len() && 0 <= j < r2.len() && i != j implies #[trigger] r2[i].0
        != #[trigger] r2[j].0 by {
        assert(r2[i] == r[i + 1] && r2[j] == r[j + 1]);
    }
    lemma_list_within(m2, r2);
    if covers(m, r) {
        assert forall|q: Seq<char>| #[trigger] m2.contains_key(q) implies exists|i: int| 0 <= i < r2.len() && #[trigger] r2[i].0 == q by {
            let i = choose|i: int| 0 <= i < r.len() && #[trigger] r[i].0 == q;
            assert(i != 0);
            assert(r2[i - 1] == r[i]);
        }
    } else {
        let q = choose|q: Seq<char>| m.contains_key(q) && !(exists|i: int| 0 <= i < r.len() && #[trigger] r[i].0 == q);
        assert(q != k);
        assert(m2.contains_key(q));
        if exists|i: int| 0 <= i < r2.len() && #[trigger] r2[i].0 == q {
            let i = choose|i: int| 0 <= i < r2.len() && #[trigger] r2[i].0 == q;
            assert(r[i + 1] == r2[i]);
        }
    }
}

/// The ranking keeps `min(n, number of texts)` entries; their counts add up
/// to at most the sum of all counts, and to exactly that sum when every
/// text fits (at most `n` texts).
pub proof fn lemma_top_size(m: Map<Seq<char>, nat>, n: nat, r: Seq<(Seq<char>, nat)>)
    requires
        m.dom().finite(),
        is_top(m, n, r),
    ensures
        r.len() == (if n < m.dom().len() { n } else { m.dom().len() }),
        counts_sum(r) <= total_of(m),
        m.dom().len() <= n ==> counts_sum(r) == total_of(m),
{
    assert forall|i: int, j: int| 0 <= i < r.len() && 0 <= j < r.len() && i != j implies #[trigger] r[i].0
        != #[trigger] r[j].0 by {
        lemma_top_keys_distinct(m, n, r, i, j);
    }
    lemma_list_within(m, r);
    if !covers(m, r) {
        let q = choose|q: Seq<char>| m.contains_key(q) && !(exists|i: int| 0 <= i < r.len() && #[trigger] r[i].0 == q);
        assert(r.len() == n);
    }
}

/// `r` is the ranking of the `n` first entries of `m`: entries of `m`,
/// strictly in rank order, and any entry of `m` left out ranks after all of
/// them, which can only be when `n` of them were kept.
pub open spec fn is_top(m: Map<Seq<char>, nat>, n: nat, r: Seq<(Seq<char>, nat)>) -> bool {
    &&& r.len() <= n
    &&& forall|i: int| 0 <= i < r.len() ==> m.contains_key(#[trigger] r[i].0) && m[r[i].0] == r[i].1
    &&& forall|i: int, j: int| 0 <= i < j < r.len() ==> ranks_before(#[trigger] r[i], #[trigger] r[j])
    &&& forall|k: Seq<char>|
        #![trigger m.contains_key(k)]
        m.contains_key(k) && !(exists|i: int| 0 <= i < r.len() && #[trigger] r[i].0 == k) ==> {
            &&& r.len() == n
            &&& forall|i: int| 0 <= i < r.len() ==> ranks_before(#[trigger] r[i], (k, m[k]))
        }
}

proof fn lemma_top_keys_distinct(m: Map<Seq<char>, nat>, n: nat, r: Seq<(Seq<char>, nat)>, i: int, j: int)
    requires
        is_top(m, n, r),
        0 <= i < r.len(),
        0 <= j < r.len(),
        i != j,
    ensures
        r[i].0 != r[j].0,
{
    if r[i].0 == r[j].0 {
        assert(m.contains_key(r[i].0) && m[r[i].0] == r[i].1);
        assert(m.contains_key(r[j].0) && m[r[j].0] == r[j].1);
        assert(r[i] == r[j]);
        if i < j {
            assert(ranks_before(r[i], r[j]));
        } else {
            assert(ranks_before(r[j], r[i]));
        }
        lemma_ranks_before_order(r[i], r[j], r[j]);
    }
}

/// The ranking is determined by the counts alone: whatever order the texts
/// were first seen in, there is one list of the `n` first entries.
pub proof fn lemma_top_unique(m: Map<Seq<char>, nat>, n: nat, r1: Seq<(Seq<char>, nat)>, r2: Seq<(Seq<char>, nat)>)
    requires
        is_top(m, n, r1),
        is_top(m, n, r2),
    ensures
        r1 == r2,
{
    assert forall|i: int| 0 <= i < r1.len() && i < r2.len() implies r1[i] == r2[i] by {
        lemma_top_prefix_equal(m, n, r1, r2, i);
    }
    lemma_top_shorter(m, n, r1, r2);
    lemma_top_shorter(m, n, r2, r1);
    assert(r1 =~= r2);
}

proof fn lemma_top_shorter(m: Map<Seq<char>, nat>, n: nat, r1: Seq<(Seq<char>, nat)>, r2: Seq<(Seq<char>, nat)>)
    requires
        is_top(m, n, r1),
        is_top(m, n, r2),
        forall|i: int| 0 <= i < r1.len() && i < r2.len() ==> r1[i] == r2[i],
    ensures
        r1.len() >= r2.len(),
{
    if r1.len() >= r2.len() {
        return;
    }
    let i = r1.len() as int;
    let b = r2[i];
    assert(m.contains_key(b.0));
    if exists|j: int| 0 <= j < r1.len() && #[trigger] r1[j].0 == b.0 {
        let j = choose|j: int| 0 <= j < r1.len() && #[trigger] r1[j].0 == b.0;
        assert(r2[j] == r1[j]);
        lemma_top_keys_distinct(m, n, r2, j, i);
    }
}

proof fn lemma_top_prefix_equal(
    m: Map<Seq<char>, nat>,
    n: nat,
    r1: Seq<(Seq<char>, nat)>,
    r2: Seq<(Seq<char>, nat)>,
    i: int,
)
    requires
        is_top(m, n, r1),
        is_top(m, n, r2),
        0 <= i < r1.len(),
        i < r2.len(),
    ensures
        r1[i] == r2[i],
    decreases i,
{
    assert forall|k: int| 0 <= k < i implies r1[k] == r2[k] by {
        lemma_top_prefix_equal(m, n, r1, r2, k);
    }
    let a = r1[i];
    let b = r2[i];
    if a.0 == b.0 {
        assert(m[a.0] == a.1 && m[b.0] == b.1);
        return;
    }
    // b ranks after a in r1's ranking, and a after b in r2's.
    lemma_after(m, n, r1, r2, i);
    lemma_after(m, n, r2, r1, i);
    lemma_ranks_before_order(a, b, a);
}

proof fn lemma_after(
    m: Map<Seq<char>, nat>,
    n: nat,
    r1: Seq<(Seq<char>, nat)>,
    r2: Seq<(Seq<char>, nat)>,
    i: int,
)
    requires
        is_top(m, n, r1),
        is_top(m, n, r2),
        0 <= i < r1.len(),
        i < r2.len(),
        forall|k: int| 0 <= k < i ==> r1[k] == r2[k],
        r1[i].0 != r2[i].0,
    ensures
        ranks_before(r1[i], r2[i]),
{
    let b = r2[i];
    assert(m.contains_key(b.0) && m[b.0] == b.1);
    if exists|j: int| 0 <= j < r1.len() && #[trigger] r1[j].0 == b.0 {
        let j = choose|j: int| 0 <= j < r1.len() && #[trigger] r1[j].0 == b.0;
        if j < i {
            assert(r2[j] == r1[j]);
            lemma_top_keys_distinct(m, n, r2, j, i);
        } else {
            assert(j != i);
            assert(m[r1[j].0] == r1[j].1);
            assert(r1[j] == b);
            assert(ranks_before(r1[i], r1[j]));
        }
    } else {
        assert(ranks_before(r1[i], (b.0, m[b.0])));
    }
}

/// Counts of distinct texts. `m` is what was counted: each text seen and
/// how often.
pub struct Tally {
    entries: Vec<Entry>,
    counts: Ghost<Map<Seq<char>, nat>>,
}

impl View for Tally {
    type V = Map<Seq<char>, nat>;

    closed spec fn view(&self) -> Map<Seq<char>, nat> {
        self.counts@
    }
}

/// The keys of `s` are pairwise distinct.
pub open spec fn distinct_keys(s: Seq<Entry>) -> bool {
    forall|i: int, j: int| 0 <= i < s.len() && 0 <= j < s.len() && i != j ==> #[trigger] s[i].0@ != #[trigger] s[j].0@
}

impl Tally {
    pub closed spec fn wf(&self) -> bool {
        &&& distinct_keys(self.entries@)
        &&& forall|i: int|
            0 <= i < self.entries@.len() ==> self.counts@.contains_key(#[trigger] self.entries@[i].0@)
                && self.counts@[self.entries@[i].0@] == self.entries@[i].1
        &&& forall|k: Seq<char>|
            #[trigger] self.counts@.contains_key(k) ==> exists|i: int|
                0 <= i < self.entries@.len() && #[trigger] self.entries@[i].0@ == k
    }

    /// Nothing counted yet.
    pub fn new() -> (t: Tally)
        ensures
            t.wf(),
            t@ == Map::<Seq<char>, nat>::empty(),
    {
        Tally { entries: Vec::new(), counts: Ghost(Map::empty()) }
    }

    /// Counts `key` once more.
    pub fn add(&mut self, key: Vec<char>)
        requires
            old(self).wf(),
            count_in(old(self)@, key@) < u64::MAX,
        ensures
            final(self).wf(),
            final(self)@ == old(self)@.insert(key@, count_in(old(self)@, key@) + 1),
    {
        let mut i: usize = 0;
        while i < self.entries.len()
            invariant
                self.wf(),
                self@ == old(self)@,
                self.entries@ == old(self).entries@,
                count_in(old(self)@, key@) < u64::MAX,
                i <= self.entries@.len(),
                forall|j: int| 0 <= j < i ==> #[trigger] self.entries@[j].0@ != key@,
            decreases self.entries@.len() - i,
        {
            if chars_equal(self.entries[i].0.as_slice(), key.as_slice()) {
                let n = self.entries[i].1;
                let k = self.entries[i].0.clone();
                assert(k@ == key@);
                self.entries.set(i, (k, n + 1));
                proof {
                    self.counts@ = self.counts@.insert(key@, (n + 1) as nat);
                    assert forall|a: int, b: int|
                        0 <= a < self.entries@.len() && 0 <= b < self.entries@.len() && a != b
                        implies #[trigger] self.entries@[a].0@ != #[trigger] self.entries@[b].0@ by {
                        assert(old(self).entries@[a].0@ == self.entries@[a].0@ || a == i);
                        assert(old(self).entries@[b].0@ == self.entries@[b].0@ || b == i);
                    }
                    assert forall|k2: Seq<char>| #[trigger] self.counts@.contains_key(k2) implies exists|j: int|
                        0 <= j < self.entries@.len() && #[trigger] self.entries@[j].0@ == k2 by {
                        let j = choose|j: int| 0 <= j < old(self).entries@.len() && #[trigger] old(self).entries@[j].0@ == k2;
                        assert(self.entries@[j].0@ == k2);
                    }
                }
                return;
            }
            i = i + 1;
        }
        proof {
            if old(self)@.contains_key(key@) {
                let j = choose|j: int| 0 <= j < old(self).entries@.len() && #[trigger] old(self).entries@[j].0@ == key@;
                assert(false);
            }
        }
        let ghost old_entries = self.entries@;
        self.entries.push((key, 1));
        proof {
            self.counts@ = self.counts@.insert(key@, 1);
            assert forall|k2: Seq<char>| #[trigger] self.counts@.contains_key(k2) implies exists|j: int|
                0 <= j < self.entries@.len() && #[trigger] self.entries@[j].0@ == k2 by {
                if k2 != key@ {
                    let j = choose|j: int| 0 <= j < old_entries.len() && #[trigger] old_entries[j].0@ == k2;
                    assert(self.entries@[j].0@ == k2);
                } else {
                    assert(self.entries@[old_entries.len() as int].0@ == k2);
                }
            }
        }
    }

    /// The `n` first entries in rank order (fewer when fewer were counted).
    pub fn into_top(self, n: usize) -> (r: Vec<Entry>)
        requires
            self.wf(),
        ensures
            is_top(self@, n as nat, r@.map_values(|e: Entry| entry_view(e))),
    {
        let ghost m = self@;
        let mut remaining = self.entries;
        let mut result: Vec<Entry> = Vec::new();
        while result.len() < n && remaining.len() > 0
            invariant
                result@.len() <= n,
                distinct_keys(remaining@),
                forall|i: int|
                    0 <= i < remaining@.len() ==> m.contains_key(#[trigger] remaining@[i].0@)
                        && m[remaining@[i].0@] == remaining@[i].1,
                forall|i: int|
                    0 <= i < result@.len() ==> m.contains_key(#[trigger] result@[i].0@)
                        && m[result@[i].0@] == result@[i].1,
                forall|i: int, j: int|
                    0 <= i < j < result@.len() ==> ranks_before(
                        entry_view(#[trigger] result@[i]),
                        entry_view(#[trigger] result@[j]),
                    ),
                forall|i: int, j: int|
                    0 <= i < result@.len() && 0 <= j < remaining@.len() ==> ranks_before(
                        entry_view(#[trigger] result@[i]),
                        entry_view(#[trigger] remaining@[j]),
                    ),
                forall|k: Seq<char>|
                    #[trigger] m.contains_key(k) ==> (exists|i: int|
                        0 <= i < result@.len() && #[trigger] result@[i].0@ == k) || (exists|j: int|
                        0 <= j < remaining@.len() && #[trigger] remaining@[j].0@ == k),
            decreases remaining@.len(),
        {
            let best = best_index(&remaining);
            let ghost before_remove = remaining@;
            let e = remaining.remove(best);
            proof {
                assert forall|j: int| 0 <= j < remaining@.len() implies ranks_before(
                    entry_view(e),
                    entry_view(#[trigger] remaining@[j]),
                ) by {
                    if j < best {
                        assert(remaining@[j] == before_remove[j]);
                    } else {
                        assert(remaining@[j] == before_remove[j + 1]);
                    }
                }
                assert forall|i: int, j: int|
                    0 <= i < remaining@.len() && 0 <= j < remaining@.len() && i != j
                    implies #[trigger] remaining@[i].0@ != #[trigger] remaining@[j].0@ by {
                    let i2 = if i < best { i } else { i + 1 };
                    let j2 = if j < best { j } else { j + 1 };
                    assert(remaining@[i] == before_remove[i2]);
                    assert(remaining@[j] == before_remove[j2]);
                }
            }
            let ghost before_push = result@;
            result.push(e);
            proof {
                assert forall|k: Seq<char>| #[trigger] m.contains_key(k) implies (exists|i: int|
                    0 <= i < result@.len() && #[trigger] result@[i].0@ == k) || (exists|j: int|
                    0 <= j < remaining@.len() && #[trigger] remaining@[j].0@ == k) by {
                    if exists|i: int| 0 <= i < before_push.len() && #[trigger] before_push[i].0@ == k {
                        let i = choose|i: int| 0 <= i < before_push.len() && #[trigger] before_push[i].0@ == k;
                        assert(result@[i] == before_push[i]);
                    } else {
                        let j = choose|j: int| 0 <= j < before_remove.len() && #[trigger] before_remove[j].0@ == k;
                        if j == best {
                            assert(result@[before_push.len() as int] == e);
                        } else if j < best {
                            assert(remaining@[j] == before_remove[j]);
                        } else {
                            assert(remaining@[j - 1] == before_remove[j]);
                        }
                    }
                }
                assert forall|i: int, j: int| 0 <= i < result@.len() && 0 <= j < remaining@.len()
                    implies ranks_before(entry_view(#[trigger] result@[i]), entry_view(#[trigger] remaining@[j])) by {
                    if i < before_push.len() {
                        let j2 = if j < best { j } else { j + 1 };
                        assert(remaining@[j] == before_remove[j2]);
                    }
                }
            }
        }
        let ghost rv = result@.map_values(|e: Entry| entry_view(e));
        proof {
            assert forall|i: int, j: int| 0 <= i < j < rv.len() implies ranks_before(
                #[trigger] rv[i],
                #[trigger] rv[j],
            ) by {
                assert(rv[i] == entry_view(result@[i]));
                assert(rv[j] == entry_view(result@[j]));
            }
            assert forall|i: int| 0 <= i < rv.len() implies m.contains_key(#[trigger] rv[i].0) && m[rv[i].0] == rv[i].1 by {
                assert(rv[i] == entry_view(result@[i]));
            }
            assert forall|k: Seq<char>|
                #![trigger m.contains_key(k)]
                m.contains_key(k) && !(exists|i: int| 0 <= i < rv.len() && #[trigger] rv[i].0 == k) implies {
                    &&& rv.len() == n
                    &&& forall|i: int| 0 <= i < rv.len() ==> ranks_before(#[trigger] rv[i], (k, m[k]))
                } by {
                if exists|i: int| 0 <= i < result@.len() && #[trigger] result@[i].0@ == k {
                    let i = choose|i: int| 0 <= i < result@.len() && #[trigger] result@[i].0@ == k;
                    assert(rv[i].0 == k);
                }
                let j = choose|j: int| 0 <= j < remaining@.len() && #[trigger] remaining@[j].0@ == k;
                assert forall|i: int| 0 <= i < rv.len() implies ranks_before(#[trigger] rv[i], (k, m[k])) by {
                    assert(rv[i] == entry_view(result@[i]));
                }
            }
        }
        result
    }
}

/// Index of the entry that ranks first.
fn best_index(s: &Vec<Entry>) -> (b: usize)
    requires
        s@.len() > 0,
        distinct_keys(s@),
    ensures
        b < s@.len(),
        forall|j: int| 0 <= j < s@.len() && j != b ==> ranks_before(entry_view(s@[b as int]), entry_view(#[trigger] s@[j])),
{
    let mut best: usize = 0;
    let mut j: usize = 1;
    while j < s.len()
        invariant
            s@.len() > 0,
            distinct_keys(s@),
            best < j <= s@.len(),
            forall|t: int| 0 <= t < j && t != best ==> ranks_before(entry_view(s@[best as int]), entry_view(#[trigger] s@[t])),
        decreases s@.len() - j,
    {
        let a = &s[j];
        let c = &s[best];
        let a_first = a.1 > c.1 || (a.1 == c.1 && chars_less(a.0.as_slice(), c.0.as_slice()));
        proof {
            lemma_ranks_before_order(entry_view(s@[j as int]), entry_view(s@[best as int]), entry_view(s@[best as int]));
        }
        if a_first {
            proof {
                assert forall|t: int| 0 <= t < j + 1 && t != j implies ranks_before(entry_view(s@[j as int]), entry_view(#[trigger] s@[t])) by {
                    lemma_ranks_before_order(entry_view(s@[j as int]), entry_view(s@[best as int]), entry_view(s@[t]));
                }
            }
            best = j;
        }
        j = j + 1;
    }
    best
}

} // verus!
