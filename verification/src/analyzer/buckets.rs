//! Error time buckets held in a `BTreeMap` from bucket start (seconds) to
//! the number of errors in it, and the listing of such a map in increasing
//! order of start, which is what the spike computation reads.

use vstd::prelude::*;
use std::collections::BTreeMap;
use crate::analyzer::spikes::bump;
use vstd::std_specs::btree::increasing_seq;
use vstd::std_specs::cmp::OrdSpec;
use vstd::std_specs::iter::IteratorSpec;

verus! {

broadcast use vstd::std_specs::btree::group_btree_axioms, vstd::laws_cmp::group_laws_cmp;

/// `s` lists the map `m`: its entries, each once, in increasing order of
/// bucket start.
pub open spec fn lists(s: Seq<(i64, nat)>, m: Map<i64, u64>) -> bool {
    &&& forall|i: int, j: int| 0 <= i < j < s.len() ==> #[trigger] s[i].0 < #[trigger] s[j].0
    &&& forall|i: int| 0 <= i < s.len() ==> m.contains_key(#[trigger] s[i].0) && m[s[i].0] == s[i].1
    &&& forall|k: i64| #[trigger] m.contains_key(k) ==> exists|i: int| 0 <= i < s.len() && #[trigger] s[i].0 == k
}

/// Bucket starts and counts as plain values.
pub open spec fn nat_counts(v: Seq<(i64, u64)>) -> Seq<(i64, nat)> {
    v.map_values(|b: (i64, u64)| (b.0, b.1 as nat))
}

/// Errors in the bucket that starts at `k`.
pub open spec fn count_at(m: Map<i64, u64>, k: i64) -> nat {
    if m.contains_key(k) {
        m[k] as nat
    } else {
        0
    }
}

/// A map has one listing.
pub proof fn lemma_lists_unique(s1: Seq<(i64, nat)>, s2: Seq<(i64, nat)>, m: Map<i64, u64>)
    requires
        lists(s1, m),
        lists(s2, m),
    ensures
        s1 == s2,
{
    assert forall|i: int| 0 <= i < s1.len() && i < s2.len() implies s1[i] == s2[i] by {
        lemma_lists_prefix(s1, s2, m, i);
    }
    lemma_lists_not_shorter(s1, s2, m);
    lemma_lists_not_shorter(s2, s1, m);
    assert(s1 =~= s2);
}

proof fn lemma_lists_not_shorter(s1: Seq<(i64, nat)>, s2: Seq<(i64, nat)>, m: Map<i64, u64>)
    requires
        lists(s1, m),
        lists(s2, m),
        forall|i: int| 0 <= i < s1.len() && i < s2.len() ==> s1[i] == s2[i],
    ensures
        s1.len() >= s2.len(),
{
    if s1.len() < s2.len() {
        let i = s1.len() as int;
        assert(m.contains_key(s2[i].0));
        let j = choose|j: int| 0 <= j < s1.len() && #[trigger] s1[j].0 == s2[i].0;
        assert(s2[j] == s1[j]);
        assert(s2[j].0 < s2[i].0);
    }
}

proof fn lemma_lists_prefix(s1: Seq<(i64, nat)>, s2: Seq<(i64, nat)>, m: Map<i64, u64>, i: int)
    requires
        lists(s1, m),
        lists(s2, m),
        0 <= i < s1.len(),
        i < s2.len(),
    ensures
        s1[i] == s2[i],
    decreases i,
{
    assert forall|k: int| 0 <= k < i implies s1[k] == s2[k] by {
        lemma_lists_prefix(s1, s2, m, k);
    }
    lemma_lists_before(s1, s2, m, i);
    lemma_lists_before(s2, s1, m, i);
    assert(m.contains_key(s1[i].0) && m[s1[i].0] == s1[i].1);
    assert(m.contains_key(s2[i].0) && m[s2[i].0] == s2[i].1);
}

/// With equal prefixes, the next start of one listing is not below that of
/// the other.
proof fn lemma_lists_before(s1: Seq<(i64, nat)>, s2: Seq<(i64, nat)>, m: Map<i64, u64>, i: int)
    requires
        lists(s1, m),
        lists(s2, m),
        0 <= i < s1.len(),
        i < s2.len(),
        forall|k: int| 0 <= k < i ==> s1[k] == s2[k],
    ensures
        s1[i].0 <= s2[i].0,
{
    assert(m.contains_key(s2[i].0));
    let j = choose|j: int| 0 <= j < s1.len() && #[trigger] s1[j].0 == s2[i].0;
    if j < i {
        assert(s2[j] == s1[j]);
        assert(s2[j].0 < s2[i].0);
    } else if j > i {
        assert(s1[i].0 < s1[j].0);
    }
}

/// Counting one more error in bucket `k` of a map counts it in its listing.
pub proof fn lemma_lists_bump(s: Seq<(i64, nat)>, m: Map<i64, u64>, k: i64)
    requires
        lists(s, m),
        count_at(m, k) < u64::MAX,
    ensures
        lists(bump(s, k), m.insert(k, (count_at(m, k) + 1) as u64)),
    decreases s.len(),
{
    let m2 = m.insert(k, (count_at(m, k) + 1) as u64);
    let b = bump(s, k);
    if s.len() == 0 {
        assert(!m.contains_key(k));
        assert(b =~= seq![(k, 1nat)]);
        assert forall|q: i64| #[trigger] m2.contains_key(q) implies exists|i: int| 0 <= i < b.len() && #[trigger] b[i].0 == q by {
            assert(b[0].0 == q);
        }
        return;
    }
    let x = s[0];
    let t = s.drop_first();
    if x.0 == k {
        assert(b =~= seq![(k, x.1 + 1)] + t);
        assert forall|i: int| 0 <= i < b.len() implies m2.contains_key(#[trigger] b[i].0) && m2[b[i].0] == b[i].1 by {
            if i > 0 {
                assert(b[i] == s[i]);
                assert(s[0].0 < s[i].0);
            }
        }
        assert forall|i: int, j: int| 0 <= i < j < b.len() implies #[trigger] b[i].0 < #[trigger] b[j].0 by {
            assert(b[j] == s[j]);
            if i > 0 {
                assert(b[i] == s[i]);
            }
        }
        assert forall|q: i64| #[trigger] m2.contains_key(q) implies exists|i: int| 0 <= i < b.len() && #[trigger] b[i].0 == q by {
            if q == k {
                assert(b[0].0 == q);
            } else {
                let i = choose|i: int| 0 <= i < s.len() && #[trigger] s[i].0 == q;
                assert(b[i] == s[i]);
            }
        }
    } else if k < x.0 {
        assert(b =~= seq![(k, 1nat)] + s);
        if m.contains_key(k) {
            let i = choose|i: int| 0 <= i < s.len() && #[trigger] s[i].0 == k;
            if i > 0 {
                assert(s[0].0 < s[i].0);
            }
        }
        assert forall|i: int| 0 <= i < b.len() implies m2.contains_key(#[trigger] b[i].0) && m2[b[i].0] == b[i].1 by {
            if i > 0 {
                assert(b[i] == s[i - 1]);
                if i > 1 {
                    assert(s[0].0 < s[i - 1].0);
                }
            }
        }
        assert forall|i: int, j: int| 0 <= i < j < b.len() implies #[trigger] b[i].0 < #[trigger] b[j].0 by {
            assert(b[j] == s[j - 1]);
            if i > 0 {
                assert(b[i] == s[i - 1]);
            } else if j > 1 {
                assert(s[0].0 < s[j - 1].0);
            }
        }
        assert forall|q: i64| #[trigger] m2.contains_key(q) implies exists|i: int| 0 <= i < b.len() && #[trigger] b[i].0 == q by {
            if q == k {
                assert(b[0].0 == q);
            } else {
                let i = choose|i: int| 0 <= i < s.len() && #[trigger] s[i].0 == q;
                assert(b[i + 1] == s[i]);
            }
        }
    } else {
        // The first bucket stays; the error is counted further on.
        let mt = m.remove(x.0);
        assert(lists(t, mt)) by {
            assert forall|i: int, j: int| 0 <= i < j < t.len() implies #[trigger] t[i].0 < #[trigger] t[j].0 by {
                assert(t[i] == s[i + 1] && t[j] == s[j + 1]);
            }
            assert forall|i: int| 0 <= i < t.len() implies mt.contains_key(#[trigger] t[i].0) && mt[t[i].0] == t[i].1 by {
                assert(t[i] == s[i + 1]);
                assert(s[0].0 < s[i + 1].0);
            }
            assert forall|q: i64| #[trigger] mt.contains_key(q) implies exists|i: int| 0 <= i < t.len() && #[trigger] t[i].0 == q by {
                let i = choose|i: int| 0 <= i < s.len() && #[trigger] s[i].0 == q;
                assert(i > 0);
                assert(t[i - 1] == s[i]);
            }
        }
        assert(count_at(mt, k) == count_at(m, k));
        lemma_lists_bump(t, mt, k);
        let bt = bump(t, k);
        let mt2 = mt.insert(k, (count_at(m, k) + 1) as u64);
        assert(b =~= seq![x] + bt);
        assert forall|i: int| 0 <= i < bt.len() implies x.0 < #[trigger] bt[i].0 by {
            assert(mt2.contains_key(bt[i].0));
            if bt[i].0 != k {
                let j = choose|j: int| 0 <= j < t.len() && #[trigger] t[j].0 == bt[i].0;
                assert(t[j] == s[j + 1]);
            }
        }
        assert forall|i: int| 0 <= i < b.len() implies m2.contains_key(#[trigger] b[i].0) && m2[b[i].0] == b[i].1 by {
            if i > 0 {
                assert(b[i] == bt[i - 1]);
                assert(x.0 < bt[i - 1].0);
            }
        }
        assert forall|i: int, j: int| 0 <= i < j < b.len() implies #[trigger] b[i].0 < #[trigger] b[j].0 by {
            assert(b[j] == bt[j - 1]);
            if i > 0 {
                assert(b[i] == bt[i - 1]);
            }
        }
        assert forall|q: i64| #[trigger] m2.contains_key(q) implies exists|i: int| 0 <= i < b.len() && #[trigger] b[i].0 == q by {
            if q == x.0 {
                assert(b[0].0 == q);
            } else {
                assert(mt2.contains_key(q));
                let i = choose|i: int| 0 <= i < bt.len() && #[trigger] bt[i].0 == q;
                assert(b[i + 1] == bt[i]);
            }
        }
    }
}

/// No buckets.
pub fn new_buckets() -> (m: BTreeMap<i64, u64>)
    ensures
        m@ == Map::<i64, u64>::empty(),
{
    BTreeMap::new()
}

/// Errors counted in the bucket that starts at `k`.
pub fn bucket_count(m: &BTreeMap<i64, u64>, k: i64) -> (r: u64)
    ensures
        r == count_at(m@, k),
{
    match m.get(&k) {
        Some(c) => *c,
        None => 0,
    }
}

/// Sets the count of the bucket that starts at `k`.
pub fn set_bucket(m: &mut BTreeMap<i64, u64>, k: i64, c: u64)
    ensures
        final(m)@ == old(m)@.insert(k, c),
{
    m.insert(k, c);
}

/// The entries of `m` in increasing order of bucket start.
pub fn listing(m: &BTreeMap<i64, u64>) -> (v: Vec<(i64, u64)>)
    ensures
        lists(nat_counts(v@), m@),
{
    assert(vstd::laws_cmp::obeys_cmp::<i64>());
    let iter = m.iter();
    let ghost items = IteratorSpec::remaining(&iter);
    let ghost keys = items.map_values(|kv: (&i64, &u64)| *kv.0);
    assert(increasing_seq(keys));
    let mut v: Vec<(i64, u64)> = Vec::new();
    for kv in it: iter
        invariant
            it.seq() == items,
            v@.len() == it.index(),
            forall|i: int| 0 <= i < v@.len() ==> v@[i] == (*items[i].0, *items[i].1),
    {
        v.push((*kv.0, *kv.1));
    }
    let ghost s = nat_counts(v@);
    assert(v@.len() == items.len());
    assert forall|i: int, j: int| 0 <= i < j < s.len() implies #[trigger] s[i].0 < #[trigger] s[j].0 by {
        assert(keys[i].cmp_spec(&keys[j]) is Less);
    }
    assert forall|i: int| 0 <= i < s.len() implies m@.contains_key(#[trigger] s[i].0) && m@[s[i].0] == s[i].1 by {
        assert(m@.contains_key(*items[i].0) && m@[*items[i].0] == *items[i].1);
    }
    assert forall|q: i64| #[trigger] m@.contains_key(q) implies exists|i: int| 0 <= i < s.len() && #[trigger] s[i].0 == q by {
        assert(items.contains((&q, &m@[q])));
        let i = choose|i: int| 0 <= i < items.len() && items[i] == (&q, &m@[q]);
        assert(s[i].0 == q);
    }
    v
}

} // verus!
