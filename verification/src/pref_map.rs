//! Ordered maps from preference numbers to values, kept as vectors sorted
//! strictly by key.  The ballot parser builds one for group (above-the-line)
//! and one for candidate (below-the-line) preferences.

use vstd::prelude::*;

verus! {

/// Strictly ascending keys.
pub open spec fn sorted_keys<T>(s: Seq<(u32, T)>) -> bool {
    forall|i: int, j: int|
        0 <= i < j < s.len() ==> (#[trigger] s[i]).0 < (#[trigger] s[j]).0
}

pub open spec fn has_key<T>(s: Seq<(u32, T)>, k: u32) -> bool {
    exists|i: int| 0 <= i < s.len() && (#[trigger] s[i]).0 == k
}

/// Insertion into a key-sorted sequence, replacing an equal key.
pub open spec fn spec_insert<T>(s: Seq<(u32, T)>, k: u32, v: T) -> Seq<(u32, T)>
    decreases s.len(),
{
    if s.len() == 0 {
        seq![(k, v)]
    } else if k < s[0].0 {
        seq![(k, v)] + s
    } else if k == s[0].0 {
        s.update(0, (k, v))
    } else {
        seq![s[0]] + spec_insert(s.drop_first(), k, v)
    }
}

/// An ordered map from preference numbers to `T`.
pub struct PrefMapOf<T> {
    pub entries: Vec<(u32, T)>,
}

impl<T> PrefMapOf<T> {
    pub open spec fn wf(self) -> bool {
        sorted_keys(self.entries@)
    }

    pub fn new() -> (m: PrefMapOf<T>)
        ensures
            m.wf(),
            m.entries@.len() == 0,
    {
        PrefMapOf { entries: Vec::new() }
    }

    pub fn len(&self) -> (n: usize)
        ensures
            n == self.entries@.len(),
    {
        self.entries.len()
    }

    /// Insert, replacing any entry with the same key; reports whether the
    /// key was already present.
    pub fn insert(&mut self, k: u32, v: T) -> (had: bool)
        requires
            old(self).wf(),
        ensures
            final(self).wf(),
            final(self).entries@ == spec_insert(old(self).entries@, k, v),
            had == has_key(old(self).entries@, k),
    {
        let mut i: usize = 0;
        while i < self.entries.len() && self.entries[i].0 < k
            invariant
                i <= self.entries@.len(),
                forall|j: int| 0 <= j < i ==> (#[trigger] self.entries@[j]).0 < k,
            decreases self.entries@.len() - i,
        {
            i = i + 1;
        }
        proof {
            lemma_spec_insert_at(self.entries@, k, v, i as int);
            if has_key(self.entries@, k) {
                let w = choose|w: int|
                    0 <= w < self.entries@.len() && (#[trigger] self.entries@[w]).0 == k;
                assert(w >= i);
                assert(i < self.entries@.len() && self.entries@[i as int].0 <= k);
            }
        }
        if i < self.entries.len() && self.entries[i].0 == k {
            self.entries.set(i, (k, v));
            proof {
                assert(self.entries@ =~= old(self).entries@.update(i as int, (k, v)));
                assert(self.entries@[i as int].0 == k);
            }
            true
        } else {
            self.entries.insert(i, (k, v));
            proof {
                let prev = old(self).entries@;
                assert(self.entries@ =~= prev.take(i as int) + seq![(k, v)] + prev.skip(
                    i as int,
                ));
                assert forall|a: int, b: int|
                    0 <= a < b < self.entries@.len() implies (#[trigger] self.entries@[a]).0
                    < (#[trigger] self.entries@[b]).0 by {
                    assert(forall|j: int|
                        i <= j < prev.len() ==> k < (#[trigger] prev[j]).0);
                }
            }
            false
        }
    }
}

/// `spec_insert` splits at the first position whose key is not below `k`.
proof fn lemma_spec_insert_at<T>(s: Seq<(u32, T)>, k: u32, v: T, i: int)
    requires
        sorted_keys(s),
        0 <= i <= s.len(),
        forall|j: int| 0 <= j < i ==> (#[trigger] s[j]).0 < k,
        i < s.len() ==> s[i].0 >= k,
    ensures
        i < s.len() && s[i].0 == k ==> spec_insert(s, k, v) == s.update(i, (k, v)),
        (i == s.len() || s[i].0 > k) ==> spec_insert(s, k, v) == s.take(i) + seq![(k, v)]
            + s.skip(i),
    decreases s.len(),
{
    if s.len() == 0 {
        assert(spec_insert(s, k, v) =~= s.take(0) + seq![(k, v)] + s.skip(0));
    } else if k < s[0].0 {
        assert(i == 0);
        assert(spec_insert(s, k, v) =~= s.take(0) + seq![(k, v)] + s.skip(0));
    } else if k == s[0].0 {
        assert(i == 0);
    } else {
        assert(i >= 1);
        lemma_spec_insert_at(s.drop_first(), k, v, i - 1);
        if i < s.len() && s[i].0 == k {
            assert(s.drop_first()[i - 1].0 == k);
            assert(spec_insert(s, k, v) =~= s.update(i, (k, v))) by {
                assert(spec_insert(s.drop_first(), k, v) == s.drop_first().update(
                    i - 1,
                    (k, v),
                ));
            }
        } else {
            assert(spec_insert(s, k, v) =~= s.take(i) + seq![(k, v)] + s.skip(i)) by {
                assert(spec_insert(s.drop_first(), k, v) == s.drop_first().take(i - 1) + seq![
                    (k, v),
                ] + s.drop_first().skip(i - 1));
                assert(s.drop_first().take(i - 1) =~= s.take(i).drop_first());
                assert(s.drop_first().skip(i - 1) =~= s.skip(i));
            }
        }
    }
}

/// Insertion keeps any upper bound on the stored group indices.
pub proof fn lemma_insert_values_bound(s: Seq<(u32, usize)>, k: u32, v: usize, bound: int)
    requires
        forall|i: int| 0 <= i < s.len() ==> (#[trigger] s[i]).1 < bound,
        v < bound,
    ensures
        forall|i: int|
            0 <= i < spec_insert(s, k, v).len() ==> (#[trigger] spec_insert(s, k, v)[i]).1
                < bound,
    decreases s.len(),
{
    if s.len() == 0 {
    } else if k < s[0].0 {
    } else if k == s[0].0 {
    } else {
        assert(forall|i: int|
            0 <= i < s.drop_first().len() ==> (#[trigger] s.drop_first()[i]).1 < bound);
        lemma_insert_values_bound(s.drop_first(), k, v, bound);
        let r = spec_insert(s, k, v);
        let rt = spec_insert(s.drop_first(), k, v);
        assert forall|i: int| 0 <= i < r.len() implies (#[trigger] r[i]).1 < bound by {
            if i > 0 {
                assert(r[i] == rt[i - 1]);
            }
        }
    }
}

/// Facts about insertion used by the repeat/gap laws: the new key is
/// present, other keys are untouched, and the length grows exactly when the
/// key was fresh.
pub proof fn lemma_spec_insert_facts<T>(s: Seq<(u32, T)>, k: u32, v: T)
    requires
        sorted_keys(s),
    ensures
        sorted_keys(spec_insert(s, k, v)),
        has_key(spec_insert(s, k, v), k),
        forall|k2: u32| k2 != k ==> has_key(spec_insert(s, k, v), k2) == has_key(s, k2),
        has_key(s, k) ==> spec_insert(s, k, v).len() == s.len(),
        !has_key(s, k) ==> spec_insert(s, k, v).len() == s.len() + 1,
    decreases s.len(),
{
    let r = spec_insert(s, k, v);
    if s.len() == 0 {
        assert(r[0].0 == k);
        assert forall|k2: u32| k2 != k implies has_key(r, k2) == has_key(s, k2) by {
            if has_key(r, k2) {
                let w = choose|w: int| 0 <= w < r.len() && (#[trigger] r[w]).0 == k2;
                assert(w == 0);
            }
        }
    } else if k < s[0].0 {
        assert(r == seq![(k, v)] + s);
        assert(r[0].0 == k);
        assert forall|a: int, b: int| 0 <= a < b < r.len() implies (#[trigger] r[a]).0
            < (#[trigger] r[b]).0 by {
            if a > 0 {
                assert(r[a] == s[a - 1]);
            }
            assert(r[b] == s[b - 1]);
            if a == 0 && b > 0 {
                assert(s[0].0 <= s[b - 1].0);
            }
        }
        assert forall|k2: u32| k2 != k implies has_key(r, k2) == has_key(s, k2) by {
            if has_key(r, k2) {
                let w = choose|w: int| 0 <= w < r.len() && (#[trigger] r[w]).0 == k2;
                assert(w > 0);
                assert(s[w - 1].0 == k2);
            }
            if has_key(s, k2) {
                let w = choose|w: int| 0 <= w < s.len() && (#[trigger] s[w]).0 == k2;
                assert(r[w + 1].0 == k2);
            }
        }
        if has_key(s, k) {
            let w = choose|w: int| 0 <= w < s.len() && (#[trigger] s[w]).0 == k;
        }
    } else if k == s[0].0 {
        assert(r == s.update(0, (k, v)));
        assert(r[0].0 == k);
        assert forall|k2: u32| k2 != k implies has_key(r, k2) == has_key(s, k2) by {
            if has_key(r, k2) {
                let w = choose|w: int| 0 <= w < r.len() && (#[trigger] r[w]).0 == k2;
                assert(s[w].0 == k2);
            }
            if has_key(s, k2) {
                let w = choose|w: int| 0 <= w < s.len() && (#[trigger] s[w]).0 == k2;
                assert(r[w].0 == k2);
            }
        }
        assert(has_key(s, k)) by {
            assert(s[0].0 == k);
        }
    } else {
        lemma_spec_insert_facts(s.drop_first(), k, v);
        let rt = spec_insert(s.drop_first(), k, v);
        assert(r == seq![s[0]] + rt);
        assert forall|a: int, b: int| 0 <= a < b < r.len() implies (#[trigger] r[a]).0
            < (#[trigger] r[b]).0 by {
            assert(r[b] == rt[b - 1]);
            if a > 0 {
                assert(r[a] == rt[a - 1]);
            } else {
                // every key of rt is either k or a key of s.drop_first()
                if rt[b - 1].0 != k {
                    assert(has_key(rt, rt[b - 1].0)) by {
                        assert((#[trigger] rt[b - 1]).0 == rt[b - 1].0);
                    }
                    assert(has_key(s.drop_first(), rt[b - 1].0));
                    let w = choose|w: int|
                        0 <= w < s.drop_first().len() && (#[trigger] s.drop_first()[w]).0
                            == rt[b - 1].0;
                    assert(s[w + 1].0 == rt[b - 1].0);
                    assert(s[0].0 < s[w + 1].0);
                }
            }
        }
        assert(has_key(r, k)) by {
            let w = choose|w: int| 0 <= w < rt.len() && (#[trigger] rt[w]).0 == k;
            assert(r[w + 1].0 == k);
        }
        assert forall|k2: u32| k2 != k implies has_key(r, k2) == has_key(s, k2) by {
            if has_key(r, k2) {
                let w = choose|w: int| 0 <= w < r.len() && (#[trigger] r[w]).0 == k2;
                if w == 0 {
                    assert(s[0].0 == k2);
                } else {
                    assert(rt[w - 1].0 == k2);
                    assert(has_key(rt, k2));
                    assert(has_key(s.drop_first(), k2));
                    let u = choose|u: int|
                        0 <= u < s.drop_first().len() && (#[trigger] s.drop_first()[u]).0 == k2;
                    assert(s[u + 1].0 == k2);
                }
            }
            if has_key(s, k2) {
                let w = choose|w: int| 0 <= w < s.len() && (#[trigger] s[w]).0 == k2;
                if w == 0 {
                    assert(r[0].0 == k2);
                } else {
                    assert(s.drop_first()[w - 1].0 == k2);
                    assert(has_key(s.drop_first(), k2));
                    assert(has_key(rt, k2));
                    let u = choose|u: int| 0 <= u < rt.len() && (#[trigger] rt[u]).0 == k2;
                    assert(r[u + 1].0 == k2);
                }
            }
        }
        assert(has_key(s, k) == has_key(s.drop_first(), k)) by {
            if has_key(s, k) {
                let w = choose|w: int| 0 <= w < s.len() && (#[trigger] s[w]).0 == k;
                assert(w > 0);
                assert(s.drop_first()[w - 1].0 == k);
            }
            if has_key(s.drop_first(), k) {
                let w = choose|w: int|
                    0 <= w < s.drop_first().len() && (#[trigger] s.drop_first()[w]).0 == k;
                assert(s[w + 1].0 == k);
            }
        }
    }
}

} // verus!
