//! Specification helpers for sequences of key/value pairs with unique keys.
//! The store keeps its registries as such sequences so that insertion order is
//! part of the model; these functions give them a map-like reading.

use vstd::prelude::*;

verus! {

/// True when some pair in `s` carries the key `k`.
pub open spec fn assoc_has<K, W>(s: Seq<(K, W)>, k: K) -> bool {
    exists|i: int| 0 <= i < s.len() && (#[trigger] s[i]).0 == k
}

/// The index of the pair carrying `k`; meaningful when `assoc_has(s, k)` holds.
pub open spec fn assoc_idx<K, W>(s: Seq<(K, W)>, k: K) -> int {
    choose|i: int| 0 <= i < s.len() && (#[trigger] s[i]).0 == k
}

/// The value stored under `k`, if any.
pub open spec fn assoc_get<K, W>(s: Seq<(K, W)>, k: K) -> Option<W> {
    if assoc_has(s, k) {
        Some(s[assoc_idx(s, k)].1)
    } else {
        None
    }
}

/// No two pairs of `s` carry the same key.
pub open spec fn assoc_unique<K, W>(s: Seq<(K, W)>) -> bool {
    forall|i: int, j: int|
        0 <= i < j < s.len() ==> (#[trigger] s[i]).0 != (#[trigger] s[j]).0
}

/// `s` with the pair carrying `k` taken out, if one is there.
pub open spec fn assoc_remove<K, W>(s: Seq<(K, W)>, k: K) -> Seq<(K, W)> {
    if assoc_has(s, k) {
        s.remove(assoc_idx(s, k))
    } else {
        s
    }
}

/// A pair found at index `i` is the one `assoc_get` reads, keys being unique.
pub proof fn lemma_assoc_at<K, W>(s: Seq<(K, W)>, k: K, i: int)
    requires
        assoc_unique(s),
        0 <= i < s.len(),
        s[i].0 == k,
    ensures
        assoc_has(s, k),
        assoc_idx(s, k) == i,
        assoc_get(s, k) == Some(s[i].1),
{
    assert(assoc_has(s, k));
    let j = assoc_idx(s, k);
    assert(0 <= j < s.len() && s[j].0 == k);
    if j < i {
        assert(s[j].0 != s[i].0);
    } else if i < j {
        assert(s[i].0 != s[j].0);
    }
}

/// A key missing from every pair is absent from the map reading.
pub proof fn lemma_assoc_none<K, W>(s: Seq<(K, W)>, k: K)
    requires
        forall|i: int| 0 <= i < s.len() ==> (#[trigger] s[i]).0 != k,
    ensures
        assoc_get(s, k) == None::<W>,
{
    assert(!assoc_has(s, k));
}

/// Appending a fresh key binds it and leaves every other key as it was.
pub proof fn lemma_assoc_push<K, W>(s: Seq<(K, W)>, k: K, w: W)
    requires
        assoc_unique(s),
        !assoc_has(s, k),
    ensures
        assoc_unique(s.push((k, w))),
        assoc_get(s.push((k, w)), k) == Some(w),
        forall|k2: K| k2 != k ==> assoc_get(s.push((k, w)), k2) == assoc_get(s, k2),
{
    let s2 = s.push((k, w));
    assert forall|i: int, j: int| 0 <= i < j < s2.len() implies (#[trigger] s2[i]).0 != (
    #[trigger] s2[j]).0 by {
        if j < s.len() {
            assert(s2[i] == s[i] && s2[j] == s[j]);
        } else {
            assert(s2[j] == (k, w));
            assert(s2[i] == s[i]);
            assert(s[i].0 != k) by {
                if s[i].0 == k {
                    assert(assoc_has(s, k));
                }
            }
        }
    }
    lemma_assoc_at(s2, k, s.len() as int);
    assert forall|k2: K| k2 != k implies assoc_get(s2, k2) == assoc_get(s, k2) by {
        if assoc_has(s, k2) {
            let i = assoc_idx(s, k2);
            assert(s2[i] == s[i]);
            lemma_assoc_at(s2, k2, i);
        } else {
            assert forall|i: int| 0 <= i < s2.len() implies (#[trigger] s2[i]).0 != k2 by {
                if i < s.len() {
                    assert(s2[i] == s[i]);
                    assert(!(0 <= i < s.len() && s[i].0 == k2));
                } else {
                    assert(s2[i] == (k, w));
                }
            }
            lemma_assoc_none(s2, k2);
        }
    }
}

/// Replacing the value at an occupied index rebinds that key alone.
pub proof fn lemma_assoc_update<K, W>(s: Seq<(K, W)>, i: int, w: W)
    requires
        assoc_unique(s),
        0 <= i < s.len(),
    ensures
        assoc_unique(s.update(i, (s[i].0, w))),
        assoc_get(s.update(i, (s[i].0, w)), s[i].0) == Some(w),
        forall|k2: K|
            k2 != s[i].0 ==> assoc_get(s.update(i, (s[i].0, w)), k2) == assoc_get(s, k2),
{
    let k = s[i].0;
    let s2 = s.update(i, (k, w));
    assert(s2.len() == s.len());
    assert forall|a: int, b: int| 0 <= a < b < s2.len() implies (#[trigger] s2[a]).0 != (
    #[trigger] s2[b]).0 by {
        assert(s2[a].0 == s[a].0);
        assert(s2[b].0 == s[b].0);
    }
    lemma_assoc_at(s2, k, i);
    assert forall|k2: K| k2 != k implies assoc_get(s2, k2) == assoc_get(s, k2) by {
        if assoc_has(s, k2) {
            let j = assoc_idx(s, k2);
            assert(j != i);
            assert(s2[j] == s[j]);
            lemma_assoc_at(s2, k2, j);
        } else {
            assert forall|a: int| 0 <= a < s2.len() implies (#[trigger] s2[a]).0 != k2 by {
                assert(s2[a].0 == s[a].0);
                assert(!(0 <= a < s.len() && s[a].0 == k2));
            }
            lemma_assoc_none(s2, k2);
        }
    }
}

/// Taking out the pair at index `i` unbinds its key and touches no other.
pub proof fn lemma_assoc_remove_at<K, W>(s: Seq<(K, W)>, i: int)
    requires
        assoc_unique(s),
        0 <= i < s.len(),
    ensures
        assoc_unique(s.remove(i)),
        assoc_get(s.remove(i), s[i].0) == None::<W>,
        forall|k2: K| k2 != s[i].0 ==> assoc_get(s.remove(i), k2) == assoc_get(s, k2),
        assoc_remove(s, s[i].0) == s.remove(i),
{
    let k = s[i].0;
    let s2 = s.remove(i);
    assert(s2.len() == s.len() - 1);
    assert forall|a: int, b: int| 0 <= a < b < s2.len() implies (#[trigger] s2[a]).0 != (
    #[trigger] s2[b]).0 by {
        let a0 = if a < i { a } else { a + 1 };
        let b0 = if b < i { b } else { b + 1 };
        assert(s2[a] == s[a0]);
        assert(s2[b] == s[b0]);
        assert(0 <= a0 < b0 < s.len());
    }
    assert forall|a: int| 0 <= a < s2.len() implies (#[trigger] s2[a]).0 != k by {
        let a0 = if a < i { a } else { a + 1 };
        assert(s2[a] == s[a0]);
        assert(a0 != i);
        if a0 < i {
            assert(s[a0].0 != s[i].0);
        } else {
            assert(s[i].0 != s[a0].0);
        }
    }
    lemma_assoc_none(s2, k);
    assert forall|k2: K| k2 != k implies assoc_get(s2, k2) == assoc_get(s, k2) by {
        if assoc_has(s, k2) {
            let j = assoc_idx(s, k2);
            assert(j != i);
            let j2 = if j < i { j } else { j - 1 };
            assert(s2[j2] == s[j]);
            lemma_assoc_at(s2, k2, j2);
        } else {
            assert forall|a: int| 0 <= a < s2.len() implies (#[trigger] s2[a]).0 != k2 by {
                let a0 = if a < i { a } else { a + 1 };
                assert(s2[a] == s[a0]);
                assert(!(0 <= a0 < s.len() && s[a0].0 == k2));
            }
            lemma_assoc_none(s2, k2);
        }
    }
    lemma_assoc_at(s, k, i);
}

} // verus!
