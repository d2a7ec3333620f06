//! Specification-level association sequences.
//!
//! The stores in this crate keep their entries in vectors of key/value
//! pairs with pairwise-distinct keys.  This module defines lookup over such
//! a sequence and proves how lookup interacts with appending, updating and
//! removing entries.

use vstd::prelude::*;

verus! {

/// No key occurs twice in the sequence.
pub open spec fn unique_keys<K, V>(s: Seq<(K, V)>) -> bool {
    forall|i: int, j: int|
        0 <= i < j < s.len() ==> (#[trigger] s[i]).0 != (#[trigger] s[j]).0
}

/// The value associated with `k`, scanning from the front.
pub open spec fn find<K, V>(s: Seq<(K, V)>, k: K) -> Option<V>
    decreases s.len(),
{
    if s.len() == 0 {
        None
    } else if s[0].0 == k {
        Some(s[0].1)
    } else {
        find(s.drop_first(), k)
    }
}

/// Dropping the first entry keeps the keys pairwise distinct.
pub proof fn lemma_unique_drop_first<K, V>(s: Seq<(K, V)>)
    requires
        s.len() > 0,
        unique_keys(s),
    ensures
        unique_keys(s.drop_first()),
{
    assert forall|i: int, j: int| 0 <= i < j < s.drop_first().len() implies (#[trigger] s.drop_first()[i]).0 != (#[trigger] s.drop_first()[j]).0 by {
        assert(s.drop_first()[i] == s[i + 1]);
        assert(s.drop_first()[j] == s[j + 1]);
    }
}

/// A key that no entry carries is not found.
pub proof fn lemma_find_absent<K, V>(s: Seq<(K, V)>, k: K)
    requires
        forall|j: int| 0 <= j < s.len() ==> (#[trigger] s[j]).0 != k,
    ensures
        find(s, k) is None,
    decreases s.len(),
{
    if s.len() > 0 {
        assert forall|j: int| 0 <= j < s.drop_first().len() implies (#[trigger] s.drop_first()[j]).0 != k by {
            assert(s.drop_first()[j] == s[j + 1]);
        }
        lemma_find_absent(s.drop_first(), k);
    }
}

/// A key that is not found is carried by no entry.
pub proof fn lemma_absent_find<K, V>(s: Seq<(K, V)>, k: K)
    requires
        find(s, k) is None,
    ensures
        forall|j: int| 0 <= j < s.len() ==> (#[trigger] s[j]).0 != k,
    decreases s.len(),
{
    if s.len() > 0 {
        lemma_absent_find(s.drop_first(), k);
        assert forall|j: int| 0 <= j < s.len() implies (#[trigger] s[j]).0 != k by {
            if j > 0 {
                assert(s.drop_first()[j - 1] == s[j]);
            }
        }
    }
}

/// The first entry carrying a key determines the lookup result.
pub proof fn lemma_find_present<K, V>(s: Seq<(K, V)>, i: int)
    requires
        0 <= i < s.len(),
        forall|j: int| 0 <= j < i ==> (#[trigger] s[j]).0 != s[i].0,
    ensures
        find(s, s[i].0) == Some(s[i].1),
    decreases i,
{
    if i > 0 {
        assert(s[0].0 != s[i].0);
        assert(s.drop_first()[i - 1] == s[i]);
        assert forall|j: int| 0 <= j < i - 1 implies (#[trigger] s.drop_first()[j]).0 != s.drop_first()[i - 1].0 by {
            assert(s.drop_first()[j] == s[j + 1]);
        }
        lemma_find_present(s.drop_first(), i - 1);
    }
}

/// With distinct keys, every entry determines the lookup result for its key.
pub proof fn lemma_find_at_index<K, V>(s: Seq<(K, V)>, i: int)
    requires
        unique_keys(s),
        0 <= i < s.len(),
    ensures
        find(s, s[i].0) == Some(s[i].1),
{
    lemma_find_present(s, i);
}

/// A found value is carried by some entry.
pub proof fn lemma_find_some_index<K, V>(s: Seq<(K, V)>, k: K)
    requires
        find(s, k) is Some,
    ensures
        exists|i: int|
            0 <= i < s.len() && (#[trigger] s[i]).0 == k && Some(s[i].1) == find(s, k),
    decreases s.len(),
{
    if s.len() > 0 && s[0].0 != k {
        lemma_find_some_index(s.drop_first(), k);
        let w = choose|i: int|
            0 <= i < s.drop_first().len() && (#[trigger] s.drop_first()[i]).0 == k
                && Some(s.drop_first()[i].1) == find(s.drop_first(), k);
        assert(s[w + 1] == s.drop_first()[w]);
    }
}

/// Appending an entry leaves earlier keys' lookups as they were and makes
/// the new key found exactly when it was not found before.
pub proof fn lemma_find_push<K, V>(s: Seq<(K, V)>, e: (K, V), k: K)
    ensures
        find(s, k) is Some ==> find(s.push(e), k) == find(s, k),
        find(s, k) is None && e.0 == k ==> find(s.push(e), k) == Some(e.1),
        find(s, k) is None && e.0 != k ==> find(s.push(e), k) is None,
    decreases s.len(),
{
    if s.len() == 0 {
        assert(s.push(e)[0] == e);
        assert(s.push(e).drop_first() =~= Seq::<(K, V)>::empty());
        if e.0 != k {
            assert(find(s.push(e), k) == find(s.push(e).drop_first(), k));
            assert(find(Seq::<(K, V)>::empty(), k) is None);
        }
    } else {
        assert(s.push(e)[0] == s[0]);
        assert(s.push(e).drop_first() =~= s.drop_first().push(e));
        lemma_find_push(s.drop_first(), e, k);
    }
}

/// Appending an entry with a fresh key keeps the keys pairwise distinct.
pub proof fn lemma_unique_push<K, V>(s: Seq<(K, V)>, e: (K, V))
    requires
        unique_keys(s),
        find(s, e.0) is None,
    ensures
        unique_keys(s.push(e)),
{
    lemma_absent_find(s, e.0);
    assert forall|i: int, j: int| 0 <= i < j < s.push(e).len() implies (#[trigger] s.push(e)[i]).0 != (#[trigger] s.push(e)[j]).0 by {
        assert(s.push(e)[i] == s[i]);
        if j < s.len() {
            assert(s.push(e)[j] == s[j]);
        } else {
            assert(s.push(e)[j] == e);
        }
    }
}

/// Replacing the entry at `i` (keeping its key) rewrites that key's lookup
/// and leaves every other key's lookup as it was.
pub proof fn lemma_find_update<K, V>(s: Seq<(K, V)>, i: int, e: (K, V), k: K)
    requires
        unique_keys(s),
        0 <= i < s.len(),
        s[i].0 == e.0,
    ensures
        k == e.0 ==> find(s.update(i, e), k) == Some(e.1),
        k != e.0 ==> find(s.update(i, e), k) == find(s, k),
    decreases i,
{
    if i == 0 {
        assert(s.update(0, e)[0] == e);
        if k != e.0 {
            assert(s.update(0, e).drop_first() =~= s.drop_first());
        }
    } else {
        assert(s.update(i, e)[0] == s[0]);
        assert(s[0].0 != s[i].0);
        assert(s.update(i, e).drop_first() =~= s.drop_first().update(i - 1, e));
        lemma_unique_drop_first(s);
        assert(s.drop_first()[i - 1] == s[i]);
        lemma_find_update(s.drop_first(), i - 1, e, k);
    }
}

/// Replacing an entry while keeping its key keeps the keys pairwise distinct.
pub proof fn lemma_unique_update<K, V>(s: Seq<(K, V)>, i: int, e: (K, V))
    requires
        unique_keys(s),
        0 <= i < s.len(),
        s[i].0 == e.0,
    ensures
        unique_keys(s.update(i, e)),
{
    assert forall|p: int, q: int| 0 <= p < q < s.update(i, e).len() implies (#[trigger] s.update(i, e)[p]).0 != (#[trigger] s.update(i, e)[q]).0 by {
        assert(s.update(i, e)[p].0 == s[p].0);
        assert(s.update(i, e)[q].0 == s[q].0);
    }
}

/// Removing the entry at `i` makes its key unfound and leaves every other
/// key's lookup as it was.
pub proof fn lemma_find_remove<K, V>(s: Seq<(K, V)>, i: int)
    requires
        unique_keys(s),
        0 <= i < s.len(),
    ensures
        find(s.remove(i), s[i].0) is None,
        forall|k: K| k != s[i].0 ==> find(s.remove(i), k) == find(s, k),
    decreases i,
{
    if i == 0 {
        assert(s.remove(0) =~= s.drop_first());
        assert forall|j: int| 0 <= j < s.drop_first().len() implies (#[trigger] s.drop_first()[j]).0 != s[0].0 by {
            assert(s.drop_first()[j] == s[j + 1]);
        }
        lemma_find_absent(s.drop_first(), s[0].0);
        assert forall|k: K| k != s[0].0 implies find(s.remove(0), k) == find(s, k) by {
            assert(find(s, k) == find(s.drop_first(), k));
            assert(s.remove(0) == s.drop_first());
        }
    } else {
        assert(s.remove(i)[0] == s[0]);
        assert(s.remove(i).drop_first() =~= s.drop_first().remove(i - 1));
        lemma_unique_drop_first(s);
        assert(s.drop_first()[i - 1] == s[i]);
        lemma_find_remove(s.drop_first(), i - 1);
        assert(s[0].0 != s[i].0);
        assert forall|k: K| k != s[i].0 implies find(s.remove(i), k) == find(s, k) by {
            if s[0].0 == k {
                assert(find(s, k) == Some(s[0].1));
                assert(find(s.remove(i), k) == Some(s.remove(i)[0].1));
            } else {
                assert(find(s.remove(i), k) == find(s.remove(i).drop_first(), k));
                assert(find(s.remove(i).drop_first(), k) == find(s.drop_first().remove(i - 1), k));
                assert(find(s.drop_first().remove(i - 1), k) == find(s.drop_first(), k));
                assert(find(s, k) == find(s.drop_first(), k));
            }
        }
    }
}

/// Removing an entry keeps the keys pairwise distinct.
pub proof fn lemma_unique_remove<K, V>(s: Seq<(K, V)>, i: int)
    requires
        unique_keys(s),
        0 <= i < s.len(),
    ensures
        unique_keys(s.remove(i)),
{
    assert forall|p: int, q: int| 0 <= p < q < s.remove(i).len() implies (#[trigger] s.remove(i)[p]).0 != (#[trigger] s.remove(i)[q]).0 by {
        let sp: int = if p < i { p } else { p + 1 };
        let sq: int = if q < i { q } else { q + 1 };
        assert(s.remove(i)[p] == s[sp]);
        assert(s.remove(i)[q] == s[sq]);
    }
}

} // verus!
