//! A mathematical reading of association lists.
//!
//! Several components store their tables as vectors of key/value pairs with
//! pairwise-distinct keys, and state their contracts over the corresponding
//! `Map`.  This module defines that correspondence once and proves how it
//! moves under the list edits the components perform: appending a fresh pair,
//! overwriting the pair at an index, and removing the pair at an index.

use vstd::prelude::*;

verus! {

/// The map an association list denotes; a later pair with the same key wins,
/// though the components keep keys distinct so the case never arises.
pub open spec fn kv_map<K, V>(s: Seq<(K, V)>) -> Map<K, V>
    decreases s.len(),
{
    if s.len() == 0 {
        Map::empty()
    } else {
        kv_map(s.drop_last()).insert(s.last().0, s.last().1)
    }
}

/// No key occurs twice in the list.
pub open spec fn kv_distinct<K, V>(s: Seq<(K, V)>) -> bool {
    forall|i: int, j: int| 0 <= i < j < s.len() ==> s[i].0 != s[j].0
}

/// A key is in the map exactly when some pair of the list carries it.
pub proof fn lemma_kv_contains<K, V>(s: Seq<(K, V)>, k: K)
    ensures
        kv_map(s).contains_key(k) <==> exists|i: int| 0 <= i < s.len() && s[i].0 == k,
    decreases s.len(),
{
    if s.len() > 0 {
        lemma_kv_contains(s.drop_last(), k);
        if s.last().0 == k {
            assert(s[s.len() - 1].0 == k);
        } else if kv_map(s).contains_key(k) {
            let i = choose|i: int| 0 <= i < s.drop_last().len() && s.drop_last()[i].0 == k;
            assert(s[i].0 == k);
        } else {
            assert forall|i: int| 0 <= i < s.len() implies s[i].0 != k by {
                if i < s.len() - 1 {
                    assert(s.drop_last()[i].0 == k ==> kv_map(s.drop_last()).contains_key(k));
                }
            }
        }
    }
}

/// With distinct keys, the pair at index `i` is what the map holds for its
/// key.
pub proof fn lemma_kv_value_at<K, V>(s: Seq<(K, V)>, i: int)
    requires
        kv_distinct(s),
        0 <= i < s.len(),
    ensures
        kv_map(s).contains_key(s[i].0),
        kv_map(s)[s[i].0] == s[i].1,
    decreases s.len(),
{
    if i == s.len() - 1 {
    } else {
        assert(s.drop_last()[i] == s[i]);
        lemma_kv_value_at(s.drop_last(), i);
        assert(s[i].0 != s.last().0);
    }
}

/// Appending a pair is insertion into the map.
pub proof fn lemma_kv_push<K, V>(s: Seq<(K, V)>, e: (K, V))
    ensures
        kv_map(s.push(e)) == kv_map(s).insert(e.0, e.1),
{
    assert(s.push(e).drop_last() =~= s);
    assert(s.push(e).last() == e);
}

/// Overwriting the pair at `i` with one carrying the same key is insertion
/// into the map.
pub proof fn lemma_kv_update<K, V>(s: Seq<(K, V)>, i: int, e: (K, V))
    requires
        kv_distinct(s),
        0 <= i < s.len(),
        e.0 == s[i].0,
    ensures
        kv_map(s.update(i, e)) == kv_map(s).insert(e.0, e.1),
    decreases s.len(),
{
    let t = s.update(i, e);
    if i == s.len() - 1 {
        assert(t.drop_last() =~= s.drop_last());
        assert(t.last() == e);
        assert(kv_map(s.drop_last()).insert(s[i].0, s[i].1).insert(e.0, e.1) =~= kv_map(
            s.drop_last(),
        ).insert(e.0, e.1));
    } else {
        assert(t.drop_last() =~= s.drop_last().update(i, e));
        assert(t.last() == s.last());
        assert(s.drop_last()[i] == s[i]);
        lemma_kv_update(s.drop_last(), i, e);
        assert(e.0 != s.last().0);
        assert(kv_map(s.drop_last()).insert(e.0, e.1).insert(s.last().0, s.last().1) =~= kv_map(
            s.drop_last(),
        ).insert(s.last().0, s.last().1).insert(e.0, e.1));
    }
}

/// Removing the pair at `i` is removal of its key from the map.
pub proof fn lemma_kv_remove<K, V>(s: Seq<(K, V)>, i: int)
    requires
        kv_distinct(s),
        0 <= i < s.len(),
    ensures
        kv_map(s.remove(i)) == kv_map(s).remove(s[i].0),
    decreases s.len(),
{
    let t = s.remove(i);
    if i == s.len() - 1 {
        assert(t =~= s.drop_last());
        lemma_kv_contains(s.drop_last(), s[i].0);
        assert(forall|j: int| 0 <= j < s.drop_last().len() ==> s.drop_last()[j] == s[j]);
        assert(!kv_map(s.drop_last()).contains_key(s[i].0));
        assert(kv_map(s.drop_last()).insert(s[i].0, s[i].1).remove(s[i].0) =~= kv_map(
            s.drop_last(),
        ));
    } else {
        assert(t.drop_last() =~= s.drop_last().remove(i));
        assert(t.last() == s.last());
        assert(s.drop_last()[i] == s[i]);
        lemma_kv_remove(s.drop_last(), i);
        assert(s[i].0 != s.last().0);
        assert(kv_map(s.drop_last()).remove(s[i].0).insert(s.last().0, s.last().1) =~= kv_map(
            s.drop_last(),
        ).insert(s.last().0, s.last().1).remove(s[i].0));
    }
}

} // verus!
