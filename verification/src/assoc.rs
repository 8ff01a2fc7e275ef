//! Association lists with unique keys, viewed as maps: the backing store
//! of the replicated-workload state types.

use vstd::prelude::*;

verus! {

/// The map an association list denotes; later entries win.
pub open spec fn assoc_view<K, V>(entries: Seq<(K, V)>) -> Map<K, V>
    decreases entries.len(),
{
    if entries.len() == 0 {
        Map::empty()
    } else {
        assoc_view(entries.drop_last()).insert(entries.last().0, entries.last().1)
    }
}

/// No key occurs twice.
pub open spec fn distinct_keys<K, V>(entries: Seq<(K, V)>) -> bool {
    forall|i: int, j: int|
        0 <= i < j < entries.len() ==> (#[trigger] entries[i]).0 != (#[trigger] entries[j]).0
}

/// A key is in the map exactly when some entry holds it.
pub proof fn lemma_assoc_contains<K, V>(entries: Seq<(K, V)>, k: K)
    ensures
        assoc_view(entries).contains_key(k) <==> exists|i: int|
            0 <= i < entries.len() && (#[trigger] entries[i]).0 == k,
    decreases entries.len(),
{
    if entries.len() > 0 {
        lemma_assoc_contains(entries.drop_last(), k);
        if entries.last().0 == k {
            assert(entries[entries.len() - 1].0 == k);
        } else if assoc_view(entries).contains_key(k) {
            let i = choose|i: int|
                0 <= i < entries.drop_last().len() && (#[trigger] entries.drop_last()[i]).0 == k;
            assert(entries[i].0 == k);
        } else {
            if exists|i: int| 0 <= i < entries.len() && (#[trigger] entries[i]).0 == k {
                let i = choose|i: int|
                    0 <= i < entries.len() && (#[trigger] entries[i]).0 == k;
                assert(entries.drop_last()[i].0 == k);
            }
        }
    }
}

/// With unique keys, the entry at `i` gives the value of its key.
pub proof fn lemma_assoc_at<K, V>(entries: Seq<(K, V)>, i: int)
    requires
        distinct_keys(entries),
        0 <= i < entries.len(),
    ensures
        assoc_view(entries).contains_key(entries[i].0),
        assoc_view(entries)[entries[i].0] == entries[i].1,
    decreases entries.len(),
{
    if i == entries.len() - 1 {
    } else {
        assert(distinct_keys(entries.drop_last()));
        assert(entries.drop_last()[i] == entries[i]);
        lemma_assoc_at(entries.drop_last(), i);
        assert(entries[i].0 != entries.last().0);
    }
}

/// Replacing the value at `i` replaces that key's value in the map.
pub proof fn lemma_assoc_update<K, V>(entries: Seq<(K, V)>, i: int, v: V)
    requires
        distinct_keys(entries),
        0 <= i < entries.len(),
    ensures
        distinct_keys(entries.update(i, (entries[i].0, v))),
        assoc_view(entries.update(i, (entries[i].0, v))) == assoc_view(entries).insert(
            entries[i].0,
            v,
        ),
    decreases entries.len(),
{
    let k = entries[i].0;
    let updated = entries.update(i, (k, v));
    if i == entries.len() - 1 {
        assert(updated.drop_last() =~= entries.drop_last());
        assert(assoc_view(updated) =~= assoc_view(entries).insert(k, v));
    } else {
        assert(distinct_keys(entries.drop_last()));
        assert(entries.drop_last()[i] == entries[i]);
        lemma_assoc_update(entries.drop_last(), i, v);
        assert(updated.drop_last() =~= entries.drop_last().update(i, (k, v)));
        assert(updated.last() == entries.last());
        assert(entries.last().0 != k);
        assert(assoc_view(updated) =~= assoc_view(entries).insert(k, v));
    }
}

/// Appending a fresh key inserts it into the map.
pub proof fn lemma_assoc_push<K, V>(entries: Seq<(K, V)>, k: K, v: V)
    requires
        distinct_keys(entries),
        forall|i: int| 0 <= i < entries.len() ==> (#[trigger] entries[i]).0 != k,
    ensures
        distinct_keys(entries.push((k, v))),
        assoc_view(entries.push((k, v))) == assoc_view(entries).insert(k, v),
{
    assert(entries.push((k, v)).drop_last() =~= entries);
    assert forall|i: int, j: int|
        0 <= i < j < entries.push((k, v)).len() implies (#[trigger] entries.push((k, v))[i]).0 != (
        #[trigger] entries.push((k, v))[j]).0 by {
        if j < entries.len() {
            assert(entries.push((k, v))[i] == entries[i]);
            assert(entries.push((k, v))[j] == entries[j]);
        } else {
            assert(entries.push((k, v))[i] == entries[i]);
        }
    }
}

} // verus!
