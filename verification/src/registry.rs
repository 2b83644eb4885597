//! A small theory of key-value registries kept as vectors of entries with
//! pairwise-distinct keys, viewed as finite maps. Both the per-group
//! connection registry and the group registry of the manager rest on it.

use vstd::prelude::*;

verus! {

/// The finite map a sequence of key-value pairs denotes; later entries would
/// shadow earlier ones, but registries keep their keys distinct.
pub open spec fn entry_map<K, V>(s: Seq<(K, V)>) -> Map<K, V>
    decreases s.len(),
{
    if s.len() == 0 {
        Map::empty()
    } else {
        entry_map(s.drop_last()).insert(s.last().0, s.last().1)
    }
}

/// Pairwise-distinct keys.
pub open spec fn keys_distinct<K, V>(s: Seq<(K, V)>) -> bool {
    forall|i: int, j: int| 0 <= i < j < s.len() ==> (#[trigger] s[i]).0 != (#[trigger] s[j]).0
}

/// The map contains exactly the keys of the entries.
pub proof fn lemma_entry_map_contains<K, V>(s: Seq<(K, V)>, k: K)
    ensures
        entry_map(s).contains_key(k) <==> exists|i: int| 0 <= i < s.len() && (#[trigger] s[i]).0
            == k,
    decreases s.len(),
{
    if s.len() > 0 {
        lemma_entry_map_contains(s.drop_last(), k);
        if entry_map(s).contains_key(k) {
            if s.last().0 != k {
                let i = choose|i: int|
                    0 <= i < s.drop_last().len() && (#[trigger] s.drop_last()[i]).0 == k;
                assert(s[i].0 == k);
            }
        }
        if exists|i: int| 0 <= i < s.len() && (#[trigger] s[i]).0 == k {
            let i = choose|i: int| 0 <= i < s.len() && (#[trigger] s[i]).0 == k;
            if i < s.len() - 1 {
                assert(s.drop_last()[i].0 == k);
            }
        }
    }
}

/// With distinct keys, the map sends each entry's key to that entry's value.
pub proof fn lemma_entry_map_value<K, V>(s: Seq<(K, V)>, i: int)
    requires
        keys_distinct(s),
        0 <= i < s.len(),
    ensures
        entry_map(s).contains_key(s[i].0),
        entry_map(s)[s[i].0] == s[i].1,
    decreases s.len(),
{
    lemma_entry_map_contains(s, s[i].0);
    if i < s.len() - 1 {
        assert(s.drop_last()[i] == s[i]);
        lemma_entry_map_value(s.drop_last(), i);
        assert(s.last().0 != s[i].0);
    }
}

/// Appending an entry inserts its binding.
pub proof fn lemma_entry_map_push<K, V>(s: Seq<(K, V)>, k: K, v: V)
    ensures
        entry_map(s.push((k, v))) == entry_map(s).insert(k, v),
{
    assert(s.push((k, v)).drop_last() =~= s);
    assert(s.push((k, v)).last() == (k, v));
}

/// With distinct keys, removing the entry at `i` removes its binding.
pub proof fn lemma_entry_map_remove<K, V>(s: Seq<(K, V)>, i: int)
    requires
        keys_distinct(s),
        0 <= i < s.len(),
    ensures
        entry_map(s.remove(i)) == entry_map(s).remove(s[i].0),
    decreases s.len(),
{
    let k = s[i].0;
    if i == s.len() - 1 {
        assert(s.remove(i) =~= s.drop_last());
        lemma_entry_map_contains(s.drop_last(), k);
        assert forall|j: int| 0 <= j < s.drop_last().len() implies (#[trigger] s.drop_last()[j]).0
            != k by {
            assert(s[j].0 == s.drop_last()[j].0);
        }
        assert(entry_map(s.drop_last()).insert(k, s[i].1).remove(k) =~= entry_map(s.drop_last()));
    } else {
        assert(s.remove(i).drop_last() =~= s.drop_last().remove(i));
        assert(s.remove(i).last() == s.last());
        assert forall|a: int, b: int|
            0 <= a < b < s.drop_last().len() implies (#[trigger] s.drop_last()[a]).0
            != (#[trigger] s.drop_last()[b]).0 by {
            assert(s[a].0 == s.drop_last()[a].0 && s[b].0 == s.drop_last()[b].0);
        }
        lemma_entry_map_remove(s.drop_last(), i);
        assert(s.drop_last()[i] == s[i]);
        assert(s.last().0 != k);
        assert(entry_map(s.drop_last()).remove(k).insert(s.last().0, s.last().1) =~= entry_map(
            s.drop_last(),
        ).insert(s.last().0, s.last().1).remove(k));
        assert(entry_map(s.remove(i)) =~= entry_map(s).remove(k));
    }
}

/// Removing an entry keeps the keys distinct.
pub proof fn lemma_keys_distinct_remove<K, V>(s: Seq<(K, V)>, i: int)
    requires
        keys_distinct(s),
        0 <= i < s.len(),
    ensures
        keys_distinct(s.remove(i)),
{
    assert forall|a: int, b: int|
        0 <= a < b < s.remove(i).len() implies (#[trigger] s.remove(i)[a]).0
        != (#[trigger] s.remove(i)[b]).0 by {
        let a0 = if a < i {
            a
        } else {
            a + 1
        };
        let b0 = if b < i {
            b
        } else {
            b + 1
        };
        assert(s.remove(i)[a] == s[a0] && s.remove(i)[b] == s[b0]);
    }
}

/// Appending an entry with a new key keeps the keys distinct.
pub proof fn lemma_keys_distinct_push<K, V>(s: Seq<(K, V)>, k: K, v: V)
    requires
        keys_distinct(s),
        forall|i: int| 0 <= i < s.len() ==> (#[trigger] s[i]).0 != k,
    ensures
        keys_distinct(s.push((k, v))),
{
}

/// What a bounded registry looks like after a binding was put in: the new
/// binding is present, and everything else is untouched, except that when the
/// key was new and the registry full, one existing entry was evicted to make
/// room.
pub open spec fn registry_insert_post<K, V>(pre: Map<K, V>, post: Map<K, V>, k: K, v: V, cap: nat) -> bool {
    &&& post.contains_key(k)
    &&& post[k] == v
    &&& if pre.contains_key(k) || pre.dom().len() < cap {
        post == pre.insert(k, v)
    } else {
        exists|ev: K| pre.contains_key(ev) && ev != k && post == pre.remove(ev).insert(k, v)
    }
}

/// With distinct keys, the entries and the map have the same size.
pub proof fn lemma_entry_map_len<K, V>(s: Seq<(K, V)>)
    requires
        keys_distinct(s),
    ensures
        entry_map(s).dom().finite(),
        entry_map(s).dom().len() == s.len(),
    decreases s.len(),
{
    if s.len() > 0 {
        assert forall|a: int, b: int|
            0 <= a < b < s.drop_last().len() implies (#[trigger] s.drop_last()[a]).0
            != (#[trigger] s.drop_last()[b]).0 by {
            assert(s[a].0 == s.drop_last()[a].0 && s[b].0 == s.drop_last()[b].0);
        }
        lemma_entry_map_len(s.drop_last());
        lemma_entry_map_contains(s.drop_last(), s.last().0);
        assert forall|j: int|
            0 <= j < s.drop_last().len() implies (#[trigger] s.drop_last()[j]).0 != s.last().0 by {
            assert(s[j].0 == s.drop_last()[j].0);
        }
        assert(!entry_map(s.drop_last()).contains_key(s.last().0));
    }
}

} // verus!
