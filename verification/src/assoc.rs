//! Association lists: a sequence of key-value pairs read as a map.

use vstd::prelude::*;

verus! {

/// The map that a list of pairs stands for; of two pairs with one key the later one counts.
pub open spec fn assoc_map<K, V>(pairs: Seq<(K, V)>) -> Map<K, V>
    decreases pairs.len(),
{
    if pairs.len() == 0 {
        Map::empty()
    } else {
        assoc_map(pairs.drop_last()).insert(pairs.last().0, pairs.last().1)
    }
}

/// No key stands twice in the list.
pub open spec fn distinct_keys<K, V>(pairs: Seq<(K, V)>) -> bool {
    forall|i: int, j: int| 0 <= i < j < pairs.len() ==> pairs[i].0 != pairs[j].0
}

/// Some pair of the list has the key.
pub open spec fn has_key<K, V>(pairs: Seq<(K, V)>, key: K) -> bool {
    exists|i: int| 0 <= i < pairs.len() && #[trigger] pairs[i].0 == key
}

/// The keys of the map are the keys of the list.
pub proof fn lemma_assoc_dom<K, V>(pairs: Seq<(K, V)>, key: K)
    ensures
        assoc_map(pairs).dom().contains(key) <==> has_key(pairs, key),
    decreases pairs.len(),
{
    if pairs.len() > 0 {
        let init = pairs.drop_last();
        lemma_assoc_dom(init, key);
        if has_key(init, key) {
            let i = choose|i: int| 0 <= i < init.len() && #[trigger] init[i].0 == key;
            assert(pairs[i].0 == key);
        }
        if has_key(pairs, key) {
            let i = choose|i: int| 0 <= i < pairs.len() && #[trigger] pairs[i].0 == key;
            if i < init.len() {
                assert(init[i].0 == key);
            }
        }
    }
}

/// With distinct keys, the map gives each key the value that stands beside it.
pub proof fn lemma_assoc_index<K, V>(pairs: Seq<(K, V)>, i: int)
    requires
        distinct_keys(pairs),
        0 <= i < pairs.len(),
    ensures
        assoc_map(pairs).dom().contains(pairs[i].0),
        assoc_map(pairs)[pairs[i].0] == pairs[i].1,
    decreases pairs.len(),
{
    let init = pairs.drop_last();
    if i < init.len() {
        assert(distinct_keys(init)) by {
            assert forall|a: int, b: int| 0 <= a < b < init.len() implies init[a].0 != init[b].0 by {
                assert(pairs[a].0 != pairs[b].0);
            }
        }
        lemma_assoc_index(init, i);
        assert(init[i] == pairs[i]);
        assert(pairs[i].0 != pairs[pairs.len() - 1].0);
    }
}

/// Appending a pair inserts it into the map.
pub proof fn lemma_assoc_push<K, V>(pairs: Seq<(K, V)>, key: K, value: V)
    ensures
        assoc_map(pairs.push((key, value))) == assoc_map(pairs).insert(key, value),
{
    assert(pairs.push((key, value)).drop_last() =~= pairs);
}

/// With distinct keys, replacing the value beside a key inserts it into the map.
pub proof fn lemma_assoc_update<K, V>(pairs: Seq<(K, V)>, i: int, value: V)
    requires
        distinct_keys(pairs),
        0 <= i < pairs.len(),
    ensures
        assoc_map(pairs.update(i, (pairs[i].0, value))) == assoc_map(pairs).insert(
            pairs[i].0,
            value,
        ),
        distinct_keys(pairs.update(i, (pairs[i].0, value))),
    decreases pairs.len(),
{
    let key = pairs[i].0;
    let next = pairs.update(i, (key, value));
    let init = pairs.drop_last();
    let last = pairs.last();
    if i == pairs.len() - 1 {
        assert(next.drop_last() =~= init);
        assert(assoc_map(next) =~= assoc_map(pairs).insert(key, value));
    } else {
        assert(distinct_keys(init)) by {
            assert forall|a: int, b: int| 0 <= a < b < init.len() implies init[a].0 != init[b].0 by {
                assert(pairs[a].0 != pairs[b].0);
            }
        }
        lemma_assoc_update(init, i, value);
        assert(next.drop_last() =~= init.update(i, (key, value)));
        assert(next.last() == last);
        assert(pairs[i].0 != pairs[pairs.len() - 1].0);
        assert(assoc_map(next) =~= assoc_map(pairs).insert(key, value));
    }
}

/// With distinct keys, removing a pair removes its key from the map.
pub proof fn lemma_assoc_remove<K, V>(pairs: Seq<(K, V)>, i: int)
    requires
        distinct_keys(pairs),
        0 <= i < pairs.len(),
    ensures
        assoc_map(pairs.remove(i)) == assoc_map(pairs).remove(pairs[i].0),
        distinct_keys(pairs.remove(i)),
    decreases pairs.len(),
{
    let key = pairs[i].0;
    let next = pairs.remove(i);
    let init = pairs.drop_last();
    assert(distinct_keys(next)) by {
        assert forall|a: int, b: int| 0 <= a < b < next.len() implies next[a].0 != next[b].0 by {
            let a0 = if a < i { a } else { a + 1 };
            let b0 = if b < i { b } else { b + 1 };
            assert(pairs[a0].0 != pairs[b0].0);
        }
    }
    assert(distinct_keys(init)) by {
        assert forall|a: int, b: int| 0 <= a < b < init.len() implies init[a].0 != init[b].0 by {
            assert(pairs[a].0 != pairs[b].0);
        }
    }
    if i == pairs.len() - 1 {
        assert(next =~= init);
        lemma_assoc_dom(init, key);
        if has_key(init, key) {
            let j = choose|j: int| 0 <= j < init.len() && #[trigger] init[j].0 == key;
            assert(pairs[j].0 != pairs[i].0);
        }
        assert(assoc_map(next) =~= assoc_map(pairs).remove(key));
    } else {
        lemma_assoc_remove(init, i);
        assert(next.drop_last() =~= init.remove(i));
        assert(next.last() == pairs.last());
        assert(pairs[i].0 != pairs[pairs.len() - 1].0);
        assert(assoc_map(next) =~= assoc_map(pairs).remove(key));
    }
}

} // verus!
