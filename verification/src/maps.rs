//! The pairs of a map, one by one.

use vstd::prelude::*;

verus! {

/// The keys of a sequence of pairs.
pub open spec fn keys_of<K, V>(items: Seq<(&K, &V)>) -> Seq<K> {
    items.map_values(|item: (&K, &V)| *item.0)
}

/// The keys of the pairs of a map are its keys, each once.
pub proof fn lemma_keys_of<K, V>(items: Seq<(&K, &V)>, map: Map<K, V>)
    requires
        items.no_duplicates(),
        forall|i: int|
            #![trigger items[i]]
            0 <= i < items.len() ==> map.contains_key(*items[i].0) && map[*items[i].0]
                == *items[i].1,
        forall|k: K| #[trigger] map.contains_key(k) ==> items.contains((&k, &map[k])),
    ensures
        keys_of(items).no_duplicates(),
        keys_of(items).to_set() == map.dom(),
{
    let keys = keys_of(items);
    assert forall|i: int, j: int| 0 <= i < keys.len() && 0 <= j < keys.len() && i != j implies keys[i]
        != keys[j] by {
        if keys[i] == keys[j] {
            assert(items[i] == items[j]);
        }
    }
    assert forall|k: K| keys.to_set().contains(k) <==> map.dom().contains(k) by {
        if keys.contains(k) {
            let i = choose|i: int| 0 <= i < keys.len() && keys[i] == k;
            assert(map.contains_key(*items[i].0));
        }
        if map.contains_key(k) {
            let i = choose|i: int| 0 <= i < items.len() && items[i] == (&k, &map[k]);
            assert(keys[i] == k);
        }
    }
    assert(keys.to_set() =~= map.dom());
}

} // verus!
