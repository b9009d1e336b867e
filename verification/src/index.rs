//! Tables that list the places of a key in a sequence.

use std::collections::HashMap;
use std::hash::Hash;

use vstd::prelude::*;
use vstd::std_specs::hash::obeys_key_model;

verus! {

broadcast use vstd::std_specs::hash::group_hash_axioms;

/// The places of a key in a sequence, in increasing order.
pub open spec fn places<K>(keys: Seq<K>, key: K) -> Seq<usize>
    decreases keys.len(),
{
    if keys.len() == 0 {
        Seq::empty()
    } else if keys.last() == key {
        places(keys.drop_last(), key).push((keys.len() - 1) as usize)
    } else {
        places(keys.drop_last(), key)
    }
}

/// Whether a table lists, for each key of a sequence and for no other, its places.
pub open spec fn is_index<K>(table: Map<K, Vec<usize>>, keys: Seq<K>) -> bool {
    &&& forall|key: K| #[trigger] table.contains_key(key) <==> keys.contains(key)
    &&& forall|key: K| #[trigger] table.contains_key(key) ==> table[key]@ == places(keys, key)
}

/// The places of a key are those where the sequence holds it.
pub proof fn places_hold_the_key<K>(keys: Seq<K>, key: K)
    requires
        keys.len() <= usize::MAX,
    ensures
        forall|j: int|
            0 <= j < places(keys, key).len() ==> (#[trigger] places(keys, key)[j]) < keys.len()
                && keys[places(keys, key)[j] as int] == key,
        forall|i: int|
            0 <= i < keys.len() && #[trigger] keys[i] == key ==> places(keys, key).contains(
                i as usize,
            ),
        forall|j: int, k: int|
            0 <= j < k < places(keys, key).len() ==> (#[trigger] places(keys, key)[j]) < (
            #[trigger] places(keys, key)[k]),
    decreases keys.len(),
{
    if keys.len() > 0 {
        let rest = keys.drop_last();
        places_hold_the_key(rest, key);
        let all = places(keys, key);
        let fewer = places(rest, key);
        assert forall|j: int| 0 <= j < all.len() implies (#[trigger] all[j]) < keys.len()
            && keys[all[j] as int] == key by {
            if j < fewer.len() {
                assert(all[j] == fewer[j]);
                assert(rest[fewer[j] as int] == key);
            }
        }
        assert forall|i: int| 0 <= i < keys.len() && #[trigger] keys[i] == key implies all.contains(
            i as usize,
        ) by {
            if i < rest.len() {
                assert(rest[i] == key);
                let j = choose|j: int| 0 <= j < fewer.len() && fewer[j] == i as usize;
                assert(all[j] == i as usize);
            } else {
                assert(all[fewer.len() as int] == i as usize);
            }
        }
        assert forall|j: int, k: int| 0 <= j < k < all.len() implies (#[trigger] all[j]) < (
        #[trigger] all[k]) by {
            assert(all[j] == fewer[j]);
            if k < fewer.len() {
                assert(all[k] == fewer[k]);
            }
        }
    }
}

/// Adds the place of one more key at the end of the sequence.
pub(crate) fn add_place<K: Copy + Eq + Hash>(
    table: &mut HashMap<K, Vec<usize>>,
    key: K,
    place: usize,
    Ghost(keys): Ghost<Seq<K>>,
)
    requires
        obeys_key_model::<K>(),
        is_index(old(table)@, keys),
        place == keys.len(),
    ensures
        is_index(final(table)@, keys.push(key)),
{
    let ghost before = table@;
    let ghost more = keys.push(key);
    assert(more.drop_last() =~= keys);
    let mut list: Vec<usize> = match table.remove(&key) {
        Some(list) => list,
        None => Vec::new(),
    };
    proof {
        if !before.contains_key(key) {
            no_places(keys, key);
        }
    }
    list.push(place);
    table.insert(key, list);
    proof {
        assert forall|k: K| #[trigger] table@.contains_key(k) <==> more.contains(k) by {
            if more.contains(k) {
                let i = choose|i: int| 0 <= i < more.len() && more[i] == k;
                if i < keys.len() {
                    assert(keys[i] == k);
                    assert(before.contains_key(k));
                }
            }
            if table@.contains_key(k) {
                if k == key {
                    assert(more[keys.len() as int] == k);
                } else {
                    assert(before.contains_key(k));
                    let i = choose|i: int| 0 <= i < keys.len() && keys[i] == k;
                    assert(more[i] == k);
                }
            }
        }
        assert forall|k: K| #[trigger] table@.contains_key(k) implies table@[k]@ == places(
            more,
            k,
        ) by {
            if k != key {
                assert(before.contains_key(k));
            }
        }
    }
}

/// A key that a sequence does not hold has no places in it.
proof fn no_places<K>(keys: Seq<K>, key: K)
    requires
        !keys.contains(key),
    ensures
        places(keys, key) == Seq::<usize>::empty(),
    decreases keys.len(),
{
    if keys.len() > 0 {
        assert(keys[keys.len() - 1] == keys.last());
        assert forall|i: int| 0 <= i < keys.drop_last().len() implies keys.drop_last()[i]
            != key by {
            assert(keys[i] == keys.drop_last()[i]);
        }
        no_places(keys.drop_last(), key);
    }
}

} // verus!
