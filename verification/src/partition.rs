//! The partitioner: stable grouping of items by a key.
//!
//! Items are named by their positions in a list. A partition keeps the keys
//! in the order in which they were first seen and, under each key, the items
//! in the order in which they came.

use crate::buckets::{bucket_handed_out, is_first_with, position_of, BucketKey};
use crate::record::rising;
use linear_map::LinearMap;
use vstd::prelude::*;

verus! {

/// The items whose key is `key`, in their order. `keys[i]` is the key of
/// `items[i]`.
pub open spec fn select<K>(items: Seq<usize>, keys: Seq<K>, key: K) -> Seq<usize>
    recommends
        items.len() == keys.len(),
    decreases items.len(),
{
    if items.len() == 0 {
        Seq::empty()
    } else {
        let earlier = select(items.drop_last(), keys.drop_last(), key);
        if keys.last() == key {
            earlier.push(items.last())
        } else {
            earlier
        }
    }
}

/// Each key that occurs in `keys` once, in the order of first occurrence.
pub open spec fn distinct<K>(keys: Seq<K>) -> Seq<K>
    decreases keys.len(),
{
    if keys.len() == 0 {
        Seq::empty()
    } else {
        let earlier = distinct(keys.drop_last());
        if earlier.contains(keys.last()) {
            earlier
        } else {
            earlier.push(keys.last())
        }
    }
}

/// One bucket for each of the keys `chosen`, in their order, holding the
/// items with that key.
pub open spec fn buckets_for<K>(items: Seq<usize>, keys: Seq<K>, chosen: Seq<K>) -> Seq<
    (K, Seq<usize>),
>
    recommends
        items.len() == keys.len(),
{
    Seq::new(chosen.len(), |g: int| (chosen[g], select(items, keys, chosen[g])))
}

/// The stable partition of `items` by `keys`: one bucket for each distinct
/// key, in the order of first occurrence, holding the items with that key.
pub open spec fn partition<K>(items: Seq<usize>, keys: Seq<K>) -> Seq<(K, Seq<usize>)>
    recommends
        items.len() == keys.len(),
{
    buckets_for(items, keys, distinct(keys))
}

/// Whether `f`, called on `item`, can return a key whose view is `key`.
pub open spec fn may_return<T, K: View, F: Fn(&T) -> K>(f: F, item: T, key: K::V) -> bool {
    exists|k: K| #[trigger] call_ensures(f, (&item,), k) && k@ == key
}

/// Whether `keys` can be what `f` returned for the items at the positions
/// `members` of `items`, one call for each member.
pub open spec fn observed<T, K: View, F: Fn(&T) -> K>(
    f: F,
    items: Seq<T>,
    members: Seq<usize>,
    keys: Seq<K::V>,
) -> bool {
    &&& keys.len() == members.len()
    &&& forall|p: int|
        0 <= p < members.len() ==> #[trigger] may_return(f, items[members[p] as int], keys[p])
}

/// Groups the positions `members` of `items` by the key that `f` computes for
/// the item at each position. `f` is called once for each member, in order;
/// the buckets of the map that comes back are the stable partition of the
/// members by the keys that these calls returned.
pub fn partition_by<T, K: BucketKey, F: Fn(&T) -> K>(
    items: &Vec<T>,
    members: &Vec<usize>,
    f: &F,
) -> (map: LinearMap<K, Vec<usize>>)
    requires
        forall|p: int|
            0 <= p < members.len() ==> (#[trigger] members[p]) < items.len() && call_requires(
                *f,
                (&items[members[p] as int],),
            ),
    ensures
        exists|keys: Seq<K::V>|
            observed(*f, items@, members@, keys) && #[trigger] partition(members@, keys)
                == K::buckets(map),
{
    let mut map = K::new_map();
    let ghost mut keys: Seq<K::V> = Seq::empty();
    let mut done: usize = 0;
    while done < members.len()
        invariant
            done <= members.len(),
            forall|p: int|
                0 <= p < members.len() ==> (#[trigger] members[p]) < items.len() && call_requires(
                    *f,
                    (&items[members[p] as int],),
                ),
            observed(*f, items@, members@.take(done as int), keys),
            K::buckets(map) == partition(members@.take(done as int), keys),
        decreases members.len() - done,
    {
        let member: usize = members[done];
        let key = f(&items[member]);
        let ghost key_view = key@;
        let bucket = K::bucket_mut(&mut map, key);
        bucket.push(member);
        proof {
            lemma_partition_push(members@.take(done as int), keys, member, key_view);
            assert(members@.take(done + 1) =~= members@.take(done as int).push(member));
            let grown = keys.push(key_view);
            assert forall|p: int| 0 <= p < done + 1 implies #[trigger] may_return(
                *f,
                items@[members@.take(done + 1)[p] as int],
                grown[p],
            ) by {
                if p < done {
                    assert(may_return(*f, items@[members@.take(done as int)[p] as int], keys[p]));
                }
            }
            keys = grown;
        }
        done = done + 1;
    }
    proof {
        assert(members@.take(done as int) =~= members@);
        assert(partition(members@, keys) == K::buckets(map));
    }
    map
}

/// `distinct` holds no key twice, and holds exactly the keys that occur.
pub proof fn lemma_distinct<K>(keys: Seq<K>)
    ensures
        distinct(keys).no_duplicates(),
        forall|k: K| distinct(keys).contains(k) <==> keys.contains(k),
    decreases keys.len(),
{
    if keys.len() > 0 {
        let front = keys.drop_last();
        let earlier = distinct(front);
        lemma_distinct(front);
        assert forall|k: K| distinct(keys).contains(k) <==> keys.contains(k) by {
            if keys.contains(k) {
                let i = choose|i: int| 0 <= i < keys.len() && keys[i] == k;
                if i < front.len() {
                    assert(front[i] == k);
                    assert(front.contains(k));
                    assert(earlier.contains(k));
                    let j = choose|j: int| 0 <= j < earlier.len() && earlier[j] == k;
                    assert(distinct(keys)[j] == k);
                } else if !earlier.contains(k) {
                    assert(distinct(keys)[earlier.len() as int] == k);
                }
            }
            if distinct(keys).contains(k) {
                let j = choose|j: int| 0 <= j < distinct(keys).len() && distinct(keys)[j] == k;
                if j < earlier.len() {
                    assert(earlier[j] == k);
                    assert(earlier.contains(k));
                    assert(front.contains(k));
                    let i = choose|i: int| 0 <= i < front.len() && front[i] == k;
                    assert(keys[i] == k);
                } else {
                    assert(keys[keys.len() - 1] == k);
                }
            }
        }
    }
}

/// An item is selected exactly if it stands at a position whose key is
/// `key`; a key that does not occur selects nothing.
pub proof fn lemma_select<K>(items: Seq<usize>, keys: Seq<K>, key: K)
    requires
        items.len() == keys.len(),
    ensures
        select(items, keys, key).len() <= items.len(),
        forall|x: usize|
            select(items, keys, key).contains(x) <==> exists|p: int|
                0 <= p < items.len() && items[p] == x && keys[p] == key,
        !keys.contains(key) ==> select(items, keys, key) == Seq::<usize>::empty(),
        keys.contains(key) ==> select(items, keys, key).len() > 0,
    decreases items.len(),
{
    if items.len() > 0 {
        let front_items = items.drop_last();
        let front_keys = keys.drop_last();
        let earlier = select(front_items, front_keys, key);
        let all = select(items, keys, key);
        lemma_select(front_items, front_keys, key);
        assert forall|x: usize| all.contains(x) implies exists|p: int|
            0 <= p < items.len() && items[p] == x && keys[p] == key by {
            let j = choose|j: int| 0 <= j < all.len() && all[j] == x;
            if j < earlier.len() {
                assert(earlier[j] == x);
                assert(earlier.contains(x));
                let p = choose|p: int|
                    0 <= p < front_items.len() && front_items[p] == x && front_keys[p] == key;
                assert(items[p] == x && keys[p] == key);
            } else {
                assert(items[items.len() - 1] == x && keys[items.len() - 1] == key);
            }
        }
        assert forall|x: usize|
            (exists|p: int|
                0 <= p < items.len() && items[p] == x && keys[p] == key) implies all.contains(
            x,
        ) by {
            let p = choose|p: int| 0 <= p < items.len() && items[p] == x && keys[p] == key;
            if p < front_items.len() {
                assert(front_items[p] == x && front_keys[p] == key);
                assert(earlier.contains(x));
                let j = choose|j: int| 0 <= j < earlier.len() && earlier[j] == x;
                assert(all[j] == x);
            } else {
                assert(all[earlier.len() as int] == x);
            }
        }
        if !keys.contains(key) {
            assert(!front_keys.contains(key)) by {
                if front_keys.contains(key) {
                    let i = choose|i: int| 0 <= i < front_keys.len() && front_keys[i] == key;
                    assert(keys[i] == key);
                }
            }
            assert(keys[keys.len() - 1] != key);
        }
        if keys.contains(key) && keys.last() != key {
            let i = choose|i: int| 0 <= i < keys.len() && keys[i] == key;
            assert(front_keys[i] == key);
        }
    }
}

/// Selecting from rising positions leaves rising positions.
pub proof fn lemma_select_rising<K>(items: Seq<usize>, keys: Seq<K>, key: K)
    requires
        items.len() == keys.len(),
        rising(items),
    ensures
        rising(select(items, keys, key)),
    decreases items.len(),
{
    if items.len() > 0 {
        let front_items = items.drop_last();
        let front_keys = keys.drop_last();
        let earlier = select(front_items, front_keys, key);
        let all = select(items, keys, key);
        lemma_select_rising(front_items, front_keys, key);
        lemma_select(front_items, front_keys, key);
        assert forall|p: int, q: int| 0 <= p < q < all.len() implies all[p] < all[q] by {
            if q == earlier.len() {
                assert(earlier.contains(earlier[p]));
                let j = choose|j: int|
                    0 <= j < front_items.len() && front_items[j] == earlier[p] && front_keys[j]
                        == key;
                assert(items[j] < items[items.len() - 1]);
            }
        }
    }
}

/// What the bucket at place `g` of a partition of rising positions is: the
/// bucket of the `g`-th distinct key, not empty, rising, and holding exactly
/// the positions with that key.
pub proof fn lemma_bucket<K>(items: Seq<usize>, keys: Seq<K>, g: int)
    requires
        items.len() == keys.len(),
        rising(items),
        0 <= g < partition(items, keys).len(),
    ensures
        partition(items, keys)[g].0 == distinct(keys)[g],
        partition(items, keys)[g].1 == select(items, keys, distinct(keys)[g]),
        keys.contains(partition(items, keys)[g].0),
        partition(items, keys)[g].1.len() > 0,
        rising(partition(items, keys)[g].1),
        forall|x: usize|
            partition(items, keys)[g].1.contains(x) <==> exists|p: int|
                0 <= p < items.len() && items[p] == x && keys[p] == partition(items, keys)[g].0,
{
    let key = distinct(keys)[g];
    lemma_distinct(keys);
    assert(distinct(keys).contains(key));
    lemma_select(items, keys, key);
    lemma_select_rising(items, keys, key);
}

/// One more item with its key changes a partition as a map of buckets
/// changes when the bucket of that key is asked for and the item pushed to
/// it.
pub proof fn lemma_partition_push<K>(items: Seq<usize>, keys: Seq<K>, item: usize, key: K)
    requires
        items.len() == keys.len(),
    ensures
        forall|bucket: Seq<usize>, after: Seq<(K, Seq<usize>)>|
            bucket_handed_out(partition(items, keys), key, bucket, bucket.push(item), after)
                ==> after == partition(items.push(item), keys.push(key)),
{
    let before = partition(items, keys);
    let more_items = items.push(item);
    let more_keys = keys.push(key);
    let grown = partition(more_items, more_keys);
    let d = distinct(keys);
    assert(more_items.drop_last() =~= items);
    assert(more_keys.drop_last() =~= keys);
    lemma_distinct(keys);
    lemma_select(items, keys, key);
    assert forall|bucket: Seq<usize>, after: Seq<(K, Seq<usize>)>|
        bucket_handed_out(before, key, bucket, bucket.push(item), after) implies after
        == grown by {
        match position_of(before, key) {
            Some(i) => {
                assert(d[i] == key);
                assert(d.contains(key));
                assert(grown.len() == before.len());
                assert forall|g: int| 0 <= g < grown.len() implies grown[g] == after[g] by {
                    if g != i {
                        assert(d[g] != key);
                    }
                }
                assert(after =~= grown);
            },
            None => {
                if d.contains(key) {
                    let g = choose|g: int| 0 <= g < d.len() && d[g] == key;
                    assert forall|j: int| 0 <= j < g implies (#[trigger] before[j]).0 != key by {
                        assert(d[j] != d[g]);
                    }
                    assert(is_first_with(before, key, g));
                }
                assert(!keys.contains(key));
                assert(bucket.push(item) =~= select(more_items, more_keys, key));
                assert(after =~= grown);
            },
        }
    }
}

} // verus!
