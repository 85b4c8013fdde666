//! Keys of an ordered map, taken out in order.

use std::collections::BTreeMap;
use vstd::prelude::*;
use vstd::std_specs::btree::*;
use vstd::laws_cmp::*;
use vstd::std_specs::cmp::OrdSpec;
use vstd::std_specs::iter::IteratorSpec;

verus! {

/// The keys of the map, smallest first.
pub fn ordered_keys(map: &BTreeMap<u64, Vec<usize>>) -> (keys: Vec<u64>)
    ensures
        keys@.len() == map@.dom().len(),
        forall|g: int| 0 <= g < keys@.len() ==> map@.contains_key(#[trigger] keys@[g]),
        forall|s: u64| map@.contains_key(s) ==> keys@.contains(s),
        forall|g: int, h: int| 0 <= g < h < keys@.len() ==> keys@[g] < keys@[h],
{
    broadcast use group_btree_axioms;
    broadcast use group_laws_cmp;
    let mut keys: Vec<u64> = Vec::new();
    let iter = map.keys();
    let ghost all = iter.remaining();
    proof {
        assert(obeys_cmp::<u64>());
        assert(obeys_cmp::<&u64>());
        assert(key_obeys_cmp_spec::<u64>());
        assert(iter == spec_keys_iter(map));
        axiom_spec_keys_iter(map);
        assert(increasing_seq(all));
        axiom_increasing_seq_meaning(all);
        assert forall|g: int, h: int| 0 <= g < h < all.len() implies *all[g] < *all[h] by {
            assert(OrdSpec::cmp_spec(&all[g], &all[h]) is Less);
        }
        assert forall|g: int| 0 <= g < all.len() implies map@.contains_key(*#[trigger] all[g]) by {
            assert(all.unref()[g] == *all[g]);
            assert(all.unref().to_set().contains(*all[g]));
        }
        assert forall|s: u64| map@.contains_key(s) implies exists|g: int|
            0 <= g < all.len() && *#[trigger] all[g] == s by {
            assert(all.unref().to_set().contains(s));
            let g = choose|g: int| 0 <= g < all.unref().len() && all.unref()[g] == s;
            assert(*all[g] == s);
        }
    }
    for k in it: iter
        invariant
            it.seq() == all,
            forall|s: u64|
                map@.contains_key(s) ==> exists|g: int| 0 <= g < all.len() && *#[trigger] all[g] == s,
            keys@.len() == it.index(),
            forall|j: int| 0 <= j < keys@.len() ==> #[trigger] keys@[j] == *all[j],
            forall|g: int, h: int| 0 <= g < h < all.len() ==> *all[g] < *all[h],
            forall|g: int| 0 <= g < all.len() ==> map@.contains_key(*#[trigger] all[g]),
    {
        keys.push(*k);
    }
    proof {
        assert forall|g: int| 0 <= g < keys@.len() implies map@.contains_key(
            #[trigger] keys@[g],
        ) by {
            assert(keys@[g] == *all[g]);
        }
        assert forall|s: u64| map@.contains_key(s) implies keys@.contains(s) by {
            let g = choose|g: int| 0 <= g < all.len() && *#[trigger] all[g] == s;
            assert(keys@[g] == s);
        }
        assert forall|g: int, h: int| 0 <= g < h < keys@.len() implies keys@[g] < keys@[h] by {
            assert(keys@[g] == *all[g] && keys@[h] == *all[h]);
        }
    }
    keys
}

} // verus!
