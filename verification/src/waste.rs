//! Wasted space: what the copies beyond the first of each duplicate group
//! take up.

use crate::partition::{buckets_for, distinct, lemma_distinct, partition, select};
use crate::record::{keys_at, positions};
use crate::scan::{
    content_groups, groups_by_content, groups_by_hash, hash_groups, size_stage, total_size,
    GroupModel,
};
use crate::sizes::{ascending, increasing, lemma_ascending, size_groups};
use vstd::prelude::*;

verus! {

/// The bytes wasted by one group: its size for each member beyond the first.
pub open spec fn group_waste(group: GroupModel) -> nat {
    if group.members.len() > 1 {
        (group.size * (group.members.len() - 1)) as nat
    } else {
        0
    }
}

/// The bytes wasted by the groups, all together.
pub open spec fn waste(groups: Seq<GroupModel>) -> nat
    decreases groups.len(),
{
    if groups.len() == 0 {
        0
    } else {
        waste(groups.drop_last()) + group_waste(groups.last())
    }
}

/// The number of members of all buckets together.
pub open spec fn members_total<K>(buckets: Seq<(K, Seq<usize>)>) -> nat
    decreases buckets.len(),
{
    if buckets.len() == 0 {
        0
    } else {
        members_total(buckets.drop_last()) + buckets.last().1.len()
    }
}

/// The waste of one list of groups after another is the sum of the two.
pub proof fn lemma_waste_add(a: Seq<GroupModel>, b: Seq<GroupModel>)
    ensures
        waste(a + b) == waste(a) + waste(b),
    decreases b.len(),
{
    if b.len() == 0 {
        assert(a + b =~= a);
    } else {
        assert((a + b).drop_last() =~= a + b.drop_last());
        assert((a + b).last() == b.last());
        lemma_waste_add(a, b.drop_last());
    }
}

/// A key that is not among the chosen ones adds nothing to their buckets.
proof fn lemma_total_absent<K>(
    items: Seq<usize>,
    keys: Seq<K>,
    item: usize,
    key: K,
    chosen: Seq<K>,
)
    requires
        items.len() == keys.len(),
        !chosen.contains(key),
    ensures
        members_total(buckets_for(items.push(item), keys.push(key), chosen)) == members_total(
            buckets_for(items, keys, chosen),
        ),
    decreases chosen.len(),
{
    if chosen.len() > 0 {
        let front = chosen.drop_last();
        assert(!front.contains(key)) by {
            if front.contains(key) {
                let i = choose|i: int| 0 <= i < front.len() && front[i] == key;
                assert(chosen[i] == key);
            }
        }
        assert(chosen[chosen.len() - 1] != key);
        lemma_total_absent(items, keys, item, key, front);
        assert(items.push(item).drop_last() =~= items);
        assert(keys.push(key).drop_last() =~= keys);
        assert(buckets_for(items.push(item), keys.push(key), chosen).drop_last() =~= buckets_for(
            items.push(item),
            keys.push(key),
            front,
        ));
        assert(buckets_for(items, keys, chosen).drop_last() =~= buckets_for(items, keys, front));
    }
}

/// One more item adds at most one member to the buckets of keys none of
/// which is chosen twice.
proof fn lemma_total_step<K>(items: Seq<usize>, keys: Seq<K>, item: usize, key: K, chosen: Seq<K>)
    requires
        items.len() == keys.len(),
        chosen.no_duplicates(),
    ensures
        members_total(buckets_for(items.push(item), keys.push(key), chosen)) <= members_total(
            buckets_for(items, keys, chosen),
        ) + 1,
    decreases chosen.len(),
{
    if chosen.len() > 0 {
        let front = chosen.drop_last();
        assert(items.push(item).drop_last() =~= items);
        assert(keys.push(key).drop_last() =~= keys);
        assert(buckets_for(items.push(item), keys.push(key), chosen).drop_last() =~= buckets_for(
            items.push(item),
            keys.push(key),
            front,
        ));
        assert(buckets_for(items, keys, chosen).drop_last() =~= buckets_for(items, keys, front));
        if chosen.last() == key {
            assert(!front.contains(key)) by {
                if front.contains(key) {
                    let i = choose|i: int| 0 <= i < front.len() && front[i] == key;
                    assert(chosen[i] == chosen[chosen.len() - 1]);
                }
            }
            lemma_total_absent(items, keys, item, key, front);
        } else {
            lemma_total_step(items, keys, item, key, front);
        }
    }
}

/// One more item adds exactly one member to the buckets of keys none of
/// which is chosen twice and one of which is its key.
proof fn lemma_total_step_chosen<K>(
    items: Seq<usize>,
    keys: Seq<K>,
    item: usize,
    key: K,
    chosen: Seq<K>,
)
    requires
        items.len() == keys.len(),
        chosen.no_duplicates(),
        chosen.contains(key),
    ensures
        members_total(buckets_for(items.push(item), keys.push(key), chosen)) == members_total(
            buckets_for(items, keys, chosen),
        ) + 1,
    decreases chosen.len(),
{
    let front = chosen.drop_last();
    assert(items.push(item).drop_last() =~= items);
    assert(keys.push(key).drop_last() =~= keys);
    assert(buckets_for(items.push(item), keys.push(key), chosen).drop_last() =~= buckets_for(
        items.push(item),
        keys.push(key),
        front,
    ));
    assert(buckets_for(items, keys, chosen).drop_last() =~= buckets_for(items, keys, front));
    if chosen.last() == key {
        assert(!front.contains(key)) by {
            if front.contains(key) {
                let i = choose|i: int| 0 <= i < front.len() && front[i] == key;
                assert(chosen[i] == chosen[chosen.len() - 1]);
            }
        }
        lemma_total_absent(items, keys, item, key, front);
    } else {
        let i = choose|i: int| 0 <= i < chosen.len() && chosen[i] == key;
        assert(front[i] == key);
        lemma_total_step_chosen(items, keys, item, key, front);
    }
}

/// The buckets of keys none of which is chosen twice, and among which the
/// key of every item is, have as many members as there are items.
pub proof fn lemma_total_exact<K>(items: Seq<usize>, keys: Seq<K>, chosen: Seq<K>)
    requires
        items.len() == keys.len(),
        chosen.no_duplicates(),
        forall|p: int| 0 <= p < keys.len() ==> chosen.contains(#[trigger] keys[p]),
    ensures
        members_total(buckets_for(items, keys, chosen)) == items.len(),
    decreases items.len(),
{
    if items.len() == 0 {
        assert(items =~= Seq::<usize>::empty());
        lemma_total_none(keys, chosen);
    } else {
        let front_keys = keys.drop_last();
        assert forall|p: int| 0 <= p < front_keys.len() implies chosen.contains(
            #[trigger] front_keys[p],
        ) by {
            assert(front_keys[p] == keys[p]);
        }
        lemma_total_exact(items.drop_last(), front_keys, chosen);
        assert(chosen.contains(keys[keys.len() - 1]));
        lemma_total_step_chosen(
            items.drop_last(),
            front_keys,
            items.last(),
            keys.last(),
            chosen,
        );
        assert(items.drop_last().push(items.last()) =~= items);
        assert(front_keys.push(keys.last()) =~= keys);
    }
}

/// Buckets of no items have no members.
proof fn lemma_total_none<K>(keys: Seq<K>, chosen: Seq<K>)
    ensures
        members_total(buckets_for(Seq::<usize>::empty(), keys, chosen)) == 0,
    decreases chosen.len(),
{
    if chosen.len() > 0 {
        let front = chosen.drop_last();
        lemma_total_none(keys, front);
        assert(buckets_for(Seq::<usize>::empty(), keys, chosen).drop_last() =~= buckets_for(
            Seq::<usize>::empty(),
            keys,
            front,
        ));
    }
}

/// The buckets of keys none of which is chosen twice have no more members
/// than there are items.
pub proof fn lemma_total_bound<K>(items: Seq<usize>, keys: Seq<K>, chosen: Seq<K>)
    requires
        items.len() == keys.len(),
        chosen.no_duplicates(),
    ensures
        members_total(buckets_for(items, keys, chosen)) <= items.len(),
    decreases items.len(),
{
    if items.len() == 0 {
        assert(items =~= Seq::<usize>::empty());
        lemma_total_none(keys, chosen);
    } else {
        lemma_total_bound(items.drop_last(), keys.drop_last(), chosen);
        lemma_total_step(items.drop_last(), keys.drop_last(), items.last(), keys.last(), chosen);
        assert(items.drop_last().push(items.last()) =~= items);
        assert(keys.drop_last().push(keys.last()) =~= keys);
    }
}

/// The groups of some content buckets waste no more than their size for
/// each member of the buckets.
proof fn lemma_content_waste(size: u64, hash: u64, buckets: Seq<(Seq<u8>, Seq<usize>)>)
    ensures
        waste(content_groups(size, hash, buckets)) <= size * members_total(buckets),
    decreases buckets.len(),
{
    if buckets.len() > 0 {
        let front = buckets.drop_last();
        lemma_content_waste(size, hash, front);
        let count = buckets.last().1.len();
        let before = members_total(front);
        assert(size * before + size * count == size * (before + count)) by (nonlinear_arith);
        if count > 1 {
            let group = GroupModel { size, hash, members: buckets.last().1 };
            let earlier = content_groups(size, hash, front);
            assert(earlier.push(group).drop_last() =~= earlier);
            assert(size * ((count - 1) as nat) <= size * count) by (nonlinear_arith)
                requires
                    count > 1,
                    size >= 0,
            ;
        } else {
            assert(0 <= size * count) by (nonlinear_arith)
                requires
                    size >= 0,
                    count >= 0,
            ;
        }
    }
}

/// The groups among files of one size and hash waste no more than that size
/// for each of the files.
pub proof fn lemma_by_content_waste(
    size: u64,
    hash: u64,
    members: Seq<usize>,
    contents: Seq<Seq<u8>>,
)
    ensures
        waste(groups_by_content(size, hash, members, contents)) <= size * members.len(),
{
    let keys = keys_at(contents, members);
    lemma_content_waste(size, hash, partition(members, keys));
    lemma_distinct(keys);
    lemma_total_bound(members, keys, distinct(keys));
    let total = members_total(partition(members, keys));
    assert(size * total <= size * members.len()) by (nonlinear_arith)
        requires
            total <= members.len(),
            size >= 0,
    ;
}

/// The groups of some hash buckets waste no more than their size for each
/// member of the buckets.
proof fn lemma_hash_waste(size: u64, buckets: Seq<(u64, Seq<usize>)>, contents: Seq<Seq<u8>>)
    ensures
        waste(hash_groups(size, buckets, contents)) <= size * members_total(buckets),
    decreases buckets.len(),
{
    if buckets.len() > 0 {
        let front = buckets.drop_last();
        lemma_hash_waste(size, front, contents);
        let count = buckets.last().1.len();
        let before = members_total(front);
        assert(size * before + size * count == size * (before + count)) by (nonlinear_arith);
        assert(0 <= size * count) by (nonlinear_arith)
            requires
                size >= 0,
                count >= 0,
        ;
        if count > 1 {
            lemma_by_content_waste(size, buckets.last().0, buckets.last().1, contents);
            lemma_waste_add(
                hash_groups(size, front, contents),
                groups_by_content(size, buckets.last().0, buckets.last().1, contents),
            );
        }
    }
}

/// The groups among files of one size waste no more than that size for each
/// of the files.
pub proof fn lemma_by_hash_waste(
    size: u64,
    members: Seq<usize>,
    hashes: Seq<u64>,
    contents: Seq<Seq<u8>>,
)
    ensures
        waste(groups_by_hash(size, members, hashes, contents)) <= size * members.len(),
{
    let keys = keys_at(hashes, members);
    lemma_hash_waste(size, partition(members, keys), contents);
    lemma_distinct(keys);
    lemma_total_bound(members, keys, distinct(keys));
    let total = members_total(partition(members, keys));
    assert(size * total <= size * members.len()) by (nonlinear_arith)
        requires
            total <= members.len(),
            size >= 0,
    ;
}

/// The bytes of all members of all size groups together: for each group, its
/// size for each of its members.
pub open spec fn bytes_total(groups: Seq<(u64, Seq<usize>)>) -> nat
    decreases groups.len(),
{
    if groups.len() == 0 {
        0
    } else {
        bytes_total(groups.drop_last()) + (groups.last().0 * groups.last().1.len()) as nat
    }
}

/// A size that is not among the chosen ones adds nothing to their groups.
proof fn lemma_bytes_absent(
    items: Seq<usize>,
    sizes: Seq<u64>,
    item: usize,
    size: u64,
    chosen: Seq<u64>,
)
    requires
        items.len() == sizes.len(),
        !chosen.contains(size),
    ensures
        bytes_total(buckets_for(items.push(item), sizes.push(size), chosen)) == bytes_total(
            buckets_for(items, sizes, chosen),
        ),
    decreases chosen.len(),
{
    if chosen.len() > 0 {
        let front = chosen.drop_last();
        assert(!front.contains(size)) by {
            if front.contains(size) {
                let i = choose|i: int| 0 <= i < front.len() && front[i] == size;
                assert(chosen[i] == size);
            }
        }
        assert(chosen[chosen.len() - 1] != size);
        lemma_bytes_absent(items, sizes, item, size, front);
        assert(items.push(item).drop_last() =~= items);
        assert(sizes.push(size).drop_last() =~= sizes);
        assert(buckets_for(items.push(item), sizes.push(size), chosen).drop_last() =~= buckets_for(
            items.push(item),
            sizes.push(size),
            front,
        ));
        assert(buckets_for(items, sizes, chosen).drop_last() =~= buckets_for(items, sizes, front));
    }
}

/// One more file adds its size to the groups of sizes none of which is
/// chosen twice and one of which is its own.
proof fn lemma_bytes_step(
    items: Seq<usize>,
    sizes: Seq<u64>,
    item: usize,
    size: u64,
    chosen: Seq<u64>,
)
    requires
        items.len() == sizes.len(),
        chosen.no_duplicates(),
        chosen.contains(size),
    ensures
        bytes_total(buckets_for(items.push(item), sizes.push(size), chosen)) == bytes_total(
            buckets_for(items, sizes, chosen),
        ) + size,
    decreases chosen.len(),
{
    let front = chosen.drop_last();
    assert(items.push(item).drop_last() =~= items);
    assert(sizes.push(size).drop_last() =~= sizes);
    assert(buckets_for(items.push(item), sizes.push(size), chosen).drop_last() =~= buckets_for(
        items.push(item),
        sizes.push(size),
        front,
    ));
    assert(buckets_for(items, sizes, chosen).drop_last() =~= buckets_for(items, sizes, front));
    if chosen.last() == size {
        assert(!front.contains(size)) by {
            if front.contains(size) {
                let i = choose|i: int| 0 <= i < front.len() && front[i] == size;
                assert(chosen[i] == chosen[chosen.len() - 1]);
            }
        }
        lemma_bytes_absent(items, sizes, item, size, front);
        let count = select(items, sizes, size).len();
        assert(size * (count + 1) == size * count + size) by (nonlinear_arith);
    } else {
        let i = choose|i: int| 0 <= i < chosen.len() && chosen[i] == size;
        assert(front[i] == size);
        lemma_bytes_step(items, sizes, item, size, front);
    }
}

/// Groups of no files hold no bytes.
proof fn lemma_bytes_none(sizes: Seq<u64>, chosen: Seq<u64>)
    ensures
        bytes_total(buckets_for(Seq::<usize>::empty(), sizes, chosen)) == 0,
    decreases chosen.len(),
{
    if chosen.len() > 0 {
        let front = chosen.drop_last();
        lemma_bytes_none(sizes, front);
        assert(buckets_for(Seq::<usize>::empty(), sizes, chosen).drop_last() =~= buckets_for(
            Seq::<usize>::empty(),
            sizes,
            front,
        ));
        let last = buckets_for(Seq::<usize>::empty(), sizes, chosen).last();
        assert(last.1.len() == 0);
        assert(last.0 * last.1.len() == 0) by (nonlinear_arith)
            requires
                last.1.len() == 0,
        ;
    }
}

/// The groups of sizes none of which is chosen twice, and among which the
/// size of every file is, hold the bytes of all files.
proof fn lemma_bytes_exact(items: Seq<usize>, sizes: Seq<u64>, chosen: Seq<u64>)
    requires
        items.len() == sizes.len(),
        chosen.no_duplicates(),
        forall|p: int| 0 <= p < sizes.len() ==> chosen.contains(#[trigger] sizes[p]),
    ensures
        bytes_total(buckets_for(items, sizes, chosen)) == total_size(sizes),
    decreases items.len(),
{
    if items.len() == 0 {
        assert(items =~= Seq::<usize>::empty());
        lemma_bytes_none(sizes, chosen);
    } else {
        let front_sizes = sizes.drop_last();
        assert forall|p: int| 0 <= p < front_sizes.len() implies chosen.contains(
            #[trigger] front_sizes[p],
        ) by {
            assert(front_sizes[p] == sizes[p]);
        }
        lemma_bytes_exact(items.drop_last(), front_sizes, chosen);
        assert(chosen.contains(sizes[sizes.len() - 1]));
        lemma_bytes_step(items.drop_last(), front_sizes, items.last(), sizes.last(), chosen);
        assert(items.drop_last().push(items.last()) =~= items);
        assert(front_sizes.push(sizes.last()) =~= sizes);
    }
}

/// The groups of some size groups waste no more than the bytes of the
/// members of the size groups.
proof fn lemma_size_waste_bytes(
    groups: Seq<(u64, Seq<usize>)>,
    hashes: Seq<u64>,
    contents: Seq<Seq<u8>>,
)
    ensures
        waste(size_stage(groups, hashes, contents)) <= bytes_total(groups),
    decreases groups.len(),
{
    if groups.len() > 0 {
        let front = groups.drop_last();
        lemma_size_waste_bytes(front, hashes, contents);
        let size = groups.last().0;
        let count = groups.last().1.len();
        assert(0 <= size * count) by (nonlinear_arith)
            requires
                size >= 0,
                count >= 0,
        ;
        if count > 1 {
            lemma_by_hash_waste(size, groups.last().1, hashes, contents);
            lemma_waste_add(
                size_stage(front, hashes, contents),
                groups_by_hash(size, groups.last().1, hashes, contents),
            );
        }
    }
}

/// Whatever the hashes and contents, the duplicates among files waste no
/// more than the files take up.
pub proof fn lemma_waste_within_total(sizes: Seq<u64>, hashes: Seq<u64>, contents: Seq<Seq<u8>>)
    ensures
        waste(size_stage(size_groups(sizes), hashes, contents)) <= total_size(sizes),
{
    lemma_size_waste_bytes(size_groups(sizes), hashes, contents);
    lemma_ascending(sizes);
    lemma_increasing_no_duplicates(ascending(sizes));
    assert forall|p: int| 0 <= p < sizes.len() implies ascending(sizes).contains(
        #[trigger] sizes[p],
    ) by {
        assert(sizes.contains(sizes[p]));
    }
    lemma_bytes_exact(positions(sizes.len()), sizes, ascending(sizes));
}

/// An increasing list holds no size twice.
proof fn lemma_increasing_no_duplicates(list: Seq<u64>)
    requires
        increasing(list),
    ensures
        list.no_duplicates(),
{
    assert forall|g: int, h: int| 0 <= g < list.len() && 0 <= h < list.len() && g != h implies list[g]
        != list[h] by {
        if g < h {
            assert(list[g] < list[h]);
        } else {
            assert(list[h] < list[g]);
        }
    }
}

} // verus!
