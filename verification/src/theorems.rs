//! What holds of every scan, proved from the definitions of the stages.

use crate::partition::{distinct, lemma_bucket, lemma_distinct, may_return, partition};
use crate::record::{keys_at, rising, sizes_of, FileRecord};
use crate::scan::{
    content_groups, duplicates, groups_by_content, groups_by_hash, hash_groups, learned,
    lemma_hash_groups_frame, lemma_size_group, shares_hash, shares_size, size_stage, GroupModel,
};
use crate::sizes::size_groups;
use crate::waste::{group_waste, lemma_total_exact, members_total, waste};
use vstd::prelude::*;

verus! {

/// The size groups are a partition of the files: a group holds files of its
/// own size only, every file is in a group, and no file is in two groups or
/// twice in one.
pub proof fn size_groups_hold_each_file_once(sizes: Seq<u64>, i: int)
    requires
        sizes.len() <= usize::MAX,
        0 <= i < sizes.len(),
    ensures
        forall|g: int, p: int|
            0 <= g < size_groups(sizes).len() && 0 <= p < size_groups(sizes)[g].1.len() ==> (
            #[trigger] size_groups(sizes)[g].1[p]) < sizes.len() && sizes[size_groups(
                sizes,
            )[g].1[p] as int] == size_groups(sizes)[g].0,
        exists|g: int, p: int|
            0 <= g < size_groups(sizes).len() && 0 <= p < size_groups(sizes)[g].1.len()
                && #[trigger] size_groups(sizes)[g].1[p] == i,
        forall|g: int, p: int, h: int, q: int|
            0 <= g < size_groups(sizes).len() && 0 <= p < size_groups(sizes)[g].1.len() && 0 <= h
                < size_groups(sizes).len() && 0 <= q < size_groups(sizes)[h].1.len()
                && #[trigger] size_groups(sizes)[g].1[p] == #[trigger] size_groups(sizes)[h].1[q]
                ==> g == h && p == q,
{
    let groups = size_groups(sizes);
    assert forall|g: int, p: int| 0 <= g < groups.len() && 0 <= p < groups[g].1.len() implies (
    #[trigger] groups[g].1[p]) < sizes.len() && sizes[groups[g].1[p] as int] == groups[g].0 by {
        lemma_size_group(sizes, g);
        assert(groups[g].1.contains(groups[g].1[p]));
    }
    assert(exists|g: int, p: int|
        0 <= g < groups.len() && 0 <= p < groups[g].1.len() && #[trigger] groups[g].1[p] == i) by {
        crate::sizes::lemma_ascending(sizes);
        assert(sizes.contains(sizes[i]));
        let order = crate::sizes::ascending(sizes);
        assert(order.contains(sizes[i]));
        let g = choose|g: int| 0 <= g < order.len() && order[g] == sizes[i];
        lemma_size_group(sizes, g);
        assert(groups[g].1.contains(i as usize));
        let p = choose|p: int| 0 <= p < groups[g].1.len() && groups[g].1[p] == i as usize;
        assert(groups[g].1[p] == i);
    }
    assert forall|g: int, p: int, h: int, q: int|
        0 <= g < groups.len() && 0 <= p < groups[g].1.len() && 0 <= h < groups.len() && 0 <= q
            < groups[h].1.len() && #[trigger] groups[g].1[p] == #[trigger] groups[h].1[
            q
        ] implies g == h && p == q by {
        lemma_size_group(sizes, g);
        lemma_size_group(sizes, h);
        assert(groups[g].1.contains(groups[g].1[p]));
        assert(groups[h].1.contains(groups[h].1[q]));
        if g == h && p != q {
            if p < q {
                assert(groups[g].1[p] < groups[g].1[q]);
            } else {
                assert(groups[g].1[q] < groups[g].1[p]);
            }
        }
    }
}

/// The size groups have as many members, all together, as there are files.
pub proof fn size_groups_count_every_file(sizes: Seq<u64>)
    ensures
        members_total(size_groups(sizes)) == sizes.len(),
{
    crate::sizes::lemma_ascending(sizes);
    let order = crate::sizes::ascending(sizes);
    assert forall|g: int, h: int| 0 <= g < order.len() && 0 <= h < order.len() && g != h implies order[g]
        != order[h] by {
        if g < h {
            assert(order[g] < order[h]);
        } else {
            assert(order[h] < order[g]);
        }
    }
    assert forall|p: int| 0 <= p < sizes.len() implies order.contains(#[trigger] sizes[p]) by {
        assert(sizes.contains(sizes[p]));
    }
    lemma_total_exact(crate::record::positions(sizes.len()), sizes, order);
}

/// The buckets of a partition have as many members, all together, as there
/// are items.
pub proof fn partition_counts_every_item<K>(items: Seq<usize>, keys: Seq<K>)
    requires
        items.len() == keys.len(),
    ensures
        members_total(partition(items, keys)) == items.len(),
{
    lemma_distinct(keys);
    assert forall|p: int| 0 <= p < keys.len() implies distinct(keys).contains(
        #[trigger] keys[p],
    ) by {
        assert(keys.contains(keys[p]));
    }
    lemma_total_exact(items, keys, distinct(keys));
}

/// A partition of rising positions holds each of them once: the position at
/// place `p` is in the bucket of its key and in no other, and a bucket holds
/// no position twice.
pub proof fn partition_holds_each_item_once<K>(items: Seq<usize>, keys: Seq<K>, p: int)
    requires
        items.len() == keys.len(),
        rising(items),
        0 <= p < items.len(),
    ensures
        exists|g: int|
            0 <= g < partition(items, keys).len() && (#[trigger] partition(items, keys)[g]).0
                == keys[p] && partition(items, keys)[g].1.contains(items[p]),
        forall|g: int|
            0 <= g < partition(items, keys).len() && (#[trigger] partition(items, keys)[g]).1.contains(
                items[p],
            ) ==> partition(items, keys)[g].0 == keys[p] && rising(partition(items, keys)[g].1),
        forall|g: int, h: int|
            0 <= g < partition(items, keys).len() && 0 <= h < partition(items, keys).len() && (
            #[trigger] partition(items, keys)[g]).0 == (#[trigger] partition(items, keys)[h]).0
                ==> g == h,
{
    let buckets = partition(items, keys);
    lemma_distinct(keys);
    assert(keys.contains(keys[p]));
    assert(distinct(keys).contains(keys[p]));
    let at = choose|g: int| 0 <= g < distinct(keys).len() && distinct(keys)[g] == keys[p];
    lemma_bucket(items, keys, at);
    assert(buckets[at].0 == keys[p] && buckets[at].1.contains(items[p]));
    assert forall|g: int| 0 <= g < buckets.len() && (#[trigger] buckets[g]).1.contains(
        items[p],
    ) implies buckets[g].0 == keys[p] && rising(buckets[g].1) by {
        lemma_bucket(items, keys, g);
        let q = choose|q: int| 0 <= q < items.len() && items[q] == items[p] && keys[q] == buckets[g].0;
        assert(q == p) by {
            if q < p {
                assert(items[q] < items[p]);
            }
            if p < q {
                assert(items[p] < items[q]);
            }
        }
    }
}

/// A group of `k` members of size `s` wastes `s * (k - 1)` bytes, and a list
/// of groups what its groups waste together.
pub proof fn waste_is_size_times_spare_copies(groups: Seq<GroupModel>, group: GroupModel)
    requires
        group.members.len() >= 1,
    ensures
        group_waste(group) == group.size * (group.members.len() - 1),
        waste(Seq::<GroupModel>::empty()) == 0,
        waste(groups.push(group)) == waste(groups) + group.size * (group.members.len() - 1),
{
    assert(groups.push(group).drop_last() =~= groups);
    assert(group.size * (group.members.len() - 1) >= 0) by (nonlinear_arith)
        requires
            group.size >= 0,
            group.members.len() >= 1,
    ;
}

/// A file that shares its size with no other file is never hashed, and one
/// that shares size and hash with no other is never read, so what their hash
/// or content would be plays no part: tables that agree on the hashes of the
/// files that share their size, and on the contents of the files that share
/// size and hash, give the same duplicates.
pub proof fn unshared_files_play_no_part(
    files: Seq<FileRecord>,
    hashes: Seq<u64>,
    contents: Seq<Seq<u8>>,
    other_hashes: Seq<u64>,
    other_contents: Seq<Seq<u8>>,
)
    requires
        files.len() <= usize::MAX,
        hashes.len() == files.len(),
        contents.len() == files.len(),
        other_hashes.len() == files.len(),
        other_contents.len() == files.len(),
        forall|i: int|
            0 <= i < files.len() && #[trigger] shares_size(files, i) ==> hashes[i]
                == other_hashes[i],
        forall|i: int|
            0 <= i < files.len() && #[trigger] shares_hash(files, hashes, i) ==> contents[i]
                == other_contents[i],
    ensures
        duplicates(sizes_of(files), hashes, contents) == duplicates(
            sizes_of(files),
            other_hashes,
            other_contents,
        ),
{
    let sizes = sizes_of(files);
    let groups = size_groups(sizes);
    assert forall|g: int| 0 <= g < groups.len() && (#[trigger] groups[g]).1.len() > 1 implies groups_by_hash(
        groups[g].0,
        groups[g].1,
        hashes,
        contents,
    ) == groups_by_hash(groups[g].0, groups[g].1, other_hashes, other_contents) by {
        let members = groups[g].1;
        lemma_size_group(sizes, g);
        assert forall|p: int| 0 <= p < members.len() implies hashes[members[p] as int]
            == other_hashes[members[p] as int] by {
            let q = if p == 0 {
                1int
            } else {
                0int
            };
            assert(members.contains(members[p]));
            assert(members.contains(members[q]));
            assert(files[members[q] as int].size == files[members[p] as int].size);
            assert(shares_size(files, members[p] as int));
        }
        assert(keys_at(hashes, members) =~= keys_at(other_hashes, members));
        let keys = keys_at(hashes, members);
        let buckets = partition(members, keys);
        assert forall|b: int| 0 <= b < buckets.len() && (#[trigger] buckets[b]).1.len() > 1 implies keys_at(
            contents,
            buckets[b].1,
        ) == keys_at(other_contents, buckets[b].1) by {
            let bucket = buckets[b].1;
            lemma_bucket(members, keys, b);
            assert forall|r: int| 0 <= r < bucket.len() implies contents[bucket[r] as int]
                == other_contents[bucket[r] as int] by {
                let t = if r == 0 {
                    1int
                } else {
                    0int
                };
                let x = bucket[r];
                let y = bucket[t];
                assert(bucket.contains(x));
                assert(bucket.contains(y));
                let px = choose|p: int|
                    0 <= p < members.len() && members[p] == x && keys[p] == buckets[b].0;
                let py = choose|p: int|
                    0 <= p < members.len() && members[p] == y && keys[p] == buckets[b].0;
                assert(members.contains(x));
                assert(members.contains(y));
                assert(hashes[x as int] == keys[px]);
                assert(hashes[y as int] == keys[py]);
                assert(files[y as int].size == files[x as int].size);
                assert(x != y) by {
                    if r < t {
                        assert(bucket[r] < bucket[t]);
                    } else {
                        assert(bucket[t] < bucket[r]);
                    }
                }
                assert(shares_hash(files, hashes, x as int));
            }
            assert(keys_at(contents, bucket) =~= keys_at(other_contents, bucket));
        }
        lemma_hash_groups_frame(groups[g].0, buckets, contents, other_contents);
    }
    lemma_size_stage_same(groups, hashes, contents, other_hashes, other_contents);
}

/// Whether `f` gives one answer only for `item`.
pub open spec fn single_valued<T, K: View, F: Fn(&T) -> K>(f: F, item: T) -> bool {
    forall|a: K::V, b: K::V| may_return(f, item, a) && may_return(f, item, b) ==> a == b
}

/// Two scans of the same files find the same duplicates, if hashing and
/// reading give one answer only for each file that is hashed or read:
/// whatever the one scan learned and whatever the other, the duplicates are
/// the same.
pub proof fn same_answers_same_duplicates<H: Fn(&FileRecord) -> u64, C: Fn(&FileRecord) -> Vec<u8>>(
    hash_of: H,
    content_of: C,
    files: Seq<FileRecord>,
    hashes: Seq<u64>,
    contents: Seq<Seq<u8>>,
    other_hashes: Seq<u64>,
    other_contents: Seq<Seq<u8>>,
)
    requires
        files.len() <= usize::MAX,
        learned(hash_of, content_of, files, hashes, contents),
        learned(hash_of, content_of, files, other_hashes, other_contents),
        forall|i: int|
            0 <= i < files.len() && shares_size(files, i) ==> #[trigger] single_valued(
                hash_of,
                files[i],
            ),
        forall|i: int|
            0 <= i < files.len() && shares_hash(files, hashes, i) ==> #[trigger] single_valued(
                content_of,
                files[i],
            ),
    ensures
        duplicates(sizes_of(files), hashes, contents) == duplicates(
            sizes_of(files),
            other_hashes,
            other_contents,
        ),
{
    assert forall|i: int| 0 <= i < files.len() && #[trigger] shares_size(files, i) implies hashes[i]
        == other_hashes[i] by {
        assert(single_valued(hash_of, files[i]));
    }
    assert forall|i: int|
        0 <= i < files.len() && #[trigger] shares_hash(files, hashes, i) implies contents[i]
        == other_contents[i] by {
        let j = choose|j: int|
            0 <= j < files.len() && j != i && (#[trigger] files[j]).size == files[i].size
                && hashes[j] == hashes[i];
        assert(shares_size(files, i));
        assert(files[i].size == files[j].size);
        assert(shares_size(files, j));
        assert(other_hashes[j] == other_hashes[i]);
        assert(shares_hash(files, other_hashes, i));
        assert(single_valued(content_of, files[i]));
    }
    unshared_files_play_no_part(files, hashes, contents, other_hashes, other_contents);
}

/// Size groups give the same groups under two pairs of tables if each of
/// them with more than one member does.
proof fn lemma_size_stage_same(
    groups: Seq<(u64, Seq<usize>)>,
    hashes: Seq<u64>,
    contents: Seq<Seq<u8>>,
    other_hashes: Seq<u64>,
    other_contents: Seq<Seq<u8>>,
)
    requires
        forall|g: int|
            0 <= g < groups.len() && (#[trigger] groups[g]).1.len() > 1 ==> groups_by_hash(
                groups[g].0,
                groups[g].1,
                hashes,
                contents,
            ) == groups_by_hash(groups[g].0, groups[g].1, other_hashes, other_contents),
    ensures
        size_stage(groups, hashes, contents) == size_stage(groups, other_hashes, other_contents),
    decreases groups.len(),
{
    if groups.len() > 0 {
        let front = groups.drop_last();
        assert forall|g: int| 0 <= g < front.len() && (#[trigger] front[g]).1.len() > 1 implies groups_by_hash(
            front[g].0,
            front[g].1,
            hashes,
            contents,
        ) == groups_by_hash(front[g].0, front[g].1, other_hashes, other_contents) by {
            assert(front[g] == groups[g]);
        }
        lemma_size_stage_same(front, hashes, contents, other_hashes, other_contents);
        assert(groups.last() == groups[groups.len() - 1]);
    }
}

/// The parts one after another.
pub open spec fn joined<A>(parts: Seq<Seq<A>>) -> Seq<A>
    decreases parts.len(),
{
    if parts.len() == 0 {
        Seq::empty()
    } else {
        joined(parts.drop_last()) + parts.last()
    }
}

/// Every entry of the joined parts is an entry of a part.
proof fn lemma_joined_one<A>(parts: Seq<Seq<A>>, j: int)
    requires
        0 <= j < joined(parts).len(),
    ensures
        exists|b: int, i: int|
            0 <= b < parts.len() && 0 <= i < parts[b].len() && joined(parts)[j] == #[trigger] parts[b][i],
    decreases parts.len(),
{
    let front = parts.drop_last();
    if j < joined(front).len() {
        lemma_joined_one(front, j);
        let (b, i) = choose|b: int, i: int|
            0 <= b < front.len() && 0 <= i < front[b].len() && joined(front)[j] == #[trigger] front[b][i];
        assert(joined(parts)[j] == parts[b][i]);
    } else {
        let b = parts.len() - 1;
        let i = j - joined(front).len();
        assert(joined(parts)[j] == parts[b][i]);
    }
}

/// Of two entries of the joined parts, the earlier is from an earlier part,
/// or from an earlier place of the same part.
proof fn lemma_joined_pair<A>(parts: Seq<Seq<A>>, j: int, k: int)
    requires
        0 <= j < k < joined(parts).len(),
    ensures
        exists|b: int, i: int, c: int, h: int|
            0 <= b < parts.len() && 0 <= i < parts[b].len() && 0 <= c < parts.len() && 0 <= h
                < parts[c].len() && joined(parts)[j] == #[trigger] parts[b][i] && joined(parts)[k]
                == #[trigger] parts[c][h] && (b < c || (b == c && i < h)),
    decreases parts.len(),
{
    let front = parts.drop_last();
    if k < joined(front).len() {
        lemma_joined_pair(front, j, k);
        let (b, i, c, h) = choose|b: int, i: int, c: int, h: int|
            0 <= b < front.len() && 0 <= i < front[b].len() && 0 <= c < front.len() && 0 <= h
                < front[c].len() && joined(front)[j] == #[trigger] front[b][i] && joined(front)[k]
                == #[trigger] front[c][h] && (b < c || (b == c && i < h));
        assert(joined(parts)[j] == parts[b][i] && joined(parts)[k] == parts[c][h]);
    } else if j < joined(front).len() {
        lemma_joined_one(front, j);
        let (b, i) = choose|b: int, i: int|
            0 <= b < front.len() && 0 <= i < front[b].len() && joined(front)[j] == #[trigger] front[b][i];
        let c = parts.len() - 1;
        let h = k - joined(front).len();
        assert(joined(parts)[j] == parts[b][i] && joined(parts)[k] == parts[c][h]);
    } else {
        let c = parts.len() - 1;
        let i = j - joined(front).len();
        let h = k - joined(front).len();
        assert(joined(parts)[j] == parts[c][i] && joined(parts)[k] == parts[c][h]);
    }
}

/// Every entry of a part is an entry of the joined parts.
proof fn lemma_joined_has<A>(parts: Seq<Seq<A>>, b: int, i: int)
    requires
        0 <= b < parts.len(),
        0 <= i < parts[b].len(),
    ensures
        exists|j: int| 0 <= j < joined(parts).len() && #[trigger] joined(parts)[j] == parts[b][i],
    decreases parts.len(),
{
    let front = parts.drop_last();
    if b < front.len() {
        lemma_joined_has(front, b, i);
        let j = choose|j: int| 0 <= j < joined(front).len() && #[trigger] joined(front)[j] == front[b][i];
        assert(joined(parts)[j] == parts[b][i]);
    } else {
        let j = joined(front).len() + i;
        assert(joined(parts)[j] == parts[b][i]);
    }
}

/// What each content bucket gives: a group if it has more than one member.
pub open spec fn content_parts(size: u64, hash: u64, buckets: Seq<(Seq<u8>, Seq<usize>)>) -> Seq<
    Seq<GroupModel>,
> {
    Seq::new(
        buckets.len(),
        |b: int|
            if buckets[b].1.len() > 1 {
                seq![GroupModel { size, hash, members: buckets[b].1 }]
            } else {
                Seq::empty()
            },
    )
}

/// What each hash bucket gives: its groups by content if it has more than
/// one member.
pub open spec fn hash_parts(size: u64, buckets: Seq<(u64, Seq<usize>)>, contents: Seq<Seq<u8>>) -> Seq<
    Seq<GroupModel>,
> {
    Seq::new(
        buckets.len(),
        |b: int|
            if buckets[b].1.len() > 1 {
                groups_by_content(size, buckets[b].0, buckets[b].1, contents)
            } else {
                Seq::empty()
            },
    )
}

/// What each size group gives: its groups by hash if it has more than one
/// member.
pub open spec fn size_parts(
    groups: Seq<(u64, Seq<usize>)>,
    hashes: Seq<u64>,
    contents: Seq<Seq<u8>>,
) -> Seq<Seq<GroupModel>> {
    Seq::new(
        groups.len(),
        |g: int|
            if groups[g].1.len() > 1 {
                groups_by_hash(groups[g].0, groups[g].1, hashes, contents)
            } else {
                Seq::empty()
            },
    )
}

proof fn lemma_content_groups_joined(size: u64, hash: u64, buckets: Seq<(Seq<u8>, Seq<usize>)>)
    ensures
        content_groups(size, hash, buckets) == joined(content_parts(size, hash, buckets)),
    decreases buckets.len(),
{
    if buckets.len() > 0 {
        let front = buckets.drop_last();
        lemma_content_groups_joined(size, hash, front);
        assert(content_parts(size, hash, buckets).drop_last() =~= content_parts(size, hash, front));
        assert(content_groups(size, hash, buckets) =~= joined(content_parts(size, hash, buckets)));
    }
}

proof fn lemma_hash_groups_joined(size: u64, buckets: Seq<(u64, Seq<usize>)>, contents: Seq<Seq<u8>>)
    ensures
        hash_groups(size, buckets, contents) == joined(hash_parts(size, buckets, contents)),
    decreases buckets.len(),
{
    if buckets.len() > 0 {
        let front = buckets.drop_last();
        lemma_hash_groups_joined(size, front, contents);
        assert(hash_parts(size, buckets, contents).drop_last() =~= hash_parts(size, front, contents));
        assert(hash_groups(size, buckets, contents) =~= joined(hash_parts(size, buckets, contents)));
    }
}

proof fn lemma_size_stage_joined(
    groups: Seq<(u64, Seq<usize>)>,
    hashes: Seq<u64>,
    contents: Seq<Seq<u8>>,
)
    ensures
        size_stage(groups, hashes, contents) == joined(size_parts(groups, hashes, contents)),
    decreases groups.len(),
{
    if groups.len() > 0 {
        let front = groups.drop_last();
        lemma_size_stage_joined(front, hashes, contents);
        assert(size_parts(groups, hashes, contents).drop_last() =~= size_parts(
            front,
            hashes,
            contents,
        ));
        assert(size_stage(groups, hashes, contents) =~= joined(size_parts(groups, hashes, contents)));
    }
}

/// The hash buckets of the size group at place `g`.
pub open spec fn hash_buckets_in(sizes: Seq<u64>, hashes: Seq<u64>, g: int) -> Seq<
    (u64, Seq<usize>),
> {
    partition(size_groups(sizes)[g].1, keys_at(hashes, size_groups(sizes)[g].1))
}

/// The content buckets of the hash bucket at place `b` of the size group at
/// place `g`.
pub open spec fn content_buckets_in(
    sizes: Seq<u64>,
    hashes: Seq<u64>,
    contents: Seq<Seq<u8>>,
    g: int,
    b: int,
) -> Seq<(Seq<u8>, Seq<usize>)> {
    partition(
        hash_buckets_in(sizes, hashes, g)[b].1,
        keys_at(contents, hash_buckets_in(sizes, hashes, g)[b].1),
    )
}

/// Whether `group` is what the content bucket at place `c` gives, in the
/// hash bucket at place `b`, in the size group at place `g`.
pub open spec fn stands_at(
    sizes: Seq<u64>,
    hashes: Seq<u64>,
    contents: Seq<Seq<u8>>,
    group: GroupModel,
    g: int,
    b: int,
    c: int,
) -> bool {
    let by_size = size_groups(sizes);
    let by_hash = hash_buckets_in(sizes, hashes, g);
    let by_content = content_buckets_in(sizes, hashes, contents, g, b);
    &&& 0 <= g < by_size.len() && by_size[g].1.len() > 1
    &&& 0 <= b < by_hash.len() && by_hash[b].1.len() > 1
    &&& 0 <= c < by_content.len() && by_content[c].1.len() > 1
    &&& group == GroupModel { size: by_size[g].0, hash: by_hash[b].0, members: by_content[c].1 }
}

/// A group that a hash bucket gives stands at a place in that bucket.
proof fn lemma_place_in_bucket(
    sizes: Seq<u64>,
    hashes: Seq<u64>,
    contents: Seq<Seq<u8>>,
    g: int,
    b: int,
    i: int,
)
    requires
        0 <= g < size_groups(sizes).len(),
        size_groups(sizes)[g].1.len() > 1,
        0 <= b < hash_buckets_in(sizes, hashes, g).len(),
        0 <= i < hash_parts(
            size_groups(sizes)[g].0,
            hash_buckets_in(sizes, hashes, g),
            contents,
        )[b].len(),
    ensures
        exists|c: int| #[trigger]
            stands_at(
                sizes,
                hashes,
                contents,
                hash_parts(size_groups(sizes)[g].0, hash_buckets_in(sizes, hashes, g), contents)[b][i],
                g,
                b,
                c,
            ),
{
    let by_size = size_groups(sizes);
    let by_hash = partition(by_size[g].1, keys_at(hashes, by_size[g].1));
    let by_content = partition(by_hash[b].1, keys_at(contents, by_hash[b].1));
    let group = hash_parts(by_size[g].0, by_hash, contents)[b][i];
    let parts = content_parts(by_size[g].0, by_hash[b].0, by_content);
    lemma_content_groups_joined(by_size[g].0, by_hash[b].0, by_content);
    lemma_joined_one(parts, i);
    let (c, h) = choose|c: int, h: int|
        0 <= c < parts.len() && 0 <= h < parts[c].len() && joined(parts)[i] == #[trigger] parts[c][h];
    assert(stands_at(sizes, hashes, contents, group, g, b, c));
}

/// A group that a size group gives stands at a place in that group.
proof fn lemma_place_in_group(
    sizes: Seq<u64>,
    hashes: Seq<u64>,
    contents: Seq<Seq<u8>>,
    g: int,
    i: int,
)
    requires
        0 <= g < size_groups(sizes).len(),
        0 <= i < size_parts(size_groups(sizes), hashes, contents)[g].len(),
    ensures
        exists|b: int, c: int| #[trigger]
            stands_at(
                sizes,
                hashes,
                contents,
                size_parts(size_groups(sizes), hashes, contents)[g][i],
                g,
                b,
                c,
            ),
{
    let by_size = size_groups(sizes);
    let by_hash = partition(by_size[g].1, keys_at(hashes, by_size[g].1));
    let group = size_parts(by_size, hashes, contents)[g][i];
    let parts = hash_parts(by_size[g].0, by_hash, contents);
    lemma_hash_groups_joined(by_size[g].0, by_hash, contents);
    lemma_joined_one(parts, i);
    let (b, h) = choose|b: int, h: int|
        0 <= b < parts.len() && 0 <= h < parts[b].len() && joined(parts)[i] == #[trigger] parts[b][h];
    lemma_place_in_bucket(sizes, hashes, contents, g, b, h);
    let c = choose|c: int| #[trigger] stands_at(sizes, hashes, contents, parts[b][h], g, b, c);
    assert(stands_at(sizes, hashes, contents, group, g, b, c));
}

/// Every duplicate group stands at a place.
pub proof fn lemma_place(sizes: Seq<u64>, hashes: Seq<u64>, contents: Seq<Seq<u8>>, j: int)
    requires
        0 <= j < duplicates(sizes, hashes, contents).len(),
    ensures
        exists|g: int, b: int, c: int| #[trigger]
            stands_at(sizes, hashes, contents, duplicates(sizes, hashes, contents)[j], g, b, c),
{
    let by_size = size_groups(sizes);
    let parts = size_parts(by_size, hashes, contents);
    lemma_size_stage_joined(by_size, hashes, contents);
    lemma_joined_one(parts, j);
    let (g, i) = choose|g: int, i: int|
        0 <= g < parts.len() && 0 <= i < parts[g].len() && joined(parts)[j] == #[trigger] parts[g][i];
    lemma_place_in_group(sizes, hashes, contents, g, i);
    let (b, c) = choose|b: int, c: int| #[trigger]
        stands_at(sizes, hashes, contents, parts[g][i], g, b, c);
    assert(stands_at(sizes, hashes, contents, duplicates(sizes, hashes, contents)[j], g, b, c));
}

/// Whether the one place comes before the other.
pub open spec fn place_before(g: int, b: int, c: int, h: int, d: int, e: int) -> bool {
    g < h || (g == h && (b < d || (b == d && c < e)))
}

/// Of two duplicate groups, the earlier stands at the earlier place.
pub proof fn lemma_places_in_order(
    sizes: Seq<u64>,
    hashes: Seq<u64>,
    contents: Seq<Seq<u8>>,
    j: int,
    k: int,
)
    requires
        0 <= j < k < duplicates(sizes, hashes, contents).len(),
    ensures
        exists|g: int, b: int, c: int, h: int, d: int, e: int|
            #![trigger stands_at(sizes, hashes, contents, duplicates(sizes, hashes, contents)[j], g, b, c), stands_at(sizes, hashes, contents, duplicates(sizes, hashes, contents)[k], h, d, e)]
            stands_at(sizes, hashes, contents, duplicates(sizes, hashes, contents)[j], g, b, c)
                && stands_at(sizes, hashes, contents, duplicates(sizes, hashes, contents)[k], h, d, e)
                && place_before(g, b, c, h, d, e),
{
    let all = duplicates(sizes, hashes, contents);
    let by_size = size_groups(sizes);
    let parts = size_parts(by_size, hashes, contents);
    lemma_size_stage_joined(by_size, hashes, contents);
    lemma_joined_pair(parts, j, k);
    let (g, i, h, l) = choose|g: int, i: int, h: int, l: int|
        0 <= g < parts.len() && 0 <= i < parts[g].len() && 0 <= h < parts.len() && 0 <= l
            < parts[h].len() && joined(parts)[j] == #[trigger] parts[g][i] && joined(parts)[k]
            == #[trigger] parts[h][l] && (g < h || (g == h && i < l));
    if g < h {
        lemma_place_in_group(sizes, hashes, contents, g, i);
        lemma_place_in_group(sizes, hashes, contents, h, l);
        let (b, c) = choose|b: int, c: int| #[trigger]
            stands_at(sizes, hashes, contents, parts[g][i], g, b, c);
        let (d, e) = choose|d: int, e: int| #[trigger]
            stands_at(sizes, hashes, contents, parts[h][l], h, d, e);
        assert(stands_at(sizes, hashes, contents, all[j], g, b, c) && stands_at(
            sizes,
            hashes,
            contents,
            all[k],
            h,
            d,
            e,
        ) && place_before(g, b, c, h, d, e));
    } else {
        let by_hash = partition(by_size[g].1, keys_at(hashes, by_size[g].1));
        let hparts = hash_parts(by_size[g].0, by_hash, contents);
        lemma_hash_groups_joined(by_size[g].0, by_hash, contents);
        lemma_joined_pair(hparts, i, l);
        let (b, m, d, n) = choose|b: int, m: int, d: int, n: int|
            0 <= b < hparts.len() && 0 <= m < hparts[b].len() && 0 <= d < hparts.len() && 0 <= n
                < hparts[d].len() && joined(hparts)[i] == #[trigger] hparts[b][m] && joined(
                hparts,
            )[l] == #[trigger] hparts[d][n] && (b < d || (b == d && m < n));
        if b < d {
            lemma_place_in_bucket(sizes, hashes, contents, g, b, m);
            lemma_place_in_bucket(sizes, hashes, contents, g, d, n);
            let c = choose|c: int| #[trigger]
                stands_at(sizes, hashes, contents, hparts[b][m], g, b, c);
            let e = choose|e: int| #[trigger]
                stands_at(sizes, hashes, contents, hparts[d][n], g, d, e);
            assert(stands_at(sizes, hashes, contents, all[j], g, b, c) && stands_at(
                sizes,
                hashes,
                contents,
                all[k],
                g,
                d,
                e,
            ) && place_before(g, b, c, g, d, e));
        } else {
            let by_content = partition(by_hash[b].1, keys_at(contents, by_hash[b].1));
            let cparts = content_parts(by_size[g].0, by_hash[b].0, by_content);
            lemma_content_groups_joined(by_size[g].0, by_hash[b].0, by_content);
            lemma_joined_pair(cparts, m, n);
            let (c, s, e, t) = choose|c: int, s: int, e: int, t: int|
                0 <= c < cparts.len() && 0 <= s < cparts[c].len() && 0 <= e < cparts.len() && 0
                    <= t < cparts[e].len() && joined(cparts)[m] == #[trigger] cparts[c][s]
                    && joined(cparts)[n] == #[trigger] cparts[e][t] && (c < e || (c == e && s < t));
            assert(stands_at(sizes, hashes, contents, all[j], g, b, c) && stands_at(
                sizes,
                hashes,
                contents,
                all[k],
                g,
                b,
                e,
            ) && place_before(g, b, c, g, b, e));
        }
    }
}

/// What stands at a place is one of the duplicate groups.
pub proof fn lemma_placed_is_found(
    sizes: Seq<u64>,
    hashes: Seq<u64>,
    contents: Seq<Seq<u8>>,
    group: GroupModel,
    g: int,
    b: int,
    c: int,
)
    requires
        stands_at(sizes, hashes, contents, group, g, b, c),
    ensures
        exists|j: int|
            0 <= j < duplicates(sizes, hashes, contents).len() && #[trigger] duplicates(
                sizes,
                hashes,
                contents,
            )[j] == group,
{
    let by_size = size_groups(sizes);
    let by_hash = partition(by_size[g].1, keys_at(hashes, by_size[g].1));
    let by_content = partition(by_hash[b].1, keys_at(contents, by_hash[b].1));
    let cparts = content_parts(by_size[g].0, by_hash[b].0, by_content);
    let hparts = hash_parts(by_size[g].0, by_hash, contents);
    let parts = size_parts(by_size, hashes, contents);
    lemma_content_groups_joined(by_size[g].0, by_hash[b].0, by_content);
    lemma_hash_groups_joined(by_size[g].0, by_hash, contents);
    lemma_size_stage_joined(by_size, hashes, contents);
    assert(cparts[c][0] == group);
    lemma_joined_has(cparts, c, 0);
    let m = choose|m: int| 0 <= m < joined(cparts).len() && #[trigger] joined(cparts)[m] == cparts[c][0];
    assert(hparts[b][m] == group);
    lemma_joined_has(hparts, b, m);
    let i = choose|i: int| 0 <= i < joined(hparts).len() && #[trigger] joined(hparts)[i] == hparts[b][m];
    assert(parts[g][i] == group);
    lemma_joined_has(parts, g, i);
    let j = choose|j: int| 0 <= j < joined(parts).len() && #[trigger] joined(parts)[j] == parts[g][i];
    assert(duplicates(sizes, hashes, contents)[j] == group);
}

/// The members of a group that stands at a place are rising, more than
/// one, and exactly the files with the size of the size group, the hash of
/// the hash bucket and the content of the content bucket.
pub proof fn lemma_placed_members(
    sizes: Seq<u64>,
    hashes: Seq<u64>,
    contents: Seq<Seq<u8>>,
    group: GroupModel,
    g: int,
    b: int,
    c: int,
)
    requires
        sizes.len() <= usize::MAX,
        hashes.len() == sizes.len(),
        contents.len() == sizes.len(),
        stands_at(sizes, hashes, contents, group, g, b, c),
    ensures
        group.members.len() > 1,
        rising(group.members),
        forall|x: usize| #[trigger]
            group.members.contains(x) <==> x < sizes.len() && sizes[x as int] == group.size
                && hashes[x as int] == group.hash && contents[x as int] == content_buckets_in(
                sizes,
                hashes,
                contents,
                g,
                b,
            )[c].0,
{
    let by_size = size_groups(sizes);
    let of_size = by_size[g].1;
    let hash_keys = keys_at(hashes, of_size);
    let by_hash = partition(of_size, hash_keys);
    let of_hash = by_hash[b].1;
    let content_keys = keys_at(contents, of_hash);
    let by_content = partition(of_hash, content_keys);
    lemma_size_group(sizes, g);
    lemma_bucket(of_size, hash_keys, b);
    lemma_bucket(of_hash, content_keys, c);
    assert forall|x: usize| #[trigger]
        group.members.contains(x) <==> x < sizes.len() && sizes[x as int] == group.size
            && hashes[x as int] == group.hash && contents[x as int] == by_content[c].0 by {
        if group.members.contains(x) {
            let p = choose|p: int|
                0 <= p < of_hash.len() && of_hash[p] == x && content_keys[p] == by_content[c].0;
            assert(of_hash.contains(x));
            let q = choose|q: int|
                0 <= q < of_size.len() && of_size[q] == x && hash_keys[q] == by_hash[b].0;
            assert(of_size.contains(x));
            assert(hash_keys[q] == hashes[of_size[q] as int]);
            assert(content_keys[p] == contents[of_hash[p] as int]);
        }
        if x < sizes.len() && sizes[x as int] == group.size && hashes[x as int] == group.hash
            && contents[x as int] == by_content[c].0 {
            assert(of_size.contains(x));
            let q = choose|q: int| 0 <= q < of_size.len() && of_size[q] == x;
            assert(hash_keys[q] == hashes[of_size[q] as int]);
            assert(of_hash.contains(x));
            let p = choose|p: int| 0 <= p < of_hash.len() && of_hash[p] == x;
            assert(content_keys[p] == contents[of_hash[p] as int]);
        }
    }
}

/// Whether file `member` is one of the files and has the size and the hash of
/// `group` and the content of its first member.
pub open spec fn is_alike(
    sizes: Seq<u64>,
    hashes: Seq<u64>,
    contents: Seq<Seq<u8>>,
    group: GroupModel,
    member: usize,
) -> bool {
    &&& member < sizes.len()
    &&& sizes[member as int] == group.size
    &&& hashes[member as int] == group.hash
    &&& contents[member as int] == contents[group.members[0] as int]
}

/// The members of a duplicate group are alike: there are two or more of
/// them, in rising order, each is one of the files, and all have the size
/// and the hash of the group and one and the same content.
pub proof fn duplicate_members_are_alike(
    sizes: Seq<u64>,
    hashes: Seq<u64>,
    contents: Seq<Seq<u8>>,
    j: int,
)
    requires
        sizes.len() <= usize::MAX,
        hashes.len() == sizes.len(),
        contents.len() == sizes.len(),
        0 <= j < duplicates(sizes, hashes, contents).len(),
    ensures
        duplicates(sizes, hashes, contents)[j].members.len() > 1,
        rising(duplicates(sizes, hashes, contents)[j].members),
        forall|p: int|
            0 <= p < duplicates(sizes, hashes, contents)[j].members.len() ==> is_alike(
                sizes,
                hashes,
                contents,
                duplicates(sizes, hashes, contents)[j],
                #[trigger] duplicates(sizes, hashes, contents)[j].members[p],
            ),
{
    let group = duplicates(sizes, hashes, contents)[j];
    lemma_place(sizes, hashes, contents, j);
    let (g, b, c) = choose|g: int, b: int, c: int| #[trigger]
        stands_at(sizes, hashes, contents, group, g, b, c);
    lemma_placed_members(sizes, hashes, contents, group, g, b, c);
    assert(group.members.contains(group.members[0]));
    assert forall|p: int| 0 <= p < group.members.len() implies is_alike(
        sizes,
        hashes,
        contents,
        group,
        #[trigger] group.members[p],
    ) by {
        assert(group.members.contains(group.members[p]));
    }
}

/// Two duplicate groups are apart: if they have the same size and the same
/// hash, no member of the one has the content of a member of the other.
pub proof fn duplicate_groups_are_apart(
    sizes: Seq<u64>,
    hashes: Seq<u64>,
    contents: Seq<Seq<u8>>,
    j: int,
    k: int,
)
    requires
        sizes.len() <= usize::MAX,
        hashes.len() == sizes.len(),
        contents.len() == sizes.len(),
        0 <= j < duplicates(sizes, hashes, contents).len(),
        0 <= k < duplicates(sizes, hashes, contents).len(),
        j != k,
    ensures
        duplicates(sizes, hashes, contents)[j].size != duplicates(sizes, hashes, contents)[k].size
            || duplicates(sizes, hashes, contents)[j].hash != duplicates(
            sizes,
            hashes,
            contents,
        )[k].hash || forall|p: int, q: int|
            0 <= p < duplicates(sizes, hashes, contents)[j].members.len() && 0 <= q < duplicates(
                sizes,
                hashes,
                contents,
            )[k].members.len() ==> contents[#[trigger] duplicates(
                sizes,
                hashes,
                contents,
            )[j].members[p] as int] != contents[#[trigger] duplicates(
                sizes,
                hashes,
                contents,
            )[k].members[q] as int],
{
    if j < k {
        lemma_apart_in_order(sizes, hashes, contents, j, k);
    } else {
        lemma_apart_in_order(sizes, hashes, contents, k, j);
    }
}

/// [`duplicate_groups_are_apart`] for an earlier and a later group.
proof fn lemma_apart_in_order(
    sizes: Seq<u64>,
    hashes: Seq<u64>,
    contents: Seq<Seq<u8>>,
    j: int,
    k: int,
)
    requires
        sizes.len() <= usize::MAX,
        hashes.len() == sizes.len(),
        contents.len() == sizes.len(),
        0 <= j < k < duplicates(sizes, hashes, contents).len(),
    ensures
        duplicates(sizes, hashes, contents)[j].size != duplicates(sizes, hashes, contents)[k].size
            || duplicates(sizes, hashes, contents)[j].hash != duplicates(
            sizes,
            hashes,
            contents,
        )[k].hash || forall|p: int, q: int|
            0 <= p < duplicates(sizes, hashes, contents)[j].members.len() && 0 <= q < duplicates(
                sizes,
                hashes,
                contents,
            )[k].members.len() ==> contents[#[trigger] duplicates(
                sizes,
                hashes,
                contents,
            )[j].members[p] as int] != contents[#[trigger] duplicates(
                sizes,
                hashes,
                contents,
            )[k].members[q] as int],
{
    let one = duplicates(sizes, hashes, contents)[j];
    let two = duplicates(sizes, hashes, contents)[k];
    lemma_places_in_order(sizes, hashes, contents, j, k);
    let (g, b, c, h, d, e) = choose|g: int, b: int, c: int, h: int, d: int, e: int|
        #![trigger stands_at(sizes, hashes, contents, one, g, b, c), stands_at(sizes, hashes, contents, two, h, d, e)]
        stands_at(sizes, hashes, contents, one, g, b, c) && stands_at(
            sizes,
            hashes,
            contents,
            two,
            h,
            d,
            e,
        ) && place_before(g, b, c, h, d, e);
    lemma_placed_members(sizes, hashes, contents, one, g, b, c);
    lemma_placed_members(sizes, hashes, contents, two, h, d, e);
    let by_size = size_groups(sizes);
    if g != h {
        lemma_size_group(sizes, g);
        assert(by_size[h].0 != by_size[g].0);
    } else {
        let of_size = by_size[g].1;
        let hash_keys = keys_at(hashes, of_size);
        let by_hash = partition(of_size, hash_keys);
        lemma_distinct(hash_keys);
        if b != d {
            assert(distinct(hash_keys)[b] != distinct(hash_keys)[d]);
        } else {
            let of_hash = by_hash[b].1;
            let content_keys = keys_at(contents, of_hash);
            lemma_distinct(content_keys);
            assert(distinct(content_keys)[c] != distinct(content_keys)[e]);
            assert forall|p: int, q: int|
                0 <= p < one.members.len() && 0 <= q < two.members.len() implies contents[
                #[trigger] one.members[p] as int] != contents[#[trigger] two.members[q] as int] by {
                assert(one.members.contains(one.members[p]));
                assert(two.members.contains(two.members[q]));
            }
        }
    }
}

/// The duplicate groups come by rising size: a later group is of no smaller
/// size than an earlier one.
pub proof fn duplicate_groups_rise_in_size(
    sizes: Seq<u64>,
    hashes: Seq<u64>,
    contents: Seq<Seq<u8>>,
    j: int,
    k: int,
)
    requires
        0 <= j < k < duplicates(sizes, hashes, contents).len(),
    ensures
        duplicates(sizes, hashes, contents)[j].size <= duplicates(sizes, hashes, contents)[k].size,
{
    let one = duplicates(sizes, hashes, contents)[j];
    let two = duplicates(sizes, hashes, contents)[k];
    lemma_places_in_order(sizes, hashes, contents, j, k);
    let (g, b, c, h, d, e) = choose|g: int, b: int, c: int, h: int, d: int, e: int|
        #![trigger stands_at(sizes, hashes, contents, one, g, b, c), stands_at(sizes, hashes, contents, two, h, d, e)]
        stands_at(sizes, hashes, contents, one, g, b, c) && stands_at(
            sizes,
            hashes,
            contents,
            two,
            h,
            d,
            e,
        ) && place_before(g, b, c, h, d, e);
    crate::sizes::lemma_ascending(sizes);
    if g < h {
        assert(crate::sizes::ascending(sizes)[g] < crate::sizes::ascending(sizes)[h]);
    }
}

/// Two files with the same size, the same hash and the same content are
/// members of one duplicate group.
pub proof fn alike_files_share_a_group(
    sizes: Seq<u64>,
    hashes: Seq<u64>,
    contents: Seq<Seq<u8>>,
    x: usize,
    y: usize,
)
    requires
        sizes.len() <= usize::MAX,
        hashes.len() == sizes.len(),
        contents.len() == sizes.len(),
        x < sizes.len(),
        y < sizes.len(),
        x != y,
        sizes[x as int] == sizes[y as int],
        hashes[x as int] == hashes[y as int],
        contents[x as int] == contents[y as int],
    ensures
        exists|j: int|
            0 <= j < duplicates(sizes, hashes, contents).len() && (#[trigger] duplicates(
                sizes,
                hashes,
                contents,
            )[j]).members.contains(x) && duplicates(sizes, hashes, contents)[j].members.contains(y),
{
    let by_size = size_groups(sizes);
    crate::sizes::lemma_ascending(sizes);
    let order = crate::sizes::ascending(sizes);
    assert(sizes.contains(sizes[x as int]));
    assert(order.contains(sizes[x as int]));
    let g = choose|g: int| 0 <= g < order.len() && order[g] == sizes[x as int];
    lemma_size_group(sizes, g);
    let of_size = by_size[g].1;
    assert(of_size.contains(x) && of_size.contains(y));
    let px = choose|p: int| 0 <= p < of_size.len() && of_size[p] == x;
    let py = choose|p: int| 0 <= p < of_size.len() && of_size[p] == y;
    assert(px != py);

    let hash_keys = keys_at(hashes, of_size);
    let by_hash = partition(of_size, hash_keys);
    lemma_distinct(hash_keys);
    assert(hash_keys[px] == hashes[x as int] && hash_keys[py] == hashes[y as int]);
    assert(hash_keys.contains(hash_keys[px]));
    assert(distinct(hash_keys).contains(hash_keys[px]));
    let b = choose|b: int| 0 <= b < distinct(hash_keys).len() && distinct(hash_keys)[b] == hash_keys[px];
    lemma_bucket(of_size, hash_keys, b);
    let of_hash = by_hash[b].1;
    assert(of_hash.contains(x) && of_hash.contains(y));
    let qx = choose|q: int| 0 <= q < of_hash.len() && of_hash[q] == x;
    let qy = choose|q: int| 0 <= q < of_hash.len() && of_hash[q] == y;
    assert(qx != qy);

    let content_keys = keys_at(contents, of_hash);
    let by_content = partition(of_hash, content_keys);
    lemma_distinct(content_keys);
    assert(content_keys[qx] == contents[x as int] && content_keys[qy] == contents[y as int]);
    assert(content_keys.contains(content_keys[qx]));
    assert(distinct(content_keys).contains(content_keys[qx]));
    let c = choose|c: int|
        0 <= c < distinct(content_keys).len() && distinct(content_keys)[c] == content_keys[qx];
    lemma_bucket(of_hash, content_keys, c);
    let alike = by_content[c].1;
    assert(alike.contains(x) && alike.contains(y));
    let rx = choose|r: int| 0 <= r < alike.len() && alike[r] == x;
    let ry = choose|r: int| 0 <= r < alike.len() && alike[r] == y;
    assert(rx != ry);

    let group = GroupModel { size: by_size[g].0, hash: by_hash[b].0, members: alike };
    assert(stands_at(sizes, hashes, contents, group, g, b, c));
    lemma_placed_is_found(sizes, hashes, contents, group, g, b, c);
}

} // verus!
