//! The duplicate-detection pipeline: size groups are refined by hash, hash
//! buckets by content, and what remains with more than one member is
//! reported.

use crate::buckets::{lists, BucketKey};
use crate::partition::{
    distinct, lemma_bucket, lemma_distinct, lemma_select, lemma_select_rising, may_return,
    observed, partition, partition_by, select,
};
use crate::record::{keys_at, positions, rising, sizes_of, FileRecord};
use crate::rows::members_within;
use crate::sizes::{ascending, group_by_size, lemma_ascending, size_groups};
use crate::theorems::{duplicate_members_are_alike, is_alike};
use crate::waste::{lemma_waste_add, lemma_waste_within_total, waste};
use vstd::prelude::*;

verus! {

/// A set of files with the same size, the same hash and the same content.
pub struct ContentGroup {
    /// The size that the members share, in bytes.
    pub size: u64,
    /// The hash that the members share.
    pub hash: u64,
    /// Positions of the members in the list of files, in rising order.
    pub members: Vec<usize>,
}

/// A [`ContentGroup`] as a mathematical value.
pub struct GroupModel {
    /// The size that the members share.
    pub size: u64,
    /// The hash that the members share.
    pub hash: u64,
    /// Positions of the members in the list of files.
    pub members: Seq<usize>,
}

impl View for ContentGroup {
    type V = GroupModel;

    open spec fn view(&self) -> GroupModel {
        GroupModel { size: self.size, hash: self.hash, members: self.members@ }
    }
}

/// The groups of a list, each as a mathematical value.
pub open spec fn group_views(groups: Seq<ContentGroup>) -> Seq<GroupModel> {
    Seq::new(groups.len(), |g: int| groups[g]@)
}

/// The groups that the content buckets of one hash bucket give: a group for
/// each bucket with more than one member, in the order of the buckets.
pub open spec fn content_groups(size: u64, hash: u64, buckets: Seq<(Seq<u8>, Seq<usize>)>) -> Seq<
    GroupModel,
>
    decreases buckets.len(),
{
    if buckets.len() == 0 {
        Seq::empty()
    } else {
        let earlier = content_groups(size, hash, buckets.drop_last());
        if buckets.last().1.len() > 1 {
            earlier.push(GroupModel { size, hash, members: buckets.last().1 })
        } else {
            earlier
        }
    }
}

/// The groups among the files at `members`, which share size and hash, when
/// `contents[i]` is the content of file `i`.
pub open spec fn groups_by_content(
    size: u64,
    hash: u64,
    members: Seq<usize>,
    contents: Seq<Seq<u8>>,
) -> Seq<GroupModel> {
    content_groups(size, hash, partition(members, keys_at(contents, members)))
}

/// `table` with `keys[p]` written at position `members[p]`, for each `p`.
spec fn noted<V>(table: Seq<V>, members: Seq<usize>, keys: Seq<V>) -> Seq<V> {
    Seq::new(
        table.len(),
        |i: int|
            if exists|p: int| 0 <= p < members.len() && members[p] == i {
                keys[choose|p: int| 0 <= p < members.len() && members[p] == i]
            } else {
                table[i]
            },
    )
}

/// What [`noted`] yields where no position occurs twice.
proof fn lemma_noted<V>(table: Seq<V>, members: Seq<usize>, keys: Seq<V>)
    requires
        rising(members),
        keys.len() == members.len(),
        forall|p: int| 0 <= p < members.len() ==> members[p] < table.len(),
    ensures
        noted(table, members, keys).len() == table.len(),
        keys_at(noted(table, members, keys), members) == keys,
        forall|i: int|
            0 <= i < table.len() && !members.contains(i as usize) ==> noted(table, members, keys)[i]
                == table[i],
{
    let after = noted(table, members, keys);
    assert forall|p: int| 0 <= p < members.len() implies after[members[p] as int] == keys[p] by {
        let i = members[p] as int;
        let q = choose|q: int| 0 <= q < members.len() && members[q] == i;
        assert(q == p);
    }
    assert(keys_at(after, members) =~= keys);
    assert forall|i: int| 0 <= i < table.len() && !members.contains(i as usize) implies after[i]
        == table[i] by {
        if exists|p: int| 0 <= p < members.len() && members[p] == i {
            let p = choose|p: int| 0 <= p < members.len() && members[p] == i;
            assert(members[p] == i as usize);
        }
    }
}

/// Refines one hash bucket by content. The content of each member is
/// read once; the groups found are added to `groups`. `contents` is what has
/// been read of every file so far, and the result is that with the contents
/// read here.
fn content_stage<C: Fn(&FileRecord) -> Vec<u8>>(
    files: &Vec<FileRecord>,
    size: u64,
    hash: u64,
    members: &Vec<usize>,
    content_of: &C,
    groups: &mut Vec<ContentGroup>,
    Ghost(contents): Ghost<Seq<Seq<u8>>>,
) -> (read: Ghost<Seq<Seq<u8>>>)
    requires
        contents.len() == files.len(),
        rising(members@),
        forall|p: int|
            0 <= p < members.len() ==> (#[trigger] members[p]) < files.len() && call_requires(
                *content_of,
                (&files[members[p] as int],),
            ),
    ensures
        read@.len() == files.len(),
        forall|i: int|
            0 <= i < files.len() && !members@.contains(i as usize) ==> read@[i] == contents[i],
        observed(*content_of, files@, members@, keys_at(read@, members@)),
        group_views(final(groups)@) == group_views(old(groups)@) + groups_by_content(
            size,
            hash,
            members@,
            read@,
        ),
{
    let map = partition_by(files, members, content_of);
    let ghost keys = choose|keys: Seq<Seq<u8>>|
        observed(*content_of, files@, members@, keys) && #[trigger] partition(members@, keys)
            == <Vec<u8> as BucketKey>::buckets(map);
    let ghost read = noted(contents, members@, keys);
    let ghost buckets = partition(members@, keys);
    proof {
        lemma_noted(contents, members@, keys);
    }
    let list = <Vec<u8> as BucketKey>::into_list(map);
    let ghost before = group_views(groups@);
    for entry in it: list
        invariant
            lists(list@, buckets),
            it.seq() == list@,
            group_views(groups@) == before + content_groups(
                size,
                hash,
                buckets.take(it.index() as int),
            ),
    {
        let ghost at = it.index() as int;
        proof {
            assert(buckets.take(at + 1).drop_last() =~= buckets.take(at));
            assert(entry == list@[at]);
            assert(list@[at].1@ == buckets[at].1);
            assert(buckets.take(at + 1).last() == buckets[at]);
        }
        let ghost earlier = group_views(groups@);
        let (_, bucket) = entry;
        if bucket.len() > 1 {
            let ghost found = GroupModel { size, hash, members: bucket@ };
            groups.push(ContentGroup { size, hash, members: bucket });
            proof {
                assert(group_views(groups@) =~= earlier.push(found));
                assert(group_views(groups@) =~= before + content_groups(
                    size,
                    hash,
                    buckets.take(at + 1),
                ));
            }
        }
    }
    proof {
        assert(buckets.take(list@.len() as int) =~= buckets);
    }
    Ghost(read)
}

/// The groups that the hash buckets of one size group give, when
/// `contents[i]` is the content of file `i`: each bucket with more than one
/// member is refined by content, in the order of the buckets.
pub open spec fn hash_groups(
    size: u64,
    buckets: Seq<(u64, Seq<usize>)>,
    contents: Seq<Seq<u8>>,
) -> Seq<GroupModel>
    decreases buckets.len(),
{
    if buckets.len() == 0 {
        Seq::empty()
    } else {
        let earlier = hash_groups(size, buckets.drop_last(), contents);
        if buckets.last().1.len() > 1 {
            earlier + groups_by_content(size, buckets.last().0, buckets.last().1, contents)
        } else {
            earlier
        }
    }
}

/// The groups among the files at `members`, which share their size, when
/// `hashes[i]` is the hash and `contents[i]` the content of file `i`.
pub open spec fn groups_by_hash(
    size: u64,
    members: Seq<usize>,
    hashes: Seq<u64>,
    contents: Seq<Seq<u8>>,
) -> Seq<GroupModel> {
    hash_groups(size, partition(members, keys_at(hashes, members)), contents)
}

/// Whether two tables agree at every position outside `members`.
spec fn same_outside<V>(a: Seq<V>, b: Seq<V>, members: Seq<usize>) -> bool {
    &&& a.len() == b.len()
    &&& forall|i: int| 0 <= i < a.len() && !members.contains(i as usize) ==> a[i] == b[i]
}

/// Whether the files `a` and `b` can be given the same hash.
pub open spec fn may_collide<H: Fn(&FileRecord) -> u64>(
    hash_of: H,
    a: FileRecord,
    b: FileRecord,
) -> bool {
    exists|h: u64| #[trigger] may_return(hash_of, a, h) && may_return(hash_of, b, h)
}

/// The groups of hash buckets depend on the contents of the members of
/// buckets with more than one member only.
pub proof fn lemma_hash_groups_frame(
    size: u64,
    buckets: Seq<(u64, Seq<usize>)>,
    a: Seq<Seq<u8>>,
    b: Seq<Seq<u8>>,
)
    requires
        forall|g: int|
            0 <= g < buckets.len() && (#[trigger] buckets[g]).1.len() > 1 ==> keys_at(
                a,
                buckets[g].1,
            ) == keys_at(b, buckets[g].1),
    ensures
        hash_groups(size, buckets, a) == hash_groups(size, buckets, b),
    decreases buckets.len(),
{
    if buckets.len() > 0 {
        let front = buckets.drop_last();
        assert forall|g: int| 0 <= g < front.len() && (#[trigger] front[g]).1.len() > 1 implies keys_at(
            a,
            front[g].1,
        ) == keys_at(b, front[g].1) by {
            assert(front[g] == buckets[g]);
        }
        lemma_hash_groups_frame(size, front, a, b);
        assert(buckets.last() == buckets[buckets.len() - 1]);
    }
}

/// Two buckets of a partition of rising positions share no member.
proof fn lemma_buckets_apart<K>(items: Seq<usize>, keys: Seq<K>, g: int, h: int, x: usize)
    requires
        items.len() == keys.len(),
        rising(items),
        0 <= g < partition(items, keys).len(),
        0 <= h < partition(items, keys).len(),
        g != h,
        partition(items, keys)[g].1.contains(x),
    ensures
        !partition(items, keys)[h].1.contains(x),
{
    lemma_bucket(items, keys, g);
    lemma_bucket(items, keys, h);
    lemma_distinct(keys);
    if partition(items, keys)[h].1.contains(x) {
        let p = choose|p: int|
            0 <= p < items.len() && items[p] == x && keys[p] == partition(items, keys)[g].0;
        let q = choose|q: int|
            0 <= q < items.len() && items[q] == x && keys[q] == partition(items, keys)[h].0;
        assert(p == q);
        assert(distinct(keys)[g] == distinct(keys)[h]);
    }
}

/// The groups that size groups give, when `hashes[i]` is the hash and
/// `contents[i]` the content of file `i`: each size group with more than one
/// member is refined by hash and content, in the order of the size groups.
pub open spec fn size_stage(
    groups: Seq<(u64, Seq<usize>)>,
    hashes: Seq<u64>,
    contents: Seq<Seq<u8>>,
) -> Seq<GroupModel>
    decreases groups.len(),
{
    if groups.len() == 0 {
        Seq::empty()
    } else {
        let earlier = size_stage(groups.drop_last(), hashes, contents);
        if groups.last().1.len() > 1 {
            earlier + groups_by_hash(groups.last().0, groups.last().1, hashes, contents)
        } else {
            earlier
        }
    }
}

/// The duplicate groups among files with the sizes `sizes`, when `hashes[i]`
/// is the hash and `contents[i]` the content of file `i`. Groups come by
/// rising size; under one size, in the order in which their hashes were
/// first seen; under one hash, in the order in which their contents were
/// first seen. The hash of a file that shares its size with no other file,
/// and the content of one that shares size and hash with no other, play no
/// part.
pub open spec fn duplicates(sizes: Seq<u64>, hashes: Seq<u64>, contents: Seq<Seq<u8>>) -> Seq<
    GroupModel,
> {
    size_stage(size_groups(sizes), hashes, contents)
}

/// Refines one size group by hash, and its hash buckets by content. Each
/// member is hashed once; a member is read only if its hash bucket has
/// another member. `hashes` and `contents` are what has been learned of
/// every file so far, and the result is that with what was learned here.
fn hash_stage<H: Fn(&FileRecord) -> u64, C: Fn(&FileRecord) -> Vec<u8>>(
    files: &Vec<FileRecord>,
    size: u64,
    members: &Vec<usize>,
    hash_of: &H,
    content_of: &C,
    groups: &mut Vec<ContentGroup>,
    Ghost(hashes): Ghost<Seq<u64>>,
    Ghost(contents): Ghost<Seq<Seq<u8>>>,
) -> (learned: (Ghost<Seq<u64>>, Ghost<Seq<Seq<u8>>>))
    requires
        hashes.len() == files.len(),
        contents.len() == files.len(),
        rising(members@),
        forall|p: int|
            0 <= p < members.len() ==> (#[trigger] members[p]) < files.len() && call_requires(
                *hash_of,
                (&files[members[p] as int],),
            ),
        forall|p: int, q: int|
            0 <= p < members.len() && 0 <= q < members.len() && p != q && may_collide(
                *hash_of,
                files[#[trigger] members[p] as int],
                files[#[trigger] members[q] as int],
            ) ==> call_requires(*content_of, (&files[members[p] as int],)),
    ensures
        same_outside(learned.0@, hashes, members@),
        same_outside(learned.1@, contents, members@),
        observed(*hash_of, files@, members@, keys_at(learned.0@, members@)),
        forall|p: int, q: int|
            0 <= p < members.len() && 0 <= q < members.len() && p != q && learned.0@[#[trigger] members[p] as int]
                == learned.0@[#[trigger] members[q] as int] ==> may_return(
                *content_of,
                files[members[p] as int],
                learned.1@[members[p] as int],
            ),
        group_views(final(groups)@) == group_views(old(groups)@) + groups_by_hash(
            size,
            members@,
            learned.0@,
            learned.1@,
        ),
{
    let map = partition_by(files, members, hash_of);
    let ghost keys = choose|keys: Seq<u64>|
        observed(*hash_of, files@, members@, keys) && #[trigger] partition(members@, keys)
            == <u64 as BucketKey>::buckets(map);
    let ghost hashed = noted(hashes, members@, keys);
    let ghost buckets = partition(members@, keys);
    proof {
        lemma_noted(hashes, members@, keys);
    }
    let list = <u64 as BucketKey>::into_list(map);
    let ghost before = group_views(groups@);
    let ghost mut read = contents;
    for entry in it: list
        invariant
            lists(list@, buckets),
            it.seq() == list@,
            buckets == partition(members@, keys),
            keys.len() == members.len(),
            observed(*hash_of, files@, members@, keys),
            rising(members@),
            forall|p: int| 0 <= p < members.len() ==> (#[trigger] members[p]) < files.len(),
            forall|p: int, q: int|
                0 <= p < members.len() && 0 <= q < members.len() && p != q && may_collide(
                    *hash_of,
                    files[#[trigger] members[p] as int],
                    files[#[trigger] members[q] as int],
                ) ==> call_requires(*content_of, (&files[members[p] as int],)),
            contents.len() == files.len(),
            same_outside(read, contents, members@),
            forall|g: int|
                0 <= g < it.index() && (#[trigger] buckets[g]).1.len() > 1 ==> observed(
                    *content_of,
                    files@,
                    buckets[g].1,
                    keys_at(read, buckets[g].1),
                ),
            group_views(groups@) == before + hash_groups(
                size,
                buckets.take(it.index() as int),
                read,
            ),
    {
        let ghost at = it.index() as int;
        proof {
            assert(buckets.take(at + 1).drop_last() =~= buckets.take(at));
            assert(entry == list@[at]);
            assert(list@[at].1@ == buckets[at].1);
            assert(list@[at].0 == buckets[at].0);
            assert(buckets.take(at + 1).last() == buckets[at]);
            lemma_bucket(members@, keys, at);
        }
        let (hash, bucket) = entry;
        if bucket.len() > 1 {
            proof {
                assert forall|r: int| 0 <= r < bucket.len() implies (#[trigger] bucket[r])
                    < files.len() && call_requires(*content_of, (&files[bucket[r] as int],)) by {
                    let x = bucket[r];
                    let other = if r == 0 {
                        bucket[1]
                    } else {
                        bucket[0]
                    };
                    assert(bucket@.contains(x));
                    assert(bucket@.contains(other));
                    let p = choose|p: int|
                        0 <= p < members.len() && members[p] == x && keys[p] == hash;
                    let q = choose|q: int|
                        0 <= q < members.len() && members[q] == other && keys[q] == hash;
                    assert(may_return(*hash_of, files@[members@[p] as int], keys[p]));
                    assert(may_return(*hash_of, files@[members@[q] as int], keys[q]));
                    assert(may_collide(
                        *hash_of,
                        files[members[p] as int],
                        files[members[q] as int],
                    ));
                }
            }
            let ghost earlier = group_views(groups@);
            let ghost old_read = read;
            let Ghost(next) = content_stage(
                files,
                size,
                hash,
                &bucket,
                content_of,
                groups,
                Ghost(read),
            );
            proof {
                read = next;
                assert forall|i: int|
                    0 <= i < read.len() && !members@.contains(i as usize) implies read[i]
                    == contents[i] by {
                    if bucket@.contains(i as usize) {
                        let p = choose|p: int|
                            0 <= p < members.len() && members[p] == i as usize && keys[p] == hash;
                        assert(members@[p] == i as usize);
                    }
                }
                assert forall|g: int| 0 <= g < at implies keys_at(read, (#[trigger] buckets[g]).1)
                    == keys_at(old_read, buckets[g].1) by {
                    let b = buckets[g].1;
                    assert forall|r: int| 0 <= r < b.len() implies read[b[r] as int]
                        == old_read[b[r] as int] by {
                        assert(b.contains(b[r]));
                        lemma_buckets_apart(members@, keys, g, at, b[r]);
                        lemma_bucket(members@, keys, g);
                        let p = choose|p: int|
                            0 <= p < members.len() && members[p] == b[r] && keys[p]
                                == buckets[g].0;
                    }
                    assert(keys_at(read, b) =~= keys_at(old_read, b));
                }
                assert(buckets.take(at) =~= buckets.take(at + 1).drop_last());
                assert forall|g: int| 0 <= g < buckets.take(at).len() implies keys_at(
                    read,
                    (#[trigger] buckets.take(at)[g]).1,
                ) == keys_at(old_read, buckets.take(at)[g].1) by {
                    assert(buckets.take(at)[g] == buckets[g]);
                }
                lemma_hash_groups_frame(size, buckets.take(at), read, old_read);
                assert(group_views(groups@) =~= before + hash_groups(
                    size,
                    buckets.take(at + 1),
                    read,
                ));
            }
        }
    }
    proof {
        assert(buckets.take(list@.len() as int) =~= buckets);
        assert(keys_at(hashed, members@) == keys);
        assert forall|p: int, q: int|
            0 <= p < members.len() && 0 <= q < members.len() && p != q && hashed[#[trigger] members[p] as int]
                == hashed[#[trigger] members[q] as int] implies may_return(
            *content_of,
            files[members[p] as int],
            read[members[p] as int],
        ) by {
            assert(keys_at(hashed, members@)[p] == keys[p]);
            assert(keys_at(hashed, members@)[q] == keys[q]);
            let key = keys[p];
            lemma_distinct(keys);
            assert(keys.contains(key));
            assert(distinct(keys).contains(key));
            let g = choose|g: int| 0 <= g < distinct(keys).len() && distinct(keys)[g] == key;
            lemma_bucket(members@, keys, g);
            let b = buckets[g].1;
            assert(b.contains(members@[p]));
            assert(b.contains(members@[q]));
            let r = choose|r: int| 0 <= r < b.len() && b[r] == members@[p];
            let t = choose|t: int| 0 <= t < b.len() && b[t] == members@[q];
            assert(r != t);
            assert(may_return(*content_of, files@[b[r] as int], keys_at(read, b)[r]));
        }
    }
    (Ghost(hashed), Ghost(read))
}

/// What a scan found.
pub struct DuplicateReport {
    /// Number of files scanned.
    pub total_files: usize,
    /// Sum of the sizes of the files scanned.
    pub total_bytes: u128,
    /// Bytes taken up by copies beyond the first of each group.
    pub wasted_bytes: u128,
    /// The duplicate groups: every set of two or more files with the same
    /// content.
    pub groups: Vec<ContentGroup>,
}

/// The sum of the sizes.
pub open spec fn total_size(sizes: Seq<u64>) -> nat
    decreases sizes.len(),
{
    if sizes.len() == 0 {
        0
    } else {
        (total_size(sizes.drop_last()) + sizes.last()) as nat
    }
}

/// Whether another file has the size of file `i`.
pub open spec fn shares_size(files: Seq<FileRecord>, i: int) -> bool {
    exists|j: int| 0 <= j < files.len() && j != i && (#[trigger] files[j]).size == files[i].size
}

/// Whether another file has the size of file `i` and can be given the same
/// hash.
pub open spec fn may_share_hash<H: Fn(&FileRecord) -> u64>(
    hash_of: H,
    files: Seq<FileRecord>,
    i: int,
) -> bool {
    exists|j: int|
        0 <= j < files.len() && j != i && (#[trigger] files[j]).size == files[i].size
            && may_collide(hash_of, files[i], files[j])
}

/// Whether another file has the size and the hash of file `i`.
pub open spec fn shares_hash(files: Seq<FileRecord>, hashes: Seq<u64>, i: int) -> bool {
    exists|j: int|
        0 <= j < files.len() && j != i && (#[trigger] files[j]).size == files[i].size && hashes[j]
            == hashes[i]
}

/// Whether `hashes` and `contents` can be what a scan learned of the files
/// from `hash_of` and `content_of`: the hash of every file that shares its
/// size, and the content of every file that shares size and hash.
pub open spec fn learned<H: Fn(&FileRecord) -> u64, C: Fn(&FileRecord) -> Vec<u8>>(
    hash_of: H,
    content_of: C,
    files: Seq<FileRecord>,
    hashes: Seq<u64>,
    contents: Seq<Seq<u8>>,
) -> bool {
    &&& hashes.len() == files.len()
    &&& contents.len() == files.len()
    &&& forall|i: int|
        0 <= i < files.len() && #[trigger] shares_size(files, i) ==> may_return(
            hash_of,
            files[i],
            hashes[i],
        )
    &&& forall|i: int|
        0 <= i < files.len() && #[trigger] shares_hash(files, hashes, i) ==> may_return(
            content_of,
            files[i],
            contents[i],
        )
}

/// Whether one size group has been dealt with: its members have the hashes
/// and, where two of them share a hash, the contents that the tables say.
spec fn group_learned<H: Fn(&FileRecord) -> u64, C: Fn(&FileRecord) -> Vec<u8>>(
    hash_of: H,
    content_of: C,
    files: Seq<FileRecord>,
    members: Seq<usize>,
    hashes: Seq<u64>,
    contents: Seq<Seq<u8>>,
) -> bool {
    &&& observed(hash_of, files, members, keys_at(hashes, members))
    &&& forall|p: int, q: int|
        0 <= p < members.len() && 0 <= q < members.len() && p != q && hashes[#[trigger] members[p] as int]
            == hashes[#[trigger] members[q] as int] ==> may_return(
            content_of,
            files[members[p] as int],
            contents[members[p] as int],
        )
}

/// What the size group at place `g` is: not empty, rising, and holding
/// exactly the files of its size, which no other group has.
pub proof fn lemma_size_group(sizes: Seq<u64>, g: int)
    requires
        sizes.len() <= usize::MAX,
        0 <= g < size_groups(sizes).len(),
    ensures
        size_groups(sizes)[g].0 == ascending(sizes)[g],
        size_groups(sizes)[g].1.len() > 0,
        rising(size_groups(sizes)[g].1),
        forall|x: usize| #[trigger]
            size_groups(sizes)[g].1.contains(x) <==> x < sizes.len() && sizes[x as int]
                == size_groups(sizes)[g].0,
        forall|h: int|
            0 <= h < size_groups(sizes).len() && h != g ==> (#[trigger] size_groups(sizes)[h]).0
                != size_groups(sizes)[g].0,
{
    let size = ascending(sizes)[g];
    let all = positions(sizes.len());
    lemma_ascending(sizes);
    assert(ascending(sizes).contains(size));
    lemma_select(all, sizes, size);
    lemma_select_rising(all, sizes, size);
    let members = select(all, sizes, size);
    assert forall|x: usize| members.contains(x) <==> x < sizes.len() && sizes[x as int]
        == size by {
        if members.contains(x) {
            let p = choose|p: int| 0 <= p < all.len() && all[p] == x && sizes[p] == size;
            assert(x == p);
        }
        if x < sizes.len() && sizes[x as int] == size {
            assert(all[x as int] == x);
        }
    }
    assert forall|h: int| 0 <= h < size_groups(sizes).len() && h != g implies (#[trigger] size_groups(
        sizes,
    )[h]).0 != size by {
        if h < g {
            assert(ascending(sizes)[h] < ascending(sizes)[g]);
        } else {
            assert(ascending(sizes)[g] < ascending(sizes)[h]);
        }
    }
}

/// The groups among files of one size depend on the hashes and contents of
/// those files only.
proof fn lemma_by_hash_frame(
    size: u64,
    members: Seq<usize>,
    hashes: Seq<u64>,
    contents: Seq<Seq<u8>>,
    other_hashes: Seq<u64>,
    other_contents: Seq<Seq<u8>>,
)
    requires
        keys_at(hashes, members) == keys_at(other_hashes, members),
        keys_at(contents, members) == keys_at(other_contents, members),
    ensures
        groups_by_hash(size, members, hashes, contents) == groups_by_hash(
            size,
            members,
            other_hashes,
            other_contents,
        ),
{
    let keys = keys_at(hashes, members);
    let buckets = partition(members, keys);
    assert forall|g: int| 0 <= g < buckets.len() implies keys_at(
        contents,
        (#[trigger] buckets[g]).1,
    ) == keys_at(other_contents, buckets[g].1) by {
        let bucket = buckets[g].1;
        lemma_select(members, keys, distinct(keys)[g]);
        assert forall|r: int| 0 <= r < bucket.len() implies contents[bucket[r] as int]
            == other_contents[bucket[r] as int] by {
            assert(bucket.contains(bucket[r]));
            let p = choose|p: int|
                0 <= p < members.len() && members[p] == bucket[r] && keys[p] == distinct(keys)[g];
            assert(keys_at(contents, members)[p] == keys_at(other_contents, members)[p]);
        }
        assert(keys_at(contents, bucket) =~= keys_at(other_contents, bucket));
    }
    lemma_hash_groups_frame(size, buckets, contents, other_contents);
}

/// The groups of size groups depend on the hashes and contents of their
/// members only.
proof fn lemma_size_stage_frame(
    groups: Seq<(u64, Seq<usize>)>,
    hashes: Seq<u64>,
    contents: Seq<Seq<u8>>,
    other_hashes: Seq<u64>,
    other_contents: Seq<Seq<u8>>,
)
    requires
        forall|g: int|
            0 <= g < groups.len() ==> keys_at(hashes, (#[trigger] groups[g]).1) == keys_at(
                other_hashes,
                groups[g].1,
            ) && keys_at(contents, groups[g].1) == keys_at(other_contents, groups[g].1),
    ensures
        size_stage(groups, hashes, contents) == size_stage(groups, other_hashes, other_contents),
    decreases groups.len(),
{
    if groups.len() > 0 {
        let front = groups.drop_last();
        assert forall|g: int| 0 <= g < front.len() implies keys_at(hashes, (#[trigger] front[g]).1)
            == keys_at(other_hashes, front[g].1) && keys_at(contents, front[g].1) == keys_at(
            other_contents,
            front[g].1,
        ) by {
            assert(front[g] == groups[g]);
        }
        lemma_size_stage_frame(front, hashes, contents, other_hashes, other_contents);
        assert(groups.last() == groups[groups.len() - 1]);
        lemma_by_hash_frame(
            groups.last().0,
            groups.last().1,
            hashes,
            contents,
            other_hashes,
            other_contents,
        );
    }
}

/// Tables that agree outside `members` agree at positions that are rising
/// and none of which is in `members`.
proof fn lemma_untouched<V>(now: Seq<V>, before: Seq<V>, members: Seq<usize>, others: Seq<usize>)
    requires
        same_outside(now, before, members),
        forall|r: int|
            0 <= r < others.len() ==> (#[trigger] others[r]) < now.len() && !members.contains(
                others[r],
            ),
    ensures
        keys_at(now, others) == keys_at(before, others),
{
    assert forall|r: int| 0 <= r < others.len() implies now[others[r] as int]
        == before[others[r] as int] by {
        assert(others[r] < now.len() && !members.contains(others[r]));
    }
    assert(keys_at(now, others) =~= keys_at(before, others));
}

/// Adds up the sizes of the files.
fn sum_sizes(files: &Vec<FileRecord>) -> (total: u128)
    ensures
        total == total_size(sizes_of(files@)),
{
    let ghost sizes = sizes_of(files@);
    let mut total: u128 = 0;
    let mut next: usize = 0;
    while next < files.len()
        invariant
            next <= files.len(),
            sizes == sizes_of(files@),
            total == total_size(sizes.take(next as int)),
            total <= next * u64::MAX,
        decreases files.len() - next,
    {
        proof {
            assert(sizes.take(next + 1).drop_last() =~= sizes.take(next as int));
            assert(next * u64::MAX + u64::MAX == (next + 1) * u64::MAX) by (nonlinear_arith);
            assert((next + 1) * u64::MAX <= usize::MAX * u64::MAX) by (nonlinear_arith)
                requires
                    next + 1 <= usize::MAX,
            ;
        }
        total = total + files[next].size as u128;
        next = next + 1;
    }
    proof {
        assert(sizes.take(next as int) =~= sizes);
    }
    total
}

/// Adds up what the groups waste.
fn sum_waste(groups: &Vec<ContentGroup>) -> (total: u128)
    requires
        waste(group_views(groups@)) <= u128::MAX,
    ensures
        total == waste(group_views(groups@)),
{
    let ghost views = group_views(groups@);
    let mut total: u128 = 0;
    let mut next: usize = 0;
    while next < groups.len()
        invariant
            next <= groups.len(),
            views == group_views(groups@),
            waste(views) <= u128::MAX,
            total == waste(views.take(next as int)),
        decreases groups.len() - next,
    {
        proof {
            assert(views.take(next + 1).drop_last() =~= views.take(next as int));
            assert(views.take(next + 1).last() == groups[next as int]@);
            assert(views =~= views.take(next + 1) + views.skip(next + 1));
            lemma_waste_add(views.take(next + 1), views.skip(next + 1));
        }
        let group = &groups[next];
        let count: usize = group.members.len();
        if count > 1 {
            let spare: usize = count - 1;
            proof {
                assert(group.size * spare <= u64::MAX * usize::MAX) by (nonlinear_arith)
                    requires
                        group.size <= u64::MAX,
                        spare <= usize::MAX,
                ;
            }
            total = total + (group.size as u128) * (spare as u128);
        }
        next = next + 1;
    }
    proof {
        assert(views.take(next as int) =~= views);
    }
    total
}

/// A size group that has been dealt with stays so while the tables stay
/// what they are for its members.
proof fn lemma_group_learned_kept<H: Fn(&FileRecord) -> u64, C: Fn(&FileRecord) -> Vec<u8>>(
    hash_of: H,
    content_of: C,
    files: Seq<FileRecord>,
    members: Seq<usize>,
    hashes: Seq<u64>,
    contents: Seq<Seq<u8>>,
    other_hashes: Seq<u64>,
    other_contents: Seq<Seq<u8>>,
)
    requires
        group_learned(hash_of, content_of, files, members, hashes, contents),
        hashes.len() == other_hashes.len(),
        forall|p: int| 0 <= p < members.len() ==> (#[trigger] members[p]) < hashes.len(),
        keys_at(hashes, members) == keys_at(other_hashes, members),
        keys_at(contents, members) == keys_at(other_contents, members),
    ensures
        group_learned(hash_of, content_of, files, members, other_hashes, other_contents),
{
    assert forall|p: int, q: int|
        0 <= p < members.len() && 0 <= q < members.len() && p != q && other_hashes[#[trigger] members[p] as int]
            == other_hashes[#[trigger] members[q] as int] implies may_return(
        content_of,
        files[members[p] as int],
        other_contents[members[p] as int],
    ) by {
        assert(keys_at(hashes, members)[p] == hashes[members[p] as int]);
        assert(keys_at(other_hashes, members)[p] == other_hashes[members[p] as int]);
        assert(keys_at(hashes, members)[q] == hashes[members[q] as int]);
        assert(keys_at(other_hashes, members)[q] == other_hashes[members[q] as int]);
        assert(keys_at(contents, members)[p] == contents[members[p] as int]);
        assert(keys_at(other_contents, members)[p] == other_contents[members[p] as int]);
    }
}

/// Finds the duplicates among `files`. `hash_of` computes the hash of a file
/// and `content_of` reads its content.
///
/// The files are grouped by size; the files of each size group with more
/// than one member are hashed and put into buckets by hash; the files of
/// each bucket with more than one member are read and put into buckets by
/// content; each content bucket with more than one member is a duplicate
/// group. So a file is hashed only if it shares its size with another file,
/// and read only if it shares size and hash with another: `hash_of` and
/// `content_of` need not accept any other file. Each is called at most once
/// for a file, and the report is that of the duplicates under the hashes and
/// contents that these calls returned.
pub fn find_duplicates<H: Fn(&FileRecord) -> u64, C: Fn(&FileRecord) -> Vec<u8>>(
    files: &Vec<FileRecord>,
    hash_of: H,
    content_of: C,
) -> (report: DuplicateReport)
    requires
        forall|i: int|
            0 <= i < files.len() && #[trigger] shares_size(files@, i) ==> call_requires(
                hash_of,
                (&files[i],),
            ),
        forall|i: int|
            0 <= i < files.len() && #[trigger] may_share_hash(hash_of, files@, i) ==> call_requires(
                content_of,
                (&files[i],),
            ),
    ensures
        report.total_files == files.len(),
        report.total_bytes == total_size(sizes_of(files@)),
        report.wasted_bytes == waste(group_views(report.groups@)),
        report.wasted_bytes <= report.total_bytes,
        members_within(group_views(report.groups@), files@.len()),
        exists|hashes: Seq<u64>, contents: Seq<Seq<u8>>| #[trigger]
            learned(hash_of, content_of, files@, hashes, contents) && group_views(report.groups@)
                == duplicates(sizes_of(files@), hashes, contents),
{
    let ghost sizes = sizes_of(files@);
    let ghost sgroups = size_groups(sizes);
    let size_list = group_by_size(files);
    let mut groups: Vec<ContentGroup> = Vec::new();
    let ghost mut hashes: Seq<u64> = Seq::new(files.len() as nat, |i: int| 0u64);
    let ghost mut contents: Seq<Seq<u8>> = Seq::new(
        files.len() as nat,
        |i: int| Seq::<u8>::empty(),
    );
    proof {
        assert(group_views(groups@) =~= size_stage(sgroups.take(0), hashes, contents));
    }
    for entry in it: size_list
        invariant
            lists(size_list@, sgroups),
            it.seq() == size_list@,
            sizes == sizes_of(files@),
            sgroups == size_groups(sizes),
            forall|i: int|
                0 <= i < files.len() && #[trigger] shares_size(files@, i) ==> call_requires(
                    hash_of,
                    (&files[i],),
                ),
            forall|i: int|
                0 <= i < files.len() && #[trigger] may_share_hash(hash_of, files@, i)
                    ==> call_requires(content_of, (&files[i],)),
            hashes.len() == files.len(),
            contents.len() == files.len(),
            forall|g: int|
                0 <= g < it.index() && (#[trigger] sgroups[g]).1.len() > 1 ==> group_learned(
                    hash_of,
                    content_of,
                    files@,
                    sgroups[g].1,
                    hashes,
                    contents,
                ),
            group_views(groups@) == size_stage(sgroups.take(it.index() as int), hashes, contents),
    {
        let ghost at = it.index() as int;
        proof {
            assert(sgroups.take(at + 1).drop_last() =~= sgroups.take(at));
            assert(sgroups.take(at + 1).last() == sgroups[at]);
            assert(entry == size_list@[at]);
            assert(size_list@[at].1@ == sgroups[at].1);
            assert(size_list@[at].0 == sgroups[at].0);
            lemma_size_group(sizes, at);
        }
        let (size, members) = entry;
        if members.len() > 1 {
            proof {
                assert forall|p: int| 0 <= p < members.len() implies (#[trigger] members[p])
                    < files.len() && call_requires(hash_of, (&files[members[p] as int],)) by {
                    let x = members[p];
                    let y = if p == 0 {
                        members[1]
                    } else {
                        members[0]
                    };
                    assert(members@.contains(x));
                    assert(members@.contains(y));
                    assert(files@[y as int].size == files@[x as int].size);
                    assert(shares_size(files@, x as int));
                }
                assert forall|p: int, q: int|
                    0 <= p < members.len() && 0 <= q < members.len() && p != q && may_collide(
                        hash_of,
                        files[#[trigger] members[p] as int],
                        files[#[trigger] members[q] as int],
                    ) implies call_requires(content_of, (&files[members[p] as int],)) by {
                    let x = members[p];
                    let y = members[q];
                    assert(members@.contains(x));
                    assert(members@.contains(y));
                    assert(files@[y as int].size == files@[x as int].size);
                    assert(may_share_hash(hash_of, files@, x as int));
                }
            }
            let ghost old_hashes = hashes;
            let ghost old_contents = contents;
            let (Ghost(new_hashes), Ghost(new_contents)) = hash_stage(
                files,
                size,
                &members,
                &hash_of,
                &content_of,
                &mut groups,
                Ghost(hashes),
                Ghost(contents),
            );
            proof {
                hashes = new_hashes;
                contents = new_contents;
                assert forall|g: int| 0 <= g < at implies keys_at(hashes, (#[trigger] sgroups[g]).1)
                    == keys_at(old_hashes, sgroups[g].1) && keys_at(contents, sgroups[g].1)
                    == keys_at(old_contents, sgroups[g].1) by {
                    lemma_size_group(sizes, g);
                    let others = sgroups[g].1;
                    assert forall|r: int| 0 <= r < others.len() implies (#[trigger] others[r])
                        < hashes.len() && !members@.contains(others[r]) by {
                        assert(others.contains(others[r]));
                    }
                    lemma_untouched(hashes, old_hashes, members@, others);
                    lemma_untouched(contents, old_contents, members@, others);
                }
                assert forall|g: int|
                    0 <= g < at + 1 && (#[trigger] sgroups[g]).1.len() > 1 implies group_learned(
                    hash_of,
                    content_of,
                    files@,
                    sgroups[g].1,
                    hashes,
                    contents,
                ) by {
                    if g < at {
                        lemma_size_group(sizes, g);
                        assert forall|p: int| 0 <= p < sgroups[g].1.len() implies (
                        #[trigger] sgroups[g].1[p]) < old_hashes.len() by {
                            assert(sgroups[g].1.contains(sgroups[g].1[p]));
                        }
                        lemma_group_learned_kept(
                            hash_of,
                            content_of,
                            files@,
                            sgroups[g].1,
                            old_hashes,
                            old_contents,
                            hashes,
                            contents,
                        );
                    }
                }
                assert forall|g: int| 0 <= g < sgroups.take(at).len() implies keys_at(
                    hashes,
                    (#[trigger] sgroups.take(at)[g]).1,
                ) == keys_at(old_hashes, sgroups.take(at)[g].1) && keys_at(
                    contents,
                    sgroups.take(at)[g].1,
                ) == keys_at(old_contents, sgroups.take(at)[g].1) by {
                    assert(sgroups.take(at)[g] == sgroups[g]);
                }
                lemma_size_stage_frame(
                    sgroups.take(at),
                    hashes,
                    contents,
                    old_hashes,
                    old_contents,
                );
            }
        }
    }
    proof {
        assert(sgroups.take(size_list@.len() as int) =~= sgroups);
        lemma_ascending(sizes);
        assert forall|i: int| 0 <= i < files.len() && #[trigger] shares_size(files@, i) implies may_return(
            hash_of,
            files@[i],
            hashes[i],
        ) by {
            let j = choose|j: int|
                0 <= j < files.len() && j != i && (#[trigger] files@[j]).size == files@[i].size;
            let size = files@[i].size;
            assert(sizes[i] == size);
            assert(sizes.contains(size));
            assert(ascending(sizes).contains(size));
            let g = choose|g: int| 0 <= g < ascending(sizes).len() && ascending(sizes)[g] == size;
            lemma_size_group(sizes, g);
            let members = sgroups[g].1;
            assert(members.contains(i as usize));
            assert(members.contains(j as usize));
            let p = choose|p: int| 0 <= p < members.len() && members[p] == i as usize;
            let q = choose|q: int| 0 <= q < members.len() && members[q] == j as usize;
            assert(p != q);
            assert(may_return(hash_of, files@[members[p] as int], keys_at(hashes, members)[p]));
        }
        assert forall|i: int|
            0 <= i < files.len() && #[trigger] shares_hash(files@, hashes, i) implies may_return(
            content_of,
            files@[i],
            contents[i],
        ) by {
            let j = choose|j: int|
                0 <= j < files.len() && j != i && (#[trigger] files@[j]).size == files@[i].size
                    && hashes[j] == hashes[i];
            let size = files@[i].size;
            assert(sizes[i] == size);
            assert(sizes.contains(size));
            assert(ascending(sizes).contains(size));
            let g = choose|g: int| 0 <= g < ascending(sizes).len() && ascending(sizes)[g] == size;
            lemma_size_group(sizes, g);
            let members = sgroups[g].1;
            assert(members.contains(i as usize));
            assert(members.contains(j as usize));
            let p = choose|p: int| 0 <= p < members.len() && members[p] == i as usize;
            let q = choose|q: int| 0 <= q < members.len() && members[q] == j as usize;
            assert(p != q);
            assert(hashes[members[p] as int] == hashes[members[q] as int]);
        }
        assert(learned(hash_of, content_of, files@, hashes, contents));
        let found = group_views(groups@);
        assert forall|g: int, p: int|
            0 <= g < found.len() && 0 <= p < found[g].members.len() implies (
        #[trigger] found[g].members[p]) < files@.len() by {
            duplicate_members_are_alike(sizes, hashes, contents, g);
            assert(is_alike(sizes, hashes, contents, found[g], found[g].members[p]));
        }
        lemma_waste_within_total(sizes, hashes, contents);
    }
    let total_bytes = sum_sizes(files);
    let wasted_bytes = sum_waste(&groups);
    DuplicateReport { total_files: files.len(), total_bytes, wasted_bytes, groups }
}

} // verus!
