//! Keyed buckets of file indices, kept in a `linear_map::LinearMap`.
//!
//! The map is the outside crate's; what it holds is known here only through
//! the trusted functions of this module, one set for keys that are hashes
//! and one for keys that are file contents.

use linear_map::LinearMap;
use vstd::prelude::*;

verus! {

/// `linear_map::LinearMap`, a map that keeps its entries in a vector and
/// finds a key by comparing it with `==` against each stored key in turn.
#[verifier::external_type_specification]
#[verifier::external_body]
#[verifier::reject_recursive_types(K)]
#[verifier::reject_recursive_types(V)]
pub struct ExLinearMap<K, V>(LinearMap<K, V>);

/// The entries of a map keyed by hash, in the order of the map's vector.
pub uninterp spec fn hash_buckets(map: LinearMap<u64, Vec<usize>>) -> Seq<(u64, Seq<usize>)>;

/// The entries of a map keyed by content, in the order of the map's vector.
pub uninterp spec fn content_buckets(map: LinearMap<Vec<u8>, Vec<usize>>) -> Seq<
    (Seq<u8>, Seq<usize>),
>;

/// Whether `i` is the position of the first entry with key `key`.
pub open spec fn is_first_with<K>(buckets: Seq<(K, Seq<usize>)>, key: K, i: int) -> bool {
    &&& 0 <= i < buckets.len()
    &&& buckets[i].0 == key
    &&& forall|j: int| 0 <= j < i ==> (#[trigger] buckets[j]).0 != key
}

/// Position of the first entry with key `key`, if there is one.
pub open spec fn position_of<K>(buckets: Seq<(K, Seq<usize>)>, key: K) -> Option<int> {
    if exists|i: int| is_first_with(buckets, key, i) {
        Some(choose|i: int| is_first_with(buckets, key, i))
    } else {
        None
    }
}

/// What a request for the bucket of `key` does to a map that held `before`:
/// it hands out `bucket`, the bucket of the first entry with that key if
/// there is one and a new, empty last bucket if there is none; the map ends
/// up as `after`, with whatever the bucket finally holds, `bucket_after`, in
/// that place.
pub open spec fn bucket_handed_out<K>(
    before: Seq<(K, Seq<usize>)>,
    key: K,
    bucket: Seq<usize>,
    bucket_after: Seq<usize>,
    after: Seq<(K, Seq<usize>)>,
) -> bool {
    match position_of(before, key) {
        Some(i) => bucket == before[i].1 && after == before.update(i, (key, bucket_after)),
        None => bucket == Seq::<usize>::empty() && after == before.push((key, bucket_after)),
    }
}

/// Whether `list` holds the entries `buckets`, one for one and in order.
pub open spec fn lists<K: View>(
    list: Seq<(K, Vec<usize>)>,
    buckets: Seq<(K::V, Seq<usize>)>,
) -> bool {
    &&& list.len() == buckets.len()
    &&& forall|i: int|
        0 <= i < list.len() ==> (#[trigger] list[i]).0@ == buckets[i].0 && list[i].1@
            == buckets[i].1
}

/// Calls `LinearMap::new`. Trusted: the new map has no entries.
#[verifier::external_body]
fn hash_map_new() -> (map: LinearMap<u64, Vec<usize>>)
    ensures
        hash_buckets(map) == Seq::<(u64, Seq<usize>)>::empty(),
{
    LinearMap::new()
}

/// Calls `LinearMap::entry` and, on the entry, `Entry::or_insert_with` with
/// `Vec::new`. Trusted: the first entry whose key equals `key` is found and
/// its value handed out; where there is none, an entry with an empty vector
/// is pushed to the end and that vector handed out. Nothing else moves.
#[verifier::external_body]
fn hash_bucket_mut(map: &mut LinearMap<u64, Vec<usize>>, key: u64) -> (bucket: &mut Vec<usize>)
    ensures
        bucket_handed_out(
            hash_buckets(*old(map)),
            key,
            bucket@,
            final(bucket)@,
            hash_buckets(*final(map)),
        ),
{
    map.entry(key).or_insert_with(Vec::new)
}

/// Calls `Into::<Vec<(K, V)>>::into` of `LinearMap`. Trusted: the result is
/// the map's vector of entries as it stands.
#[verifier::external_body]
fn hash_map_list(map: LinearMap<u64, Vec<usize>>) -> (list: Vec<(u64, Vec<usize>)>)
    ensures
        lists(list@, hash_buckets(map)),
{
    map.into()
}

/// Calls `LinearMap::new`. Trusted: the new map has no entries.
#[verifier::external_body]
fn content_map_new() -> (map: LinearMap<Vec<u8>, Vec<usize>>)
    ensures
        content_buckets(map) == Seq::<(Seq<u8>, Seq<usize>)>::empty(),
{
    LinearMap::new()
}

/// Calls `LinearMap::entry` and, on the entry, `Entry::or_insert_with` with
/// `Vec::new`. Trusted as [`hash_bucket_mut`]; two keys are equal when they
/// hold the same bytes.
#[verifier::external_body]
fn content_bucket_mut(map: &mut LinearMap<Vec<u8>, Vec<usize>>, key: Vec<u8>) -> (bucket: &mut Vec<
    usize,
>)
    ensures
        bucket_handed_out(
            content_buckets(*old(map)),
            key@,
            bucket@,
            final(bucket)@,
            content_buckets(*final(map)),
        ),
{
    map.entry(key).or_insert_with(Vec::new)
}

/// Calls `Into::<Vec<(K, V)>>::into` of `LinearMap`. Trusted: the result is
/// the map's vector of entries as it stands.
#[verifier::external_body]
fn content_map_list(map: LinearMap<Vec<u8>, Vec<usize>>) -> (list: Vec<(Vec<u8>, Vec<usize>)>)
    ensures
        lists(list@, content_buckets(map)),
{
    map.into()
}

/// A key by which files can be put into the buckets of a `LinearMap`.
pub trait BucketKey: View + Sized {
    /// The entries of a map with such keys, in order.
    spec fn buckets(map: LinearMap<Self, Vec<usize>>) -> Seq<(Self::V, Seq<usize>)>;

    /// A map without entries.
    fn new_map() -> (map: LinearMap<Self, Vec<usize>>)
        ensures
            Self::buckets(map) == Seq::<(Self::V, Seq<usize>)>::empty(),
    ;

    /// The bucket of `key`, made if the key is new.
    fn bucket_mut(map: &mut LinearMap<Self, Vec<usize>>, key: Self) -> (bucket: &mut Vec<usize>)
        ensures
            bucket_handed_out(
                Self::buckets(*old(map)),
                key@,
                bucket@,
                final(bucket)@,
                Self::buckets(*final(map)),
            ),
    ;

    /// The entries of the map, taken out in order.
    fn into_list(map: LinearMap<Self, Vec<usize>>) -> (list: Vec<(Self, Vec<usize>)>)
        ensures
            lists(list@, Self::buckets(map)),
    ;
}

impl BucketKey for u64 {
    open spec fn buckets(map: LinearMap<u64, Vec<usize>>) -> Seq<(u64, Seq<usize>)> {
        hash_buckets(map)
    }

    fn new_map() -> (map: LinearMap<u64, Vec<usize>>) {
        hash_map_new()
    }

    fn bucket_mut(map: &mut LinearMap<u64, Vec<usize>>, key: u64) -> (bucket: &mut Vec<usize>) {
        hash_bucket_mut(map, key)
    }

    fn into_list(map: LinearMap<u64, Vec<usize>>) -> (list: Vec<(u64, Vec<usize>)>) {
        hash_map_list(map)
    }
}

impl BucketKey for Vec<u8> {
    open spec fn buckets(map: LinearMap<Vec<u8>, Vec<usize>>) -> Seq<(Seq<u8>, Seq<usize>)> {
        content_buckets(map)
    }

    fn new_map() -> (map: LinearMap<Vec<u8>, Vec<usize>>) {
        content_map_new()
    }

    fn bucket_mut(map: &mut LinearMap<Vec<u8>, Vec<usize>>, key: Vec<u8>) -> (bucket: &mut Vec<
        usize,
    >) {
        content_bucket_mut(map, key)
    }

    fn into_list(map: LinearMap<Vec<u8>, Vec<usize>>) -> (list: Vec<(Vec<u8>, Vec<usize>)>) {
        content_map_list(map)
    }
}

} // verus!
