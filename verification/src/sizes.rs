//! The first stage: files grouped by size, smallest size first.

use crate::buckets::lists;
use crate::order::ordered_keys;
use crate::partition::{buckets_for, lemma_select, select};
use crate::record::{positions, sizes_of, FileRecord};
use std::collections::BTreeMap;
use vstd::prelude::*;

verus! {

/// Whether `list` rises strictly from each entry to the next.
pub open spec fn increasing(list: Seq<u64>) -> bool {
    forall|g: int, h: int| 0 <= g < h < list.len() ==> list[g] < list[h]
}

/// The increasing list `list` with `size` put in its place, unless it is
/// there already.
pub open spec fn with_size(list: Seq<u64>, size: u64) -> Seq<u64>
    decreases list.len(),
{
    if list.len() == 0 || list.last() < size {
        list.push(size)
    } else if list.last() == size {
        list
    } else {
        with_size(list.drop_last(), size).push(list.last())
    }
}

/// Each size that occurs in `sizes` once, smallest first.
pub open spec fn ascending(sizes: Seq<u64>) -> Seq<u64>
    decreases sizes.len(),
{
    if sizes.len() == 0 {
        Seq::empty()
    } else {
        with_size(ascending(sizes.drop_last()), sizes.last())
    }
}

/// The size groups of files with the sizes `sizes`: one group for each size
/// that occurs, smallest size first, holding the positions of the files of
/// that size in their order.
pub open spec fn size_groups(sizes: Seq<u64>) -> Seq<(u64, Seq<usize>)> {
    buckets_for(positions(sizes.len()), sizes, ascending(sizes))
}

/// Groups the files by size. The groups come smallest size first; each holds
/// the positions of its files in the order of `files`.
pub fn group_by_size(files: &Vec<FileRecord>) -> (groups: Vec<(u64, Vec<usize>)>)
    ensures
        lists(groups@, size_groups(sizes_of(files@))),
{
    let ghost sizes = sizes_of(files@);
    let mut by_size: BTreeMap<u64, Vec<usize>> = BTreeMap::new();
    let mut next: usize = 0;
    while next < files.len()
        invariant
            next <= files.len(),
            sizes == sizes_of(files@),
            forall|s: u64| by_size@.contains_key(s) <==> sizes.take(next as int).contains(s),
            forall|s: u64| #[trigger]
                by_size@.contains_key(s) ==> by_size@[s]@ == select(
                    positions(next as nat),
                    sizes.take(next as int),
                    s,
                ),
        decreases files.len() - next,
    {
        let size: u64 = files[next].size;
        let ghost before = by_size@;
        let mut members: Vec<usize> = match by_size.remove(&size) {
            Some(members) => members,
            None => Vec::new(),
        };
        members.push(next);
        by_size.insert(size, members);
        proof {
            let seen = sizes.take(next as int);
            let more = sizes.take(next + 1);
            assert(more.drop_last() =~= seen);
            assert(positions((next + 1) as nat).drop_last() =~= positions(next as nat));
            lemma_select(positions(next as nat), seen, size);
            assert forall|s: u64| by_size@.contains_key(s) <==> more.contains(s) by {
                if more.contains(s) && s != size {
                    let i = choose|i: int| 0 <= i < more.len() && more[i] == s;
                    assert(seen[i] == s);
                }
                if seen.contains(s) {
                    let i = choose|i: int| 0 <= i < seen.len() && seen[i] == s;
                    assert(more[i] == s);
                }
                if s == size {
                    assert(more[next as int] == s);
                }
            }
        }
        next = next + 1;
    }
    proof {
        assert(sizes.take(next as int) =~= sizes);
    }
    let order = ordered_keys(&by_size);
    let ghost full = by_size@;
    let mut groups: Vec<(u64, Vec<usize>)> = Vec::new();
    let mut at: usize = 0;
    while at < order.len()
        invariant
            at <= order.len(),
            groups@.len() == at,
            increasing(order@),
            forall|g: int| 0 <= g < order@.len() ==> full.contains_key(#[trigger] order@[g]),
            forall|g: int|
                at <= g < order@.len() ==> by_size@.contains_key(#[trigger] order@[g])
                    && by_size@[order@[g]] == full[order@[g]],
            forall|g: int|
                0 <= g < at ==> (#[trigger] groups@[g]).0 == order@[g] && groups@[g].1
                    == full[order@[g]],
        decreases order.len() - at,
    {
        let size: u64 = order[at];
        match by_size.remove(&size) {
            Some(members) => {
                groups.push((size, members));
            },
            None => {
                assert(false);
            },
        }
        at = at + 1;
    }
    proof {
        lemma_ascending(sizes);
        assert forall|s: u64| order@.contains(s) <==> ascending(sizes).contains(s) by {
            if order@.contains(s) {
                let g = choose|g: int| 0 <= g < order@.len() && order@[g] == s;
                assert(full.contains_key(order@[g]));
            }
        }
        lemma_increasing_unique(order@, ascending(sizes));
    }
    groups
}

/// Putting a size in its place keeps the list increasing and adds just that
/// size.
pub proof fn lemma_with_size(list: Seq<u64>, size: u64)
    requires
        increasing(list),
    ensures
        increasing(with_size(list, size)),
        forall|s: u64| #[trigger]
            with_size(list, size).contains(s) <==> list.contains(s) || s == size,
    decreases list.len(),
{
    let placed = with_size(list, size);
    if list.len() == 0 || list.last() < size {
        assert forall|s: u64| placed.contains(s) <==> list.contains(s) || s == size by {
            if placed.contains(s) {
                let i = choose|i: int| 0 <= i < placed.len() && placed[i] == s;
                if i < list.len() {
                    assert(list[i] == s);
                }
            }
            if list.contains(s) {
                let i = choose|i: int| 0 <= i < list.len() && list[i] == s;
                assert(placed[i] == s);
            }
            if s == size {
                assert(placed[list.len() as int] == s);
            }
        }
    } else if list.last() == size {
        assert(list[list.len() - 1] == size);
    } else {
        let front = list.drop_last();
        let inner = with_size(front, size);
        lemma_with_size(front, size);
        assert forall|s: u64| placed.contains(s) <==> list.contains(s) || s == size by {
            if placed.contains(s) {
                let i = choose|i: int| 0 <= i < placed.len() && placed[i] == s;
                if i < inner.len() {
                    assert(inner[i] == s);
                    assert(inner.contains(s));
                    if front.contains(s) {
                        let j = choose|j: int| 0 <= j < front.len() && front[j] == s;
                        assert(list[j] == s);
                    }
                } else {
                    assert(list[list.len() - 1] == s);
                }
            }
            if list.contains(s) {
                let j = choose|j: int| 0 <= j < list.len() && list[j] == s;
                if j < front.len() {
                    assert(front[j] == s);
                    assert(front.contains(s));
                    assert(inner.contains(s));
                    let i = choose|i: int| 0 <= i < inner.len() && inner[i] == s;
                    assert(placed[i] == s);
                } else {
                    assert(placed[inner.len() as int] == s);
                }
            }
            if s == size {
                assert(inner.contains(s));
                let i = choose|i: int| 0 <= i < inner.len() && inner[i] == s;
                assert(placed[i] == s);
            }
        }
        assert forall|g: int, h: int| 0 <= g < h < placed.len() implies placed[g] < placed[h] by {
            if h == inner.len() {
                assert(inner.contains(inner[g]));
                if inner[g] != size {
                    assert(front.contains(inner[g]));
                    let j = choose|j: int| 0 <= j < front.len() && front[j] == inner[g];
                    assert(list[j] < list[list.len() - 1]);
                }
            }
        }
    }
}

/// `ascending` is increasing and holds exactly the sizes that occur.
pub proof fn lemma_ascending(sizes: Seq<u64>)
    ensures
        increasing(ascending(sizes)),
        forall|s: u64| #[trigger] ascending(sizes).contains(s) <==> sizes.contains(s),
    decreases sizes.len(),
{
    if sizes.len() > 0 {
        let front = sizes.drop_last();
        lemma_ascending(front);
        lemma_with_size(ascending(front), sizes.last());
        assert forall|s: u64| ascending(sizes).contains(s) <==> sizes.contains(s) by {
            if sizes.contains(s) {
                let i = choose|i: int| 0 <= i < sizes.len() && sizes[i] == s;
                if i < front.len() {
                    assert(front[i] == s);
                    assert(front.contains(s));
                }
            }
            if front.contains(s) {
                let i = choose|i: int| 0 <= i < front.len() && front[i] == s;
                assert(sizes[i] == s);
            }
            if s == sizes.last() {
                assert(sizes[sizes.len() - 1] == s);
            }
        }
    }
}

/// Two increasing lists of the same sizes are the same list.
pub proof fn lemma_increasing_unique(a: Seq<u64>, b: Seq<u64>)
    requires
        increasing(a),
        increasing(b),
        forall|s: u64| a.contains(s) <==> b.contains(s),
    ensures
        a == b,
    decreases a.len(),
{
    if a.len() == 0 {
        if b.len() > 0 {
            assert(b.contains(b[0]));
        }
        assert(a =~= b);
    } else {
        let top = a.last();
        assert(a[a.len() - 1] == top);
        assert(a.contains(top));
        assert(b.contains(top));
        let j = choose|j: int| 0 <= j < b.len() && b[j] == top;
        assert(b.contains(b[b.len() - 1]));
        assert(a.contains(b.last()));
        let i = choose|i: int| 0 <= i < a.len() && a[i] == b.last();
        assert(b.last() == top);
        let a_front = a.drop_last();
        let b_front = b.drop_last();
        assert forall|s: u64| a_front.contains(s) <==> b_front.contains(s) by {
            if a_front.contains(s) {
                let i = choose|i: int| 0 <= i < a_front.len() && a_front[i] == s;
                assert(a[i] == s);
                assert(a.contains(s));
                let j = choose|j: int| 0 <= j < b.len() && b[j] == s;
                assert(b_front[j] == s);
            }
            if b_front.contains(s) {
                let j = choose|j: int| 0 <= j < b_front.len() && b_front[j] == s;
                assert(b[j] == s);
                assert(b.contains(s));
                let i = choose|i: int| 0 <= i < a.len() && a[i] == s;
                assert(a_front[i] == s);
            }
        }
        lemma_increasing_unique(a_front, b_front);
        assert(a =~= a_front.push(top));
        assert(b =~= b_front.push(top));
    }
}

} // verus!
