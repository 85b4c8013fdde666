//! The files that a scan is given.

use vstd::prelude::*;

verus! {

/// A regular file found by the traversal.
pub struct FileRecord {
    /// Where the file is. Nothing in the scan looks into it.
    pub path: String,
    /// Length of the file in bytes.
    pub size: u64,
}

/// The sizes of the files, in the order of the files.
pub open spec fn sizes_of(files: Seq<FileRecord>) -> Seq<u64> {
    Seq::new(files.len(), |i: int| files[i].size)
}

/// The positions `0, 1, ..., n - 1`, by which files are named.
pub open spec fn positions(n: nat) -> Seq<usize> {
    Seq::new(n, |i: int| i as usize)
}

/// Whether the positions rise strictly, so that none occurs twice.
pub open spec fn rising(members: Seq<usize>) -> bool {
    forall|p: int, q: int| 0 <= p < q < members.len() ==> members[p] < members[q]
}

/// The entries of `table` at the positions `members`, in their order.
pub open spec fn keys_at<V>(table: Seq<V>, members: Seq<usize>) -> Seq<V> {
    Seq::new(members.len(), |p: int| table[members[p] as int])
}

} // verus!
