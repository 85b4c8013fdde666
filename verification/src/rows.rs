//! The inventory of duplicate files: one row for each member of each
//! duplicate group, to be stored or listed.

use crate::record::FileRecord;
use crate::scan::{group_views, ContentGroup, GroupModel};
use vstd::prelude::*;

verus! {

/// One duplicate file.
pub struct DuplicateRow {
    /// Hash of the file's content.
    pub hash: u64,
    /// Where the file is.
    pub path: String,
    /// Size of the file in bytes.
    pub size: u64,
}

impl View for DuplicateRow {
    type V = (u64, Seq<char>, u64);

    open spec fn view(&self) -> (u64, Seq<char>, u64) {
        (self.hash, self.path@, self.size)
    }
}

/// The rows of a list, each as a mathematical value.
pub open spec fn row_views(rows: Seq<DuplicateRow>) -> Seq<(u64, Seq<char>, u64)> {
    Seq::new(rows.len(), |r: int| rows[r]@)
}

/// The rows of one group: hash, path and size of each member, in order.
pub open spec fn group_rows(files: Seq<FileRecord>, group: GroupModel) -> Seq<
    (u64, Seq<char>, u64),
> {
    Seq::new(
        group.members.len(),
        |p: int| (group.hash, files[group.members[p] as int].path@, group.size),
    )
}

/// The rows of the groups, group after group.
pub open spec fn rows_of(files: Seq<FileRecord>, groups: Seq<GroupModel>) -> Seq<
    (u64, Seq<char>, u64),
>
    decreases groups.len(),
{
    if groups.len() == 0 {
        Seq::empty()
    } else {
        rows_of(files, groups.drop_last()) + group_rows(files, groups.last())
    }
}

/// Whether every member of every group is one of `count` files.
pub open spec fn members_within(groups: Seq<GroupModel>, count: nat) -> bool {
    forall|g: int, p: int|
        0 <= g < groups.len() && 0 <= p < groups[g].members.len() ==> (
        #[trigger] groups[g].members[p]) < count
}

/// Lists the duplicate files: for each group in turn, a row for each of its
/// members in turn. There is no list if a member of a group is not one of
/// the files.
pub fn duplicate_rows(files: &Vec<FileRecord>, groups: &Vec<ContentGroup>) -> (rows: Option<
    Vec<DuplicateRow>,
>)
    ensures
        rows is Some <==> members_within(group_views(groups@), files@.len()),
        rows matches Some(rows) ==> row_views(rows@) == rows_of(files@, group_views(groups@)),
{
    let ghost views = group_views(groups@);
    let mut rows: Vec<DuplicateRow> = Vec::new();
    let mut at: usize = 0;
    while at < groups.len()
        invariant
            at <= groups.len(),
            views == group_views(groups@),
            members_within(views.take(at as int), files@.len()),
            row_views(rows@) == rows_of(files@, views.take(at as int)),
        decreases groups.len() - at,
    {
        let group = &groups[at];
        let ghost before = row_views(rows@);
        proof {
            assert(views.take(at + 1).drop_last() =~= views.take(at as int));
            assert(views.take(at + 1).last() == group@);
        }
        let mut next: usize = 0;
        while next < group.members.len()
            invariant
                next <= group.members.len(),
                at < groups.len(),
                views == group_views(groups@),
                group == groups[at as int],
                forall|p: int| 0 <= p < next ==> (#[trigger] group.members[p]) < files.len(),
                row_views(rows@) == before + group_rows(files@, group@).take(next as int),
            decreases group.members.len() - next,
        {
            let member: usize = group.members[next];
            if member >= files.len() {
                proof {
                    assert(views[at as int].members[next as int] == member);
                }
                return None;
            }
            let ghost earlier = row_views(rows@);
            let path = files[member].path.clone();
            rows.push(DuplicateRow { hash: group.hash, path, size: group.size });
            proof {
                let row = (group.hash, files@[member as int].path@, group.size);
                assert(row_views(rows@) =~= earlier.push(row));
                assert(group_rows(files@, group@).take(next + 1) =~= group_rows(
                    files@,
                    group@,
                ).take(next as int).push(row));
                assert(row_views(rows@) =~= before + group_rows(files@, group@).take(next + 1));
            }
            next = next + 1;
        }
        proof {
            assert(group_rows(files@, group@).take(next as int) =~= group_rows(files@, group@));
            assert forall|g: int, p: int|
                0 <= g < views.take(at + 1).len() && 0 <= p < views.take(
                    at + 1,
                )[g].members.len() implies (#[trigger] views.take(at + 1)[g].members[p])
                < files@.len() by {
                if g < at {
                    assert(views.take(at as int)[g].members[p] < files@.len());
                } else {
                    assert(views.take(at + 1)[g].members[p] == group.members[p]);
                }
            }
        }
        at = at + 1;
    }
    proof {
        assert(views.take(at as int) =~= views);
    }
    Some(rows)
}

} // verus!
