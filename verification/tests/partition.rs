use dupscan::partition::partition_by;
use dupscan::record::FileRecord;
use dupscan::sizes::group_by_size;
use std::cell::Cell;

fn file(path: &str, size: u64) -> FileRecord {
    FileRecord { path: path.to_string(), size }
}

#[test]
fn partition_keeps_first_seen_order() {
    let items: Vec<u64> = vec![5, 3, 5, 7, 3, 5];
    let members: Vec<usize> = vec![0, 1, 2, 3, 4, 5];
    let map = partition_by(&items, &members, &|item: &u64| *item);
    let buckets: Vec<(u64, Vec<usize>)> = map.into();
    assert_eq!(buckets, vec![(5, vec![0, 2, 5]), (3, vec![1, 4]), (7, vec![3])]);
}

#[test]
fn partition_looks_at_the_members_only() {
    let items: Vec<u64> = vec![1, 2, 1, 2, 1];
    let members: Vec<usize> = vec![1, 2, 4];
    let calls = Cell::new(0);
    let map = partition_by(&items, &members, &|item: &u64| {
        calls.set(calls.get() + 1);
        *item
    });
    let buckets: Vec<(u64, Vec<usize>)> = map.into();
    assert_eq!(buckets, vec![(2, vec![1]), (1, vec![2, 4])]);
    assert_eq!(calls.get(), 3);
}

#[test]
fn partition_of_nothing() {
    let items: Vec<u64> = vec![1, 2];
    let map = partition_by(&items, &vec![], &|item: &u64| *item);
    assert!(map.is_empty());
}

#[test]
fn partition_by_bytes() {
    let items: Vec<&str> = vec!["ab", "cd", "ab", "", "cd", ""];
    let members: Vec<usize> = vec![0, 1, 2, 3, 4, 5];
    let map = partition_by(&items, &members, &|item: &&str| item.as_bytes().to_vec());
    let buckets: Vec<(Vec<u8>, Vec<usize>)> = map.into();
    assert_eq!(
        buckets,
        vec![(b"ab".to_vec(), vec![0, 2]), (b"cd".to_vec(), vec![1, 4]), (vec![], vec![3, 5])]
    );
}

#[test]
fn size_groups_come_smallest_first() {
    let files = vec![file("a", 30), file("b", 10), file("c", 30), file("d", 20), file("e", 10)];
    assert_eq!(group_by_size(&files), vec![(10, vec![1, 4]), (20, vec![3]), (30, vec![0, 2])]);
}

#[test]
fn size_groups_hold_each_file_once() {
    let files: Vec<FileRecord> =
        (0..50u64).map(|i| file(&format!("f{}", i), (i * 37) % 7)).collect();
    let groups = group_by_size(&files);
    let mut seen = vec![0; files.len()];
    for (size, members) in &groups {
        for member in members {
            assert_eq!(files[*member].size, *size);
            seen[*member] += 1;
        }
    }
    assert_eq!(seen, vec![1; files.len()]);
    assert_eq!(groups.iter().map(|(_, members)| members.len()).sum::<usize>(), files.len());
}

#[test]
fn size_groups_of_nothing() {
    assert_eq!(group_by_size(&vec![]), vec![]);
}

#[test]
fn ordered_keys_rise() {
    let mut map = std::collections::BTreeMap::new();
    map.insert(30u64, vec![0usize]);
    map.insert(10, vec![1, 2]);
    map.insert(20, vec![]);
    assert_eq!(dupscan::order::ordered_keys(&map), vec![10, 20, 30]);
    assert_eq!(dupscan::order::ordered_keys(&std::collections::BTreeMap::new()), vec![]);
}
