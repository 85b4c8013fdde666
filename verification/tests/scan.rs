use dupscan::record::FileRecord;
use dupscan::scan::{find_duplicates, ContentGroup, DuplicateReport};
use dupscan::stream::{to_hash, ReadOutcome};
use std::cell::Cell;

/// Files in memory: path and content.
fn tree(entries: &[(&str, &[u8])]) -> (Vec<FileRecord>, Vec<(String, Vec<u8>)>) {
    let files = entries
        .iter()
        .map(|(path, content)| FileRecord { path: path.to_string(), size: content.len() as u64 })
        .collect();
    let store =
        entries.iter().map(|(path, content)| (path.to_string(), content.to_vec())).collect();
    (files, store)
}

fn content_in(store: &[(String, Vec<u8>)], file: &FileRecord) -> Vec<u8> {
    store.iter().find(|(path, _)| *path == file.path).unwrap().1.clone()
}

fn hash_in(store: &[(String, Vec<u8>)], file: &FileRecord) -> u64 {
    to_hash(&vec![ReadOutcome::Data(content_in(store, file))]).unwrap()
}

fn scan(files: &Vec<FileRecord>, store: &[(String, Vec<u8>)]) -> DuplicateReport {
    find_duplicates(files, |file: &FileRecord| hash_in(store, file), |file: &FileRecord| {
        content_in(store, file)
    })
}

fn members_of(groups: &[ContentGroup]) -> Vec<Vec<usize>> {
    groups.iter().map(|group| group.members.clone()).collect()
}

#[test]
fn three_copies_one_stranger_one_larger_file() {
    let (files, store) = tree(&[
        ("a", b"0123456789"),
        ("b", b"abcdefghij"),
        ("c", b"0123456789"),
        ("d", b"01234567890123456789"),
        ("e", b"0123456789"),
    ]);
    let report = scan(&files, &store);
    assert_eq!(report.total_files, 5);
    assert_eq!(report.total_bytes, 60);
    assert_eq!(report.groups.len(), 1);
    assert_eq!(report.groups[0].size, 10);
    assert_eq!(report.groups[0].hash, hash_in(&store, &files[0]));
    assert_eq!(report.groups[0].members, vec![0, 2, 4]);
    assert_eq!(report.wasted_bytes, 20);
}

#[test]
fn empty_tree() {
    let report = scan(&vec![], &[]);
    assert_eq!(report.total_files, 0);
    assert_eq!(report.total_bytes, 0);
    assert_eq!(report.wasted_bytes, 0);
    assert!(report.groups.is_empty());
}

#[test]
fn same_size_same_hash_one_byte_differs() {
    let (files, store) = tree(&[("a", b"0123456789"), ("b", b"0123456788")]);
    let report = find_duplicates(&files, |_: &FileRecord| 99, |file: &FileRecord| {
        content_in(&store, file)
    });
    assert_eq!(report.total_files, 2);
    assert!(report.groups.is_empty());
    assert_eq!(report.wasted_bytes, 0);
}

#[test]
fn colliding_hashes_do_not_merge_groups() {
    let (files, store) = tree(&[
        ("a", b"xx"),
        ("b", b"yy"),
        ("c", b"xx"),
        ("d", b"yy"),
        ("e", b"zz"),
        ("f", b"yy"),
    ]);
    let report = find_duplicates(&files, |_: &FileRecord| 1, |file: &FileRecord| {
        content_in(&store, file)
    });
    assert_eq!(members_of(&report.groups), vec![vec![0, 2], vec![1, 3, 5]]);
    assert_eq!(report.groups[0].hash, 1);
    assert_eq!(report.groups[1].hash, 1);
    assert_eq!(report.wasted_bytes, 2 + 4);
}

#[test]
fn equal_content_under_different_hashes_stays_apart() {
    let (files, store) = tree(&[("a", b"xx"), ("b", b"xx"), ("c", b"xx"), ("d", b"xx")]);
    let hash = |file: &FileRecord| if file.path == "a" || file.path == "d" { 1 } else { 2 };
    let report = find_duplicates(&files, hash, |file: &FileRecord| content_in(&store, file));
    assert_eq!(members_of(&report.groups), vec![vec![0, 3], vec![1, 2]]);
    assert_eq!(report.groups[0].hash, 1);
    assert_eq!(report.groups[1].hash, 2);
}

#[test]
fn singletons_are_neither_hashed_nor_read() {
    let (files, store) = tree(&[
        ("lonely size", b"1"),
        ("pair 1", b"22"),
        ("pair 2", b"22"),
        ("lonely hash", b"333"),
        ("triple 1", b"444"),
        ("triple 2", b"444"),
    ]);
    let hashed = Cell::new(Vec::new());
    let read = Cell::new(Vec::new());
    let note = |list: &Cell<Vec<String>>, file: &FileRecord| {
        let mut paths = list.take();
        paths.push(file.path.clone());
        list.set(paths);
    };
    let report = find_duplicates(
        &files,
        |file: &FileRecord| {
            note(&hashed, file);
            hash_in(&store, file)
        },
        |file: &FileRecord| {
            note(&read, file);
            content_in(&store, file)
        },
    );
    assert_eq!(
        hashed.take(),
        vec!["pair 1", "pair 2", "lonely hash", "triple 1", "triple 2"]
    );
    assert_eq!(read.take(), vec!["pair 1", "pair 2", "triple 1", "triple 2"]);
    assert_eq!(members_of(&report.groups), vec![vec![1, 2], vec![4, 5]]);
}

#[test]
fn a_tree_without_equal_sizes_calls_nothing() {
    let (files, _) = tree(&[("a", b"1"), ("b", b"22"), ("c", b"333")]);
    let report = find_duplicates(
        &files,
        |_: &FileRecord| -> u64 { panic!("hashed") },
        |_: &FileRecord| -> Vec<u8> { panic!("read") },
    );
    assert_eq!(report.total_files, 3);
    assert_eq!(report.total_bytes, 6);
    assert!(report.groups.is_empty());
}

#[test]
fn waste_is_size_times_copies_beyond_the_first() {
    let (files, store) = tree(&[
        ("a", b"12345"),
        ("b", b"12345"),
        ("c", b"12345"),
        ("d", b"12345"),
        ("e", b"abc"),
        ("f", b"abc"),
        ("g", b"abd"),
    ]);
    let report = scan(&files, &store);
    assert_eq!(members_of(&report.groups), vec![vec![4, 5], vec![0, 1, 2, 3]]);
    assert_eq!(report.wasted_bytes, 3 * (2 - 1) + 5 * (4 - 1));
    assert_eq!(report.total_bytes, 4 * 5 + 3 * 3);
}

#[test]
fn groups_come_by_size_then_first_seen_hash_then_first_seen_content() {
    let (files, store) = tree(&[
        ("a", b"bb1"),
        ("b", b"bb2"),
        ("c", b"bb3"),
        ("d", b"bb2"),
        ("e", b"bb3"),
        ("f", b"a"),
        ("g", b"a"),
    ]);
    let hash = |file: &FileRecord| match file.path.as_str() {
        "a" | "c" | "e" => 1,
        "b" | "d" => 2,
        _ => 3,
    };
    let report = find_duplicates(&files, hash, |file: &FileRecord| content_in(&store, file));
    assert_eq!(members_of(&report.groups), vec![vec![5, 6], vec![2, 4], vec![1, 3]]);
    let sizes: Vec<u64> = report.groups.iter().map(|group| group.size).collect();
    assert_eq!(sizes, vec![1, 3, 3]);
}

#[test]
fn two_scans_of_one_tree_agree() {
    let (files, store) = tree(&[
        ("a", b"one"),
        ("b", b"two"),
        ("c", b"one"),
        ("d", b"three"),
        ("e", b"three"),
        ("f", b"two"),
        ("g", b"seven"),
    ]);
    let first = scan(&files, &store);
    let second = scan(&files, &store);
    assert_eq!(first.total_files, second.total_files);
    assert_eq!(first.total_bytes, second.total_bytes);
    assert_eq!(first.wasted_bytes, second.wasted_bytes);
    assert_eq!(members_of(&first.groups), members_of(&second.groups));
    assert_eq!(members_of(&first.groups), vec![vec![0, 2], vec![1, 5], vec![3, 4]]);
    assert_eq!(first.wasted_bytes, 3 + 3 + 5);
}

#[test]
fn members_of_a_group_have_equal_content_and_groups_differ() {
    let (files, store) = tree(&[
        ("a", b"aaaa"),
        ("b", b"bbbb"),
        ("c", b"aaaa"),
        ("d", b"bbbb"),
        ("e", b"cccc"),
        ("f", b"aaaa"),
    ]);
    let report = find_duplicates(&files, |_: &FileRecord| 0, |file: &FileRecord| {
        content_in(&store, file)
    });
    for group in &report.groups {
        assert!(group.members.len() > 1);
        for member in &group.members {
            assert_eq!(store[*member].1, store[group.members[0]].1);
            assert_eq!(files[*member].size, group.size);
        }
    }
    for (g, one) in report.groups.iter().enumerate() {
        for other in &report.groups[g + 1..] {
            assert_ne!(store[one.members[0]].1, store[other.members[0]].1);
        }
    }
    assert_eq!(members_of(&report.groups), vec![vec![0, 2, 5], vec![1, 3]]);
}

#[test]
fn the_same_file_under_two_roots_counts_twice() {
    let (files, store) = tree(&[("root/a", b"data"), ("root/a", b"data")]);
    let report = scan(&files, &store);
    assert_eq!(report.total_files, 2);
    assert_eq!(members_of(&report.groups), vec![vec![0, 1]]);
    assert_eq!(report.wasted_bytes, 4);
}

#[test]
fn rows_list_every_member_of_every_group() {
    let (files, store) =
        tree(&[("a", b"xx"), ("b", b"yyy"), ("c", b"xx"), ("d", b"yyy"), ("e", b"z")]);
    let report = scan(&files, &store);
    let rows = dupscan::rows::duplicate_rows(&files, &report.groups).unwrap();
    let listed: Vec<(u64, &str, u64)> =
        rows.iter().map(|row| (row.hash, row.path.as_str(), row.size)).collect();
    let xx = hash_in(&store, &files[0]);
    let yyy = hash_in(&store, &files[1]);
    assert_eq!(listed, vec![(xx, "a", 2), (xx, "c", 2), (yyy, "b", 3), (yyy, "d", 3)]);
}

#[test]
fn rows_of_no_groups() {
    let (files, _) = tree(&[("a", b"xx")]);
    assert!(dupscan::rows::duplicate_rows(&files, &vec![]).unwrap().is_empty());
}

#[test]
fn rows_need_members_among_the_files() {
    let (files, _) = tree(&[("a", b"xx"), ("b", b"xx")]);
    let groups = vec![ContentGroup { size: 2, hash: 0, members: vec![0, 2] }];
    assert!(dupscan::rows::duplicate_rows(&files, &groups).is_none());
}

#[test]
fn empty_files_are_duplicates_that_waste_nothing() {
    let (files, store) = tree(&[("a", b""), ("b", b"x"), ("c", b""), ("d", b"")]);
    let report = scan(&files, &store);
    assert_eq!(members_of(&report.groups), vec![vec![0, 2, 3]]);
    assert_eq!(report.groups[0].size, 0);
    assert_eq!(report.groups[0].hash, 0xef46_db37_51d8_e999);
    assert_eq!(report.wasted_bytes, 0);
    assert_eq!(report.total_bytes, 1);
}

#[test]
fn totals_do_not_overflow_64_bits() {
    let files = vec![
        FileRecord { path: "a".to_string(), size: u64::MAX },
        FileRecord { path: "b".to_string(), size: u64::MAX },
        FileRecord { path: "c".to_string(), size: u64::MAX },
    ];
    let report = find_duplicates(&files, |_: &FileRecord| 5, |_: &FileRecord| vec![1, 2, 3]);
    assert_eq!(report.total_bytes, 3 * (u64::MAX as u128));
    assert_eq!(report.wasted_bytes, 2 * (u64::MAX as u128));
    assert_eq!(members_of(&report.groups), vec![vec![0, 1, 2]]);
}
