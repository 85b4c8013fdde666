use dupscan::stream::{
    copy, copy_step, to_hash, CopyStep, ReadError, ReadOutcome, StreamHasher, CHUNK_SIZE,
};
use std::hash::Hasher;
use twox_hash::XxHash64;

fn digest_of(bytes: &[u8]) -> u64 {
    let mut hasher = XxHash64::default();
    hasher.write(bytes);
    hasher.finish()
}

#[test]
fn chunk_size_is_64_kib() {
    assert_eq!(CHUNK_SIZE, 64 * 1024);
}

#[test]
fn hash_of_an_empty_stream() {
    assert_eq!(to_hash(&vec![]), Ok(0xef46_db37_51d8_e999));
    assert_eq!(to_hash(&vec![ReadOutcome::Data(vec![])]), Ok(0xef46_db37_51d8_e999));
}

#[test]
fn hash_of_a_single_byte() {
    assert_eq!(to_hash(&vec![ReadOutcome::Data(vec![42])]), Ok(0x0a9e_dece_beb0_3ae4));
}

#[test]
fn hash_of_several_bytes() {
    let reads = vec![ReadOutcome::Data(b"Hello, world!\0".to_vec())];
    assert_eq!(to_hash(&reads), Ok(0x7b06_c531_ea43_e89f));
}

#[test]
fn hash_does_not_depend_on_how_the_stream_was_cut() {
    let bytes: Vec<u8> = (0..1000u32).map(|i| (i * 7 % 251) as u8).collect();
    let whole = vec![ReadOutcome::Data(bytes.clone())];
    let cut = vec![
        ReadOutcome::Data(bytes[..1].to_vec()),
        ReadOutcome::Data(bytes[1..34].to_vec()),
        ReadOutcome::Interrupted,
        ReadOutcome::Data(bytes[34..999].to_vec()),
        ReadOutcome::Data(bytes[999..].to_vec()),
        ReadOutcome::Data(vec![]),
    ];
    assert_eq!(to_hash(&whole), Ok(digest_of(&bytes)));
    assert_eq!(to_hash(&cut), Ok(digest_of(&bytes)));
}

#[test]
fn hash_of_a_stream_longer_than_one_chunk() {
    let bytes: Vec<u8> = (0..(3 * CHUNK_SIZE + 17)).map(|i| (i % 256) as u8).collect();
    let reads: Vec<ReadOutcome> =
        bytes.chunks(CHUNK_SIZE).map(|chunk| ReadOutcome::Data(chunk.to_vec())).collect();
    assert_eq!(reads.len(), 4);
    assert_eq!(to_hash(&reads), Ok(digest_of(&bytes)));
}

#[test]
fn copy_counts_the_bytes_and_feeds_the_hasher() {
    let reads = vec![
        ReadOutcome::Data(vec![1, 2, 3]),
        ReadOutcome::Interrupted,
        ReadOutcome::Data(vec![4, 5]),
        ReadOutcome::Data(vec![]),
    ];
    let mut hasher = StreamHasher::new();
    assert_eq!(copy(&reads, &mut hasher), Ok(5));
    assert_eq!(hasher.finish(), digest_of(&[1, 2, 3, 4, 5]));
}

#[test]
fn copy_stops_at_the_end_of_the_stream() {
    let reads = vec![
        ReadOutcome::Data(vec![1, 2, 3]),
        ReadOutcome::Data(vec![]),
        ReadOutcome::Data(vec![9, 9]),
        ReadOutcome::Failed,
    ];
    let mut hasher = StreamHasher::new();
    assert_eq!(copy(&reads, &mut hasher), Ok(3));
    assert_eq!(hasher.finish(), digest_of(&[1, 2, 3]));
}

#[test]
fn copy_appends_to_what_the_hasher_has() {
    let mut hasher = StreamHasher::new();
    hasher.write(&[10, 20]);
    assert_eq!(hasher.fed(), 2);
    assert_eq!(copy(&vec![ReadOutcome::Data(vec![30])], &mut hasher), Ok(1));
    assert_eq!(hasher.fed(), 3);
    assert_eq!(hasher.finish(), digest_of(&[10, 20, 30]));
    assert_eq!(copy(&vec![ReadOutcome::Data(vec![40, 50])], &mut hasher), Ok(2));
    assert_eq!(hasher.finish(), digest_of(&[10, 20, 30, 40, 50]));
}

#[test]
fn a_new_hasher_has_seed_zero_and_no_input() {
    let hasher = StreamHasher::new();
    assert_eq!(hasher.fed(), 0);
    assert_eq!(hasher.finish(), XxHash64::with_seed(0).finish());
    assert_eq!(hasher.finish(), 0xef46_db37_51d8_e999);
}

#[test]
fn copy_retries_interrupted_reads() {
    let reads = vec![
        ReadOutcome::Interrupted,
        ReadOutcome::Interrupted,
        ReadOutcome::Data(vec![7]),
        ReadOutcome::Interrupted,
    ];
    let mut hasher = StreamHasher::new();
    assert_eq!(copy(&reads, &mut hasher), Ok(1));
    assert_eq!(hasher.finish(), digest_of(&[7]));
}

#[test]
fn copy_fails_on_a_failed_read() {
    let reads =
        vec![ReadOutcome::Data(vec![1, 2]), ReadOutcome::Failed, ReadOutcome::Data(vec![3])];
    let mut hasher = StreamHasher::new();
    assert_eq!(copy(&reads, &mut hasher), Err(ReadError));
    assert_eq!(hasher.finish(), digest_of(&[1, 2]));
    assert_eq!(to_hash(&reads), Err(ReadError));
}

#[test]
fn copy_step_by_step() {
    let mut hasher = StreamHasher::new();
    assert_eq!(copy_step(&mut hasher, 0, &ReadOutcome::Data(vec![1, 2, 3])), CopyStep::Continue(3));
    assert_eq!(copy_step(&mut hasher, 3, &ReadOutcome::Interrupted), CopyStep::Continue(3));
    assert_eq!(copy_step(&mut hasher, 3, &ReadOutcome::Data(vec![4])), CopyStep::Continue(4));
    assert_eq!(copy_step(&mut hasher, 4, &ReadOutcome::Data(vec![])), CopyStep::Done(4));
    assert_eq!(copy_step(&mut hasher, 4, &ReadOutcome::Failed), CopyStep::Abort);
    assert_eq!(hasher.finish(), digest_of(&[1, 2, 3, 4]));
}
