use std::sync::Arc;
use tiny_lsm::block::builder::compute_overlap;
use tiny_lsm::block::{Block, BlockBuilder, BlockIterator};
use tiny_lsm::key::{KeySlice, KeyVec};

fn key(k: &[u8], ts: u64) -> KeySlice<'_> {
    KeySlice::from_slice(k, ts)
}

fn sample() -> Block {
    let mut builder = BlockBuilder::new(4096);
    assert!(builder.is_empty());
    assert!(builder.add(key(b"apple", 3), b"red"));
    assert!(builder.add(key(b"apple", 1), b""));
    assert!(builder.add(key(b"apricot", 7), b"orange"));
    assert!(builder.add(key(b"banana", 2), b"yellow"));
    assert!(!builder.is_empty());
    builder.build()
}

fn rest(mut iter: BlockIterator) -> Vec<(Vec<u8>, u64, Vec<u8>)> {
    let mut out = Vec::new();
    while iter.is_valid() {
        out.push((iter.key().key_ref().to_vec(), iter.key().ts(), iter.value().to_vec()));
        iter.next();
    }
    out
}

#[test]
fn overlap_is_the_common_prefix() {
    assert_eq!(compute_overlap(key(b"", 0), key(b"abc", 0)), 0);
    assert_eq!(compute_overlap(key(b"abc", 0), key(b"abd", 5)), 2);
    assert_eq!(compute_overlap(key(b"abc", 0), key(b"abc", 5)), 3);
    assert_eq!(compute_overlap(key(b"abc", 0), key(b"abcdef", 0)), 3);
    assert_eq!(compute_overlap(key(b"abc", 0), key(b"xbc", 0)), 0);
}

#[test]
fn entries_are_stored_with_their_overlap() {
    let block = sample();
    assert_eq!(block.offsets, vec![0, 22, 36, 61]);
    let mut expected: Vec<u8> = vec![0, 0, 0, 5];
    expected.extend_from_slice(b"apple");
    expected.extend_from_slice(&[0, 0, 0, 0, 0, 0, 0, 3, 0, 3]);
    expected.extend_from_slice(b"red");
    expected.extend_from_slice(&[0, 5, 0, 0, 0, 0, 0, 0, 0, 0, 0, 1, 0, 0]);
    assert_eq!(&block.data[..36], &expected[..]);
    assert_eq!(&block.data[36..45], &[0, 2, 0, 5, b'r', b'i', b'c', b'o', b't']);
}

#[test]
fn encoded_block_is_decoded() {
    let block = sample();
    let encoded = block.encode();
    let n = encoded.len();
    assert_eq!(n, block.data.len() + 4 + 8 + 2);
    assert_eq!(&encoded[n - 2..], &[0, 4]);
    assert_eq!(&encoded[n - 10..n - 8], &[0, 0]);
    assert_eq!(
        &encoded[block.data.len()..block.data.len() + 4],
        &crc32fast::hash(&block.data).to_be_bytes()[..]
    );
    let decoded = Block::decode(&encoded);
    assert_eq!(decoded.data, block.data);
    assert_eq!(decoded.offsets, block.offsets);
}

#[test]
fn full_block_refuses_entries() {
    let mut builder = BlockBuilder::new(16);
    // The first entry is taken, however large.
    assert!(builder.add(key(b"a-long-first-key", 0), b"value"));
    assert!(!builder.add(key(b"b", 0), b""));
    let block = builder.build();
    assert_eq!(block.offsets.len(), 1);

    // 2 + 2 + 16 bytes are there, and 1 + 1 + 6 are asked for.
    let mut builder = BlockBuilder::new(28);
    assert!(builder.add(key(b"a", 0), b"1"));
    assert!(builder.add(key(b"b", 0), b"2"));
    assert!(!builder.add(key(b"c", 0), b"3"));
    let mut builder = BlockBuilder::new(27);
    assert!(builder.add(key(b"a", 0), b"1"));
    assert!(!builder.add(key(b"b", 0), b"2"));
}

#[test]
fn iterator_gives_the_entries_in_order() {
    let block = Arc::new(sample());
    let all = rest(BlockIterator::create_and_seek_to_first(block));
    assert_eq!(
        all,
        vec![
            (b"apple".to_vec(), 3, b"red".to_vec()),
            (b"apple".to_vec(), 1, b"".to_vec()),
            (b"apricot".to_vec(), 7, b"orange".to_vec()),
            (b"banana".to_vec(), 2, b"yellow".to_vec()),
        ]
    );
}

#[test]
fn iterator_seeks_the_first_key_at_or_above() {
    let block = Arc::new(sample());
    let seek = |k: &[u8], ts: u64| {
        let iter = BlockIterator::create_and_seek_to_key(block.clone(), key(k, ts));
        if iter.is_valid() {
            Some((iter.key().key_ref().to_vec(), iter.key().ts()))
        } else {
            None
        }
    };
    assert_eq!(seek(b"apple", 3), Some((b"apple".to_vec(), 3)));
    assert_eq!(seek(b"apple", 2), Some((b"apple".to_vec(), 1)));
    assert_eq!(seek(b"apple", 0), Some((b"apricot".to_vec(), 7)));
    assert_eq!(seek(b"", 0), Some((b"apple".to_vec(), 3)));
    assert_eq!(seek(b"az", 0), Some((b"banana".to_vec(), 2)));
    assert_eq!(seek(b"banana", 1), None);
    assert_eq!(seek(b"zzz", 9), None);
}

#[test]
fn iterator_stays_at_the_end_and_can_go_back() {
    let block = Arc::new(sample());
    let mut iter = BlockIterator::create_and_seek_to_key(block, key(b"zzz", 9));
    assert!(!iter.is_valid());
    iter.next();
    iter.next();
    assert!(!iter.is_valid());
    iter.seek_to_first();
    assert_eq!(iter.key().key_ref(), b"apple");
    iter.seek_to_key(key(b"b", 0));
    assert_eq!(iter.value(), b"yellow");
    iter.next();
    assert!(!iter.is_valid());
}

#[test]
fn first_key_is_read_from_the_data() {
    let block = sample();
    let first: KeyVec = block.get_first_key();
    assert_eq!(first.as_key_slice().key_ref(), b"apple");
    assert_eq!(first.as_key_slice().ts(), 3);
}

#[test]
fn unreadable_blocks_are_recognised() {
    assert!(sample().is_readable());
    let mut broken = sample();
    broken.offsets.push(1000);
    assert!(!broken.is_readable());
    assert!(!Block { data: vec![0, 0], offsets: vec![0] }.is_readable());
    // An empty user key.
    let mut builder = BlockBuilder::new(64);
    assert!(builder.add(key(b"k", 0), b"v"));
    let mut block = builder.build();
    block.data[3] = 0;
    assert!(!block.is_readable());
}
