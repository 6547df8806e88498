use bytes::Bytes;
use tiny_lsm::error::LsmError;
use tiny_lsm::table::bloom::{BitSlice, BitSliceMut, Bloom};

#[test]
fn test_get_bit() {
    let val = [1, 7, 3, 4];

    println!("{:?}", val);
    let val = Bytes::copy_from_slice(&val[..]);

    let output = val.get_bit(10);
    println!("Output: {}", output);
    assert!(output);
}

#[test]
fn bits_are_counted_from_the_least_significant() {
    let val = Bytes::copy_from_slice(&[0b0000_0001, 0b1000_0000]);
    assert_eq!(val.bit_len(), 16);
    let set: Vec<usize> = (0..16).filter(|i| val.get_bit(*i)).collect();
    assert_eq!(set, vec![0, 15]);
}

#[test]
fn set_bit_changes_one_bit() {
    let mut val: Vec<u8> = vec![0xff, 0x00];
    val.set_bit(3, false);
    val.set_bit(9, true);
    assert_eq!(val, vec![0b1111_0111, 0b0000_0010]);
    assert_eq!(val.bit_len(), 16);
    assert!(val.get_bit(9));
    assert!(!val.get_bit(3));
}

#[test]
fn filter_has_no_false_negatives() {
    let hashes: Vec<u32> = (0..500u32).map(|i| i.wrapping_mul(0x9e37_79b9)).collect();
    let bloom = Bloom::build_from_key_hashes(&hashes, 10);
    assert_eq!(bloom.k, 6);
    assert_eq!(bloom.filter.len(), 625);
    for h in &hashes {
        assert!(bloom.may_contain(*h));
    }
}

#[test]
fn filter_of_one_hash_has_its_probes() {
    // The hash 1 is rotated to 32768, so with 64 bits the probes look at the bits
    // 1, (1 + 32768) % 64, ..., which all are 1.
    let bloom = Bloom::build_from_key_hashes(&[1], 10);
    assert_eq!(bloom.filter.as_ref(), &[2, 0, 0, 0, 0, 0, 0, 0]);
    assert!(bloom.may_contain(1));
    assert!(!bloom.may_contain(2));
}

#[test]
fn filter_of_no_hashes_holds_nothing() {
    let bloom = Bloom::build_from_key_hashes(&[], 0);
    assert_eq!(bloom.k, 1);
    assert_eq!(bloom.filter.len(), 8);
    assert!(!bloom.may_contain(0));
    assert!(!bloom.may_contain(77));
}

#[test]
fn number_of_probes_is_clamped() {
    assert_eq!(Bloom::build_from_key_hashes(&[5], 1).k, 1);
    assert_eq!(Bloom::build_from_key_hashes(&[5], 20).k, 13);
    assert_eq!(Bloom::build_from_key_hashes(&[5], 43).k, 29);
    assert_eq!(Bloom::build_from_key_hashes(&[5], 44).k, 30);
    assert_eq!(Bloom::build_from_key_hashes(&[5], 1000).k, 30);
}

#[test]
fn bits_per_key_for_one_percent() {
    assert_eq!(Bloom::bits_per_key(0), 0);
    assert_eq!(Bloom::bits_per_key(1), 10);
    assert_eq!(Bloom::bits_per_key(123_456), 10);
}

#[test]
fn large_numbers_of_probes_let_everything_pass() {
    let bloom = Bloom { filter: Bytes::copy_from_slice(&[0; 8]), k: 31 };
    assert!(bloom.may_contain(12345));
}

#[test]
fn encoded_filter_is_decoded() {
    let bloom = Bloom::build_from_key_hashes(&[7, 70, 700, 7000], 10);
    let mut buf: Vec<u8> = vec![9, 9];
    bloom.encode(&mut buf);
    assert_eq!(buf.len(), 2 + 8 + 1 + 4);
    assert_eq!(&buf[2..10], bloom.filter.as_ref());
    assert_eq!(buf[10], bloom.k);
    assert_eq!(&buf[11..], &crc32fast::hash(&buf[2..11]).to_be_bytes()[..]);
    let decoded = match Bloom::decode(&buf[2..]) {
        Ok(b) => b,
        Err(_) => panic!("the filter cannot be decoded"),
    };
    assert_eq!(decoded.k, bloom.k);
    assert_eq!(decoded.filter, bloom.filter);
    assert!(decoded.may_contain(700));
}

#[test]
fn broken_filters_are_refused() {
    let bloom = Bloom::build_from_key_hashes(&[7], 10);
    let mut buf: Vec<u8> = Vec::new();
    bloom.encode(&mut buf);
    buf[0] ^= 1;
    assert!(matches!(Bloom::decode(&buf), Err(LsmError::ChecksumMismatch)));
    assert!(matches!(Bloom::decode(&[1, 2, 3]), Err(LsmError::Truncated)));
    // The checksum of no bytes is 0.
    assert!(matches!(Bloom::decode(&[0, 0, 0, 0]), Err(LsmError::Truncated)));
    assert!(matches!(Bloom::decode(&[0, 0, 0, 1]), Err(LsmError::ChecksumMismatch)));
}

#[test]
fn key_hash_does_nothing() {
    Bloom::key_hash(1, 2);
}
