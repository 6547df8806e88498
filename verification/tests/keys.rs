use tiny_lsm::codec;
use tiny_lsm::key::{bytes_equal, compare_bytes, KeySlice, Order};

#[test]
fn user_keys_ascend_and_timestamps_descend() {
    let a = KeySlice::from_slice(b"a", 5);
    assert!(a.compare(KeySlice::from_slice(b"b", 9)) == Order::Less);
    assert!(a.compare(KeySlice::from_slice(b"a", 4)) == Order::Less);
    assert!(a.compare(KeySlice::from_slice(b"a", 6)) == Order::Greater);
    assert!(a.compare(KeySlice::from_slice(b"a", 5)) == Order::Equal);
    assert!(a.compare(KeySlice::from_slice(b"", 5)) == Order::Greater);
    assert!(!a.is_empty());
    assert_eq!(a.len(), 1);
    let owned = a.to_key_vec();
    assert_eq!(owned.as_key_slice().ts(), 5);
    assert_eq!(owned.into_inner(), b"a".to_vec());
}

#[test]
fn byte_strings_are_compared_byte_by_byte() {
    assert!(compare_bytes(b"ab", b"abc") == Order::Less);
    assert!(compare_bytes(b"b", b"abc") == Order::Greater);
    assert!(compare_bytes(b"", b"") == Order::Equal);
    assert!(bytes_equal(b"xyz", b"xyz"));
    assert!(!bytes_equal(b"xyz", b"xy"));
}

#[test]
fn numbers_are_big_endian() {
    let mut buf: Vec<u8> = Vec::new();
    codec::put_u16(&mut buf, 0x0102);
    codec::put_u32(&mut buf, 0x0304_0506);
    codec::put_u64(&mut buf, 0x0708_090a_0b0c_0d0e);
    assert_eq!(buf, (1u8..15).collect::<Vec<u8>>());
    assert_eq!(codec::get_u16(&buf, 0), 0x0102);
    assert_eq!(codec::get_u32(&buf, 2), 0x0304_0506);
    assert_eq!(codec::get_u64(&buf, 6), 0x0708_090a_0b0c_0d0e);
}

#[test]
fn lengths_are_cut_off() {
    let mut buf: Vec<u8> = Vec::new();
    codec::put_len16(&mut buf, 0x1_0203);
    codec::put_len32(&mut buf, 0x0102_0304);
    assert_eq!(buf, vec![2, 3, 1, 2, 3, 4]);
    assert_eq!(codec::low16(0x1_0000), 0);
}
