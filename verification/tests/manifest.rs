use tiny_lsm::error::LsmError;
use tiny_lsm::manifest::{get_frames, put_frame, Manifest, ManifestRecord};

#[test]
fn frames_have_a_length_and_a_checksum() {
    let mut buf: Vec<u8> = Vec::new();
    put_frame(&mut buf, b"record");
    let mut expected: Vec<u8> = vec![0, 0, 0, 0, 0, 0, 0, 6];
    expected.extend_from_slice(b"record");
    expected.extend_from_slice(&crc32fast::hash(b"record").to_be_bytes());
    assert_eq!(buf, expected);
}

#[test]
fn frames_are_read_back() {
    let mut buf: Vec<u8> = Vec::new();
    put_frame(&mut buf, b"one");
    put_frame(&mut buf, b"");
    put_frame(&mut buf, b"three");
    assert_eq!(
        get_frames(&buf),
        Ok(vec![b"one".to_vec(), b"".to_vec(), b"three".to_vec()])
    );
    assert_eq!(get_frames(&[]), Ok(vec![]));
}

#[test]
fn broken_frames_are_refused() {
    let mut buf: Vec<u8> = Vec::new();
    put_frame(&mut buf, b"one");
    let n = buf.len();
    assert_eq!(get_frames(&buf[..n - 1]), Err(LsmError::Truncated));
    assert_eq!(get_frames(&buf[..3]), Err(LsmError::Truncated));
    assert_eq!(get_frames(&[0xff; 20]), Err(LsmError::Truncated));
    buf[9] ^= 1;
    assert_eq!(get_frames(&buf), Err(LsmError::ChecksumMismatch));
}

#[test]
fn pending_records_are_handed_over_once() {
    let mut m = Manifest::create();
    m.add_record(ManifestRecord::NewMemtable(1));
    m.add_record(ManifestRecord::Flush(0));
    assert!(matches!(
        m.take()[..],
        [ManifestRecord::NewMemtable(1), ManifestRecord::Flush(0)]
    ));
    assert!(m.take().is_empty());
}
