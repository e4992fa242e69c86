use rotor::content::{find_read_not_eq, find_slice_not_eq, scan_chunk, scan_end};

use std::io::Cursor;

#[test]
fn it_works() {
    assert_eq!(2 + 2, 4);
}

#[test]
fn test_slice_eq() {
    assert_eq!(None, find_slice_not_eq(&[0, 1, 2], &[0, 1, 2]));
    assert_eq!(Some(2), find_slice_not_eq(&[0, 1, 2], &[0, 1, -2]));
    assert_eq!(Some(3), find_slice_not_eq(&[0, 1, 2], &[0, 1, 2, 3]));
}

#[test]
fn test_read_eq() {
    let s = [3u8; 20];
    let cursor = Cursor::new(vec![]);
    assert_eq!(Some(0), find_read_not_eq(cursor, &s).unwrap().1);

    for i in 0..s.len() {
        let mut o = s.to_vec();
        o[i] = 7;
        let o = Cursor::new(o);
        assert_eq!(Some(i), find_read_not_eq(o, &s).unwrap().1);
    }
}

#[test]
fn slice_lengths_differ_reports_shorter() {
    assert_eq!(Some(2), find_slice_not_eq(&[9u8, 9], &[0u8, 0, 0]));
}

#[test]
fn read_equal_reports_none() {
    let data = b"file_content_bytes_test_1_test_content".to_vec();
    let r = find_read_not_eq(Cursor::new(data.clone()), &data).unwrap();
    assert_eq!(None, r.1);
}

#[test]
fn read_minimal_write_offset() {
    let r = find_read_not_eq(Cursor::new(b"AAAAAAAAAA".to_vec()), b"AAAAA_AAAA").unwrap();
    assert_eq!(Some(5), r.1);
}

#[test]
fn read_longer_file_parts_at_target_end() {
    let r = find_read_not_eq(Cursor::new(b"ABCDEFGHIJabcde".to_vec()), b"ABCDEFGHIJ").unwrap();
    assert_eq!(Some(10), r.1);
}

#[test]
fn read_shorter_file_parts_at_its_end() {
    let r = find_read_not_eq(Cursor::new(b"ABC".to_vec()), b"ABCDE").unwrap();
    assert_eq!(Some(3), r.1);
}

#[test]
fn read_spans_several_chunks() {
    let n = rotor::content::BUF_SIZE * 2 + 17;
    let expected = vec![1u8; n];
    let mut data = expected.clone();
    data[rotor::content::BUF_SIZE + 3] = 2;
    let r = find_read_not_eq(Cursor::new(data), &expected).unwrap();
    assert_eq!(Some(rotor::content::BUF_SIZE + 3), r.1);
}

#[test]
fn content_truncation_only_when_longer() {
    static TARGET: &[u8] = b"ABCDEFGHIJ";
    let c = rotor::file::file("/tmp/x").content_bytes(TARGET);
    assert_eq!(Some(10), c.truncation(15));
    assert_eq!(None, c.truncation(10));
    assert_eq!(None, c.truncation(3));
}

#[test]
fn content_satisfied_needs_all_three() {
    static TARGET: &[u8] = b"ABCDEFGHIJ";
    let c = rotor::file::file("/tmp/x").content_bytes(TARGET);
    assert!(c.is_satisfied(true, 10, None));
    assert!(!c.is_satisfied(false, 10, None));
    assert!(!c.is_satisfied(true, 15, None));
    assert!(!c.is_satisfied(true, 10, Some(4)));
}

#[test]
fn scan_steps() {
    let expected = b"ABCDEFGHIJ";
    assert_eq!(None, scan_chunk(expected, 0, b"ABCD"));
    assert_eq!(None, scan_chunk(expected, 4, b"EFGHIJ"));
    assert_eq!(Some(6), scan_chunk(expected, 4, b"EFxH"));
    assert_eq!(Some(10), scan_chunk(expected, 8, b"IJab"));
    assert_eq!(Some(10), scan_chunk(expected, 10, b"a"));
    assert_eq!(None, scan_chunk(expected, 10, b""));
    assert_eq!(None, scan_end(10, 10));
    assert_eq!(Some(7), scan_end(10, 7));
}
