use shatter::cursor::{Bound, Cursor, Error};
use shatter::shard::{is_boundary_char, ByteSlice, Shards};

#[test]
fn test_cursor_positioning() {
    let data = "hello".as_bytes();
    let mut cursor = Cursor::new(data);
    assert_eq!(cursor.position(), 0);
    assert_eq!(cursor.length(), 5);
    assert_eq!(cursor.byte_at_cursor(), b'h');
    cursor.set_position(4);
    assert_eq!(cursor.byte_at_cursor(), b'o');
    assert_eq!(cursor.peek_previous_byte(), Ok(b'l'));
}

#[test]
fn test_peek_previous_at_start() {
    let cursor = Cursor::new("a".as_bytes());
    assert_eq!(
        cursor.peek_previous_byte(),
        Err(Error::OutOfBounds(Bound::Start))
    );
}

#[test]
fn test_scan_until_stops_at_match() {
    let mut cursor = Cursor::new("word next".as_bytes());
    let r = cursor.scan_until(is_boundary_char);
    assert_eq!(r, Ok(()));
    assert_eq!(cursor.position(), 4);
}

#[test]
fn test_scan_until_runs_off_the_end() {
    let mut cursor = Cursor::new("word".as_bytes());
    let r = cursor.scan_until(is_boundary_char);
    assert_eq!(r, Err(Error::OutOfBounds(Bound::End)));
    assert_eq!(cursor.position(), 4);
}

#[test]
fn test_match_char() {
    let mut cursor = Cursor::new("[5]".as_bytes());
    assert_eq!(cursor.match_char('['), Ok(()));
    assert_eq!(cursor.position(), 1);
    assert_eq!(cursor.match_char('x'), Err(Error::NotFound));
    assert_eq!(cursor.position(), 1);
}

#[test]
fn test_parse_ascii_digits() {
    let mut cursor = Cursor::new("1234]".as_bytes());
    assert_eq!(cursor.parse_ascii_digits(), Ok(1234));
    assert_eq!(cursor.position(), 4);
}

#[test]
fn test_parse_ascii_digits_not_a_digit() {
    let mut cursor = Cursor::new("x12".as_bytes());
    assert_eq!(cursor.parse_ascii_digits(), Err(Error::NotFound));
    assert_eq!(cursor.position(), 0);
}

#[test]
fn test_parse_ascii_digits_too_large() {
    // 70000 does not fit 16 bits: rejected, cursor unmoved
    let mut cursor = Cursor::new("70000".as_bytes());
    assert_eq!(cursor.parse_ascii_digits(), Err(Error::NotFound));
    assert_eq!(cursor.position(), 0);
}

#[test]
fn test_parse_ascii_digits_leading_zeros() {
    let mut cursor = Cursor::new("00042".as_bytes());
    assert_eq!(cursor.parse_ascii_digits(), Ok(42));
    assert_eq!(cursor.position(), 5);
}

#[test]
fn test_parse_hashtag_direct() {
    let mut cursor = Cursor::new("abc def".as_bytes());
    assert_eq!(Shards::parse_hashtag(&mut cursor), Ok(ByteSlice::new(0, 3)));
    assert_eq!(cursor.position(), 3);
}

#[test]
fn test_parse_hashtag_empty_body() {
    let mut cursor = Cursor::new(" x".as_bytes());
    assert_eq!(Shards::parse_hashtag(&mut cursor), Err(Error::NotFound));
    assert_eq!(cursor.position(), 0);
}

#[test]
fn test_parse_mention_direct() {
    let mut cursor = Cursor::new("[5]x".as_bytes());
    assert_eq!(Shards::parse_mention(&mut cursor), Ok(5));
    assert_eq!(cursor.position(), 3);
}

#[test]
fn test_parse_mention_backtracks() {
    let mut cursor = Cursor::new("[5x".as_bytes());
    assert_eq!(Shards::parse_mention(&mut cursor), Err(Error::NotFound));
    assert_eq!(cursor.position(), 0);
}

#[test]
fn test_byte_slice_bytes() {
    let data = "abc #\u{1f60e}".as_bytes();
    let bs = ByteSlice::new(5, 4);
    assert_eq!(bs.bytes(data), "\u{1f60e}".as_bytes());
}

#[test]
fn test_byte_slice_str() {
    let data = "abc #\u{1f60e}".as_bytes();
    let bs = ByteSlice::new(5, 4);
    assert_eq!(bs.str(data), Ok("\u{1f60e}"));
}

#[test]
fn test_byte_slice_str_invalid_utf8() {
    // a span that cuts a multi-byte sequence in half is not UTF-8
    let data = "abc #\u{1f60e}".as_bytes();
    let bs = ByteSlice::new(5, 2);
    assert!(bs.str(data).is_err());
}

#[test]
fn test_boundary_classification() {
    assert!(is_boundary_char(' '));
    assert!(is_boundary_char('.'));
    assert!(is_boundary_char('#'));
    assert!(is_boundary_char('['));
    assert!(!is_boundary_char('a'));
    assert!(!is_boundary_char('7'));
    assert!(!is_boundary_char('\u{e9}'));
    assert!(shatter::shard::is_left_boundary_char(0xf0));
    assert!(shatter::shard::is_left_boundary_char(b'.'));
    assert!(!shatter::shard::is_left_boundary_char(b'z'));
}
