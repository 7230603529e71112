use lanqr::http::file_response_head;
use lanqr::range::{
    file_reply, parse_byte_range, partial_file_response_head, range_field_of, range_header_value,
    range_not_satisfiable_head, ByteRange,
};

#[test]
fn byte_range_first_and_last() {
    assert_eq!(parse_byte_range("bytes=0-99", 1000), ByteRange::Part { start: 0, end: 99 });
    assert_eq!(parse_byte_range(" bytes= 10 - 19 ", 1000), ByteRange::Part { start: 10, end: 19 });
    assert_eq!(parse_byte_range("bytes=500-5000", 1000), ByteRange::Part { start: 500, end: 999 });
    assert_eq!(parse_byte_range("bytes=7-7", 8), ByteRange::Part { start: 7, end: 7 });
}

#[test]
fn byte_range_open_end_and_suffix() {
    assert_eq!(parse_byte_range("bytes=900-", 1000), ByteRange::Part { start: 900, end: 999 });
    assert_eq!(parse_byte_range("bytes=-100", 1000), ByteRange::Part { start: 900, end: 999 });
    assert_eq!(parse_byte_range("bytes=-5000", 1000), ByteRange::Part { start: 0, end: 999 });
}

#[test]
fn byte_range_outside_the_file() {
    assert_eq!(parse_byte_range("bytes=1000-", 1000), ByteRange::Unsatisfiable);
    assert_eq!(parse_byte_range("bytes=1000-1200", 1000), ByteRange::Unsatisfiable);
    assert_eq!(parse_byte_range("bytes=-0", 1000), ByteRange::Unsatisfiable);
    assert_eq!(parse_byte_range("bytes=0-", 0), ByteRange::Unsatisfiable);
    assert_eq!(parse_byte_range("bytes=-10", 0), ByteRange::Unsatisfiable);
}

#[test]
fn byte_range_ignored_forms() {
    assert_eq!(parse_byte_range("items=0-1", 1000), ByteRange::Whole);
    assert_eq!(parse_byte_range("bytes=5-2", 1000), ByteRange::Whole);
    assert_eq!(parse_byte_range("bytes=0-1,5-9", 1000), ByteRange::Whole);
    assert_eq!(parse_byte_range("bytes=", 1000), ByteRange::Whole);
    assert_eq!(parse_byte_range("bytes=-", 1000), ByteRange::Whole);
    assert_eq!(parse_byte_range("bytes=a-9", 1000), ByteRange::Whole);
    assert_eq!(parse_byte_range("bytes=99999999999999999999-", 1000), ByteRange::Whole);
    assert_eq!(
        parse_byte_range("bytes=18446744073709551615-", u64::MAX),
        ByteRange::Unsatisfiable
    );
}

#[test]
fn range_field_found_by_name() {
    assert_eq!(range_field_of("Range: bytes=0-9\r\n").as_deref(), Some("bytes=0-9"));
    assert_eq!(range_field_of("rAnGe :  bytes=1-\r\n").as_deref(), Some("bytes=1-"));
    assert_eq!(range_field_of("Ranges: bytes=0-9\r\n"), None);
    assert_eq!(range_field_of("Range bytes=0-9\r\n"), None);
    let lines = vec![
        "Host: 192.168.1.2:20000\r\n".to_string(),
        "Range: bytes=100-\r\n".to_string(),
        "range: bytes=5-6\r\n".to_string(),
    ];
    assert_eq!(range_header_value(&lines).as_deref(), Some("bytes=100-"));
    assert_eq!(range_header_value(&vec!["Host: x\r\n".to_string()]), None);
    assert_eq!(range_header_value(&Vec::new()), None);
}

#[test]
fn partial_and_unsatisfiable_heads() {
    assert_eq!(
        partial_file_response_head(Some("a.txt"), 10, 19, 100),
        "HTTP/1.1 206 Partial Content\r\nConnection: close\r\nContent-Type: text/plain; charset=utf-8\r\nContent-Length: 10\r\nContent-Range: bytes 10-19/100\r\nContent-Disposition: attachment; filename=\"a.txt\"; filename*=UTF-8''a.txt\r\nCache-Control: no-store\r\n\r\n"
    );
    assert_eq!(
        range_not_satisfiable_head(100),
        "HTTP/1.1 416 Range Not Satisfiable\r\nConnection: close\r\nContent-Range: bytes */100\r\nContent-Length: 0\r\nCache-Control: no-store\r\n\r\n"
    );
}

#[test]
fn file_reply_follows_the_range() {
    let whole = file_reply(Some("a.pdf"), 1234, None);
    assert_eq!(whole.head, file_response_head(Some("a.pdf"), 1234));
    assert_eq!((whole.start, whole.length), (0, 1234));

    let ignored = file_reply(Some("a.pdf"), 1234, Some("lines=1-2"));
    assert_eq!(ignored.head, file_response_head(Some("a.pdf"), 1234));
    assert_eq!((ignored.start, ignored.length), (0, 1234));

    let part = file_reply(Some("a.pdf"), 1234, Some("bytes=1000-"));
    assert_eq!(part.head, partial_file_response_head(Some("a.pdf"), 1000, 1233, 1234));
    assert_eq!((part.start, part.length), (1000, 234));

    let outside = file_reply(None, 1234, Some("bytes=2000-"));
    assert_eq!(outside.head, range_not_satisfiable_head(1234));
    assert_eq!((outside.start, outside.length), (0, 0));
}
