use lanqr::http::{
    build_content_disposition, build_response_head, decode_hex_pair, detect_content_type,
    file_response_head, html_escape, parse_request_line, percent_decode,
    percent_encode_path_segment, plain_response_bytes, redirect_bytes, strip_query_and_fragment,
    Header,
};

#[test]
fn percent_decode_plain_and_escaped() {
    assert_eq!(percent_decode("abc").as_deref(), Some("abc"));
    assert_eq!(percent_decode("a%20b").as_deref(), Some("a b"));
    assert_eq!(percent_decode("%E4%BD%A0%e5%a5%bd").as_deref(), Some("你好"));
}

#[test]
fn percent_decode_rejects_bad_escapes_and_utf8() {
    assert_eq!(percent_decode("%zz1"), None);
    assert_eq!(percent_decode("%FF"), None);
}

#[test]
fn percent_decode_keeps_short_trailing_percent() {
    assert_eq!(percent_decode("%4").as_deref(), Some("%4"));
    assert_eq!(percent_decode("ab%").as_deref(), Some("ab%"));
}

#[test]
fn hex_pairs() {
    assert_eq!(decode_hex_pair(b'4', b'1'), Some(0x41));
    assert_eq!(decode_hex_pair(b'f', b'F'), Some(0xFF));
    assert_eq!(decode_hex_pair(b'g', b'0'), None);
}

#[test]
fn percent_encoding_keeps_unreserved() {
    assert_eq!(percent_encode_path_segment("Az09-_.~"), "Az09-_.~");
    assert_eq!(percent_encode_path_segment("a b/c"), "a%20b%2Fc");
    assert_eq!(percent_encode_path_segment("你"), "%E4%BD%A0");
}

#[test]
fn percent_encoding_round_trips() {
    for s in ["报告 2024.pdf", "a&b=c?#", "~weird~%name"] {
        let encoded = percent_encode_path_segment(s);
        assert_eq!(percent_decode(&encoded).as_deref(), Some(s));
    }
}

#[test]
fn html_escaping() {
    assert_eq!(html_escape("<a href=\"x\">&</a>"), "&lt;a href=&quot;x&quot;&gt;&amp;&lt;/a&gt;");
    assert_eq!(html_escape("plain 文本"), "plain 文本");
    let escaped = html_escape("<<\">>");
    assert!(!escaped.contains('<') && !escaped.contains('>') && !escaped.contains('"'));
}

#[test]
fn content_disposition_has_ascii_fallback_and_utf8_name() {
    assert_eq!(
        build_content_disposition("report.pdf"),
        "attachment; filename=\"report.pdf\"; filename*=UTF-8''report.pdf"
    );
    assert_eq!(
        build_content_disposition("报告 \"v1\".txt"),
        "attachment; filename=\"__ _v1_.txt\"; filename*=UTF-8''%E6%8A%A5%E5%91%8A%20%22v1%22.txt"
    );
}

#[test]
fn content_types_by_extension() {
    assert_eq!(detect_content_type(Some("photo.PNG")), "image/png");
    assert_eq!(detect_content_type(Some("a.jpeg")), "image/jpeg");
    assert_eq!(detect_content_type(Some("notes.log")), "text/plain; charset=utf-8");
    assert_eq!(detect_content_type(Some("x.tar.zip")), "application/zip");
    assert_eq!(detect_content_type(Some("song.mp3")), "audio/mpeg");
    assert_eq!(detect_content_type(Some(".png")), "application/octet-stream");
    assert_eq!(detect_content_type(Some("README")), "application/octet-stream");
    assert_eq!(detect_content_type(Some("archive.7z")), "application/octet-stream");
    assert_eq!(detect_content_type(None), "application/octet-stream");
}

#[test]
fn query_and_fragment_are_stripped() {
    assert_eq!(strip_query_and_fragment("/send/abc?x=1#top"), "/send/abc");
    assert_eq!(strip_query_and_fragment("/send/abc#a?b"), "/send/abc");
    assert_eq!(strip_query_and_fragment("/plain"), "/plain");
}

#[test]
fn request_lines() {
    let r = parse_request_line("GET /send/abc HTTP/1.1\r\n");
    assert_eq!(r.method, "GET");
    assert_eq!(r.path, "/send/abc");
    let r = parse_request_line("  HEAD   /x  \r\n");
    assert_eq!(r.method, "HEAD");
    assert_eq!(r.path, "/x");
    let r = parse_request_line("GET\r\n");
    assert_eq!(r.method, "GET");
    assert_eq!(r.path, "/");
    let r = parse_request_line("\r\n");
    assert_eq!(r.method, "");
    assert_eq!(r.path, "/");
}

#[test]
fn response_heads() {
    let headers = vec![
        Header { name: "A".to_string(), value: "1".to_string() },
        Header { name: "B".to_string(), value: "two".to_string() },
    ];
    assert_eq!(
        build_response_head("200 OK", &headers),
        "HTTP/1.1 200 OK\r\nConnection: close\r\nA: 1\r\nB: two\r\n\r\n"
    );
}

#[test]
fn plain_responses_with_and_without_body() {
    let full = plain_response_bytes("404 Not Found", "text/plain; charset=utf-8", b"Not Found", false);
    assert_eq!(
        String::from_utf8(full).unwrap(),
        "HTTP/1.1 404 Not Found\r\nConnection: close\r\nContent-Type: text/plain; charset=utf-8\r\nContent-Length: 9\r\nCache-Control: no-store\r\n\r\nNot Found"
    );
    let head = plain_response_bytes("404 Not Found", "text/plain; charset=utf-8", b"Not Found", true);
    assert_eq!(
        String::from_utf8(head).unwrap(),
        "HTTP/1.1 404 Not Found\r\nConnection: close\r\nContent-Type: text/plain; charset=utf-8\r\nContent-Length: 9\r\nCache-Control: no-store\r\n\r\n"
    );
}

#[test]
fn redirect_response() {
    assert_eq!(
        String::from_utf8(redirect_bytes("/send/abc/")).unwrap(),
        "HTTP/1.1 301 Moved Permanently\r\nConnection: close\r\nLocation: /send/abc/\r\nContent-Length: 0\r\nCache-Control: no-store\r\n\r\n"
    );
}

#[test]
fn file_download_head() {
    assert_eq!(
        file_response_head(Some("a b.pdf"), 1234),
        "HTTP/1.1 200 OK\r\nConnection: close\r\nContent-Type: application/pdf\r\nContent-Length: 1234\r\nContent-Disposition: attachment; filename=\"a b.pdf\"; filename*=UTF-8''a%20b.pdf\r\nCache-Control: no-store\r\n\r\n"
    );
    assert_eq!(
        file_response_head(None, 0),
        "HTTP/1.1 200 OK\r\nConnection: close\r\nContent-Type: application/octet-stream\r\nContent-Length: 0\r\nContent-Disposition: attachment; filename=\"download\"; filename*=UTF-8''download\r\nCache-Control: no-store\r\n\r\n"
    );
}
