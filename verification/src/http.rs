//! The HTTP text of the share service: percent coding of path segments,
//! HTML escaping, the request line, response heads, download headers and
//! content types.
use vstd::prelude::*;
use vstd::utf8::{decode_utf8, encode_utf8, valid_utf8};

use crate::text::{
    ascii_lowercase, chars_equal, chars_of, decimal, digit_char, is_unicode_whitespace,
    push_char, to_ascii_lowercase, trim_start,
};

verus! {

// ---------------------------------------------------------------------------
// Percent decoding
// ---------------------------------------------------------------------------
/// The value of one hexadecimal digit byte (`0-9`, `a-f`, `A-F`).
pub open spec fn hex_value(b: u8) -> Option<u8> {
    if 48 <= b && b <= 57 {
        Some((b - 48) as u8)
    } else if 97 <= b && b <= 102 {
        Some((b - 87) as u8)
    } else if 65 <= b && b <= 70 {
        Some((b - 55) as u8)
    } else {
        None
    }
}

/// The byte written by two hexadecimal digits.
pub open spec fn hex_pair(left: u8, right: u8) -> Option<u8> {
    match (hex_value(left), hex_value(right)) {
        (Some(l), Some(r)) => Some((l * 16 + r) as u8),
        _ => None,
    }
}

/// `p` followed by `rest`, if there is a rest.
pub open spec fn prepend_bytes(p: Seq<u8>, rest: Option<Seq<u8>>) -> Option<Seq<u8>> {
    match rest {
        Some(r) => Some(p + r),
        None => None,
    }
}

/// Percent decoding of bytes: `%` followed by at least two more bytes must
/// start a valid hexadecimal pair; every other byte stands for itself.
pub open spec fn percent_decoded_bytes(b: Seq<u8>) -> Option<Seq<u8>>
    decreases b.len(),
{
    if b.len() == 0 {
        Some(Seq::empty())
    } else if b[0] == 37 && 2 < b.len() {
        match hex_pair(b[1], b[2]) {
            Some(v) => prepend_bytes(seq![v], percent_decoded_bytes(b.skip(3))),
            None => None,
        }
    } else {
        prepend_bytes(seq![b[0]], percent_decoded_bytes(b.skip(1)))
    }
}

/// Percent decoding of text: the decoded bytes must be valid UTF-8.
pub open spec fn percent_decoded(s: Seq<char>) -> Option<Seq<char>> {
    match percent_decoded_bytes(encode_utf8(s)) {
        Some(d) => if valid_utf8(d) {
            Some(decode_utf8(d))
        } else {
            None
        },
        None => None,
    }
}

/// `String::from_utf8`: succeeds exactly on valid UTF-8, with the decoded
/// characters.
#[verifier::external_body]
pub(crate) fn string_from_utf8(bytes: Vec<u8>) -> (res: Option<String>)
    ensures
        res is Some <==> valid_utf8(bytes@),
        res matches Some(s) ==> s@ == decode_utf8(bytes@),
{
    String::from_utf8(bytes).ok()
}

/// The value of two hexadecimal digits, read as one byte.
pub fn decode_hex_pair(left: u8, right: u8) -> (res: Option<u8>)
    ensures
        res == hex_pair(left, right),
{
    let l = match hex_digit(left) {
        Some(v) => v,
        None => return None,
    };
    let r = match hex_digit(right) {
        Some(v) => v,
        None => return None,
    };
    Some(l * 16 + r)
}

fn hex_digit(b: u8) -> (res: Option<u8>)
    ensures
        res == hex_value(b),
        res matches Some(v) ==> v < 16,
{
    if 48 <= b && b <= 57 {
        Some(b - 48)
    } else if 97 <= b && b <= 102 {
        Some(b - 87)
    } else if 65 <= b && b <= 70 {
        Some(b - 55)
    } else {
        None
    }
}

/// Percent decoding of a path segment; `None` when an escape is malformed or
/// the decoded bytes are not UTF-8.
pub fn percent_decode(input: &str) -> (res: Option<String>)
    ensures
        res matches Some(s) ==> percent_decoded(input@) == Some(s@),
        res is None ==> percent_decoded(input@) is None,
{
    let bytes = input.as_bytes();
    let ghost b = bytes@;
    let mut decoded: Vec<u8> = Vec::new();
    let mut index: usize = 0;
    assert(b.skip(0) == b);
    while index < bytes.len()
        invariant
            b == bytes@,
            b == encode_utf8(input@),
            index <= bytes.len(),
            percent_decoded_bytes(b) == prepend_bytes(decoded@, percent_decoded_bytes(b.skip(index as int))),
        decreases bytes.len() - index,
    {
        let ghost rest = b.skip(index as int);
        if bytes[index] == 37u8 && bytes.len() - index > 2 {
            match decode_hex_pair(bytes[index + 1], bytes[index + 2]) {
                Some(value) => {
                    assert(rest.skip(3) == b.skip(index + 3));
                    decoded.push(value);
                    index = index + 3;
                },
                None => {
                    return None;
                },
            }
        } else {
            assert(rest.skip(1) == b.skip(index + 1));
            decoded.push(bytes[index]);
            index = index + 1;
        }
    }
    assert(b.skip(index as int).len() == 0);
    assert(decoded@ + Seq::<u8>::empty() == decoded@);
    string_from_utf8(decoded)
}

// ---------------------------------------------------------------------------
// Percent encoding
// ---------------------------------------------------------------------------
/// Bytes left as they are by percent encoding: ASCII letters, digits, `-_.~`.
pub open spec fn is_unreserved(b: u8) -> bool {
    (48 <= b && b <= 57) || (65 <= b && b <= 90) || (97 <= b && b <= 122) || b == 45 || b == 95
        || b == 46 || b == 126
}

/// The upper-case hexadecimal digit for `d` (`0 <= d < 16`).
pub open spec fn hex_upper(d: int) -> char {
    if d < 10 {
        digit_char(d)
    } else {
        ((55 + d) as u8) as char
    }
}

/// The encoding of one byte.
pub open spec fn encode_byte(b: u8) -> Seq<char> {
    if is_unreserved(b) {
        seq![b as char]
    } else {
        seq!['%', hex_upper(b as int / 16), hex_upper(b as int % 16)]
    }
}

/// Percent encoding of bytes.
pub open spec fn percent_encoded_bytes(b: Seq<u8>) -> Seq<char>
    decreases b.len(),
{
    if b.len() == 0 {
        Seq::empty()
    } else {
        encode_byte(b[0]) + percent_encoded_bytes(b.drop_first())
    }
}

/// Percent encoding of the UTF-8 bytes of a text.
pub open spec fn percent_encoded(s: Seq<char>) -> Seq<char> {
    percent_encoded_bytes(encode_utf8(s))
}

fn hex_upper_char(d: u8) -> (res: char)
    requires
        d < 16,
    ensures
        res == hex_upper(d as int),
{
    if d < 10 {
        (48u8 + d) as char
    } else {
        (55u8 + d) as char
    }
}

/// Appends the percent encoding of `input` to `out`.
pub fn push_percent_encoded(out: &mut String, input: &str)
    ensures
        final(out)@ == old(out)@ + percent_encoded(input@),
{
    let bytes = input.as_bytes();
    let ghost b = bytes@;
    let mut i: usize = 0;
    assert(b.skip(0) == b);
    while i < bytes.len()
        invariant
            b == bytes@,
            b == encode_utf8(input@),
            i <= bytes.len(),
            old(out)@ + percent_encoded_bytes(b) == out@ + percent_encoded_bytes(b.skip(i as int)),
        decreases bytes.len() - i,
    {
        let byte = bytes[i];
        assert(b.skip(i as int).drop_first() == b.skip(i + 1));
        if (48 <= byte && byte <= 57) || (65 <= byte && byte <= 90) || (97 <= byte && byte <= 122)
            || byte == 45 || byte == 95 || byte == 46 || byte == 126 {
            push_char(out, byte as char);
        } else {
            push_char(out, '%');
            push_char(out, hex_upper_char(byte / 16));
            push_char(out, hex_upper_char(byte % 16));
        }
        i = i + 1;
    }
    assert(b.skip(i as int).len() == 0);
}

/// Percent encoding of one path segment, so that it can stand in a link.
pub fn percent_encode_path_segment(input: &str) -> (res: String)
    ensures
        res@ == percent_encoded(input@),
{
    let mut out = String::new();
    push_percent_encoded(&mut out, input);
    out
}

// ---------------------------------------------------------------------------
// HTML escaping
// ---------------------------------------------------------------------------
/// The HTML text for one character: `&`, `<`, `>`, `"` become entities.
pub open spec fn escape_char(c: char) -> Seq<char> {
    if c == '&' {
        "&amp;"@
    } else if c == '<' {
        "&lt;"@
    } else if c == '>' {
        "&gt;"@
    } else if c == '"' {
        "&quot;"@
    } else {
        seq![c]
    }
}

/// HTML escaping of a text.
pub open spec fn html_escaped(s: Seq<char>) -> Seq<char>
    decreases s.len(),
{
    if s.len() == 0 {
        Seq::empty()
    } else {
        escape_char(s[0]) + html_escaped(s.drop_first())
    }
}

/// Appends the HTML escaping of `input` to `out`.
pub fn push_html_escaped(out: &mut String, input: &str)
    ensures
        final(out)@ == old(out)@ + html_escaped(input@),
{
    let cs = chars_of(input);
    let ghost s = cs@;
    let mut i: usize = 0;
    assert(s.skip(0) == s);
    while i < cs.len()
        invariant
            s == cs@,
            s == input@,
            i <= cs.len(),
            old(out)@ + html_escaped(s) == out@ + html_escaped(s.skip(i as int)),
        decreases cs.len() - i,
    {
        let c = cs[i];
        assert(s.skip(i as int).drop_first() == s.skip(i + 1));
        if c == '&' {
            out.append("&amp;");
        } else if c == '<' {
            out.append("&lt;");
        } else if c == '>' {
            out.append("&gt;");
        } else if c == '"' {
            out.append("&quot;");
        } else {
            push_char(out, c);
        }
        i = i + 1;
    }
    assert(s.skip(i as int).len() == 0);
}

/// Escaped text holds no `<`, `>` or `"`, so it can stand in an element or
/// in a quoted attribute value without ending it.
pub proof fn lemma_html_escaped_safe(s: Seq<char>)
    ensures
        forall|i: int|
            0 <= i < html_escaped(s).len() ==> #[trigger] html_escaped(s)[i] != '<' && html_escaped(s)[i]
                != '>' && html_escaped(s)[i] != '"',
    decreases s.len(),
{
    reveal_strlit("&amp;");
    reveal_strlit("&lt;");
    reveal_strlit("&gt;");
    reveal_strlit("&quot;");
    if s.len() > 0 {
        lemma_html_escaped_safe(s.drop_first());
        let head = escape_char(s[0]);
        let rest = html_escaped(s.drop_first());
        let all = html_escaped(s);
        assert(all == head + rest);
        assert forall|i: int| 0 <= i < all.len() implies #[trigger] all[i] != '<' && all[i] != '>'
            && all[i] != '"' by {
            if i < head.len() {
                assert(all[i] == head[i]);
            } else {
                assert(all[i] == rest[i - head.len()]);
            }
        }
    }
}

/// HTML escaping of `input`.
pub fn html_escape(input: &str) -> (res: String)
    ensures
        res@ == html_escaped(input@),
{
    let mut out = String::new();
    push_html_escaped(&mut out, input);
    out
}

// ---------------------------------------------------------------------------
// Download headers
// ---------------------------------------------------------------------------
/// The ASCII stand-in for one character of a file name.
pub open spec fn fallback_char(c: char) -> char {
    if c == '"' || c == '\\' {
        '_'
    } else if (c as u32) < 128 && 32 <= (c as u32) && (c as u32) != 127 {
        c
    } else {
        '_'
    }
}

/// The `Content-Disposition` value for downloading a file under `filename`:
/// an ASCII fallback name and the exact UTF-8 name.
pub open spec fn content_disposition(filename: Seq<char>) -> Seq<char> {
    "attachment; filename=\""@ + filename.map_values(|c: char| fallback_char(c))
        + "\"; filename*=UTF-8''"@ + percent_encoded(filename)
}

/// The `Content-Disposition` header value for `filename`.
pub fn build_content_disposition(filename: &str) -> (res: String)
    ensures
        res@ == content_disposition(filename@),
{
    let cs = chars_of(filename);
    let mut out = String::from_str("attachment; filename=\"");
    let ghost start = out@;
    let mut i: usize = 0;
    while i < cs.len()
        invariant
            cs@ == filename@,
            i <= cs.len(),
            out@ == start + cs@.take(i as int).map_values(|c: char| fallback_char(c)),
        decreases cs.len() - i,
    {
        let c = cs[i];
        let u = c as u32;
        let f = if c == '"' || c == '\\' {
            '_'
        } else if u < 128 && 32 <= u && u != 127 {
            c
        } else {
            '_'
        };
        push_char(&mut out, f);
        i = i + 1;
        assert(cs@.take(i as int).map_values(|c: char| fallback_char(c)) == cs@.take(
            i - 1,
        ).map_values(|c: char| fallback_char(c)).push(fallback_char(c)));
    }
    assert(cs@.take(cs.len() as int) == cs@);
    out.append("\"; filename*=UTF-8''");
    push_percent_encoded(&mut out, filename);
    out
}

// ---------------------------------------------------------------------------
// Content types
// ---------------------------------------------------------------------------
/// The position of the last `.` in `s`, if any.
pub open spec fn last_dot(s: Seq<char>) -> Option<int>
    decreases s.len(),
{
    if s.len() == 0 {
        None
    } else if s.last() == '.' {
        Some(s.len() - 1)
    } else {
        last_dot(s.drop_last())
    }
}

/// The extension of a file name as `Path::extension` finds it: the text after
/// the last `.`, unless that dot is the name's first character.
pub open spec fn file_extension(name: Seq<char>) -> Option<Seq<char>> {
    match last_dot(name) {
        Some(i) => if i == 0 {
            None
        } else {
            Some(name.skip(i + 1))
        },
        None => None,
    }
}

/// The content type served for a lower-cased extension.
pub open spec fn content_type_for_extension(ext: Seq<char>) -> Seq<char> {
    if ext == "png"@ {
        "image/png"@
    } else if ext == "jpg"@ || ext == "jpeg"@ {
        "image/jpeg"@
    } else if ext == "gif"@ {
        "image/gif"@
    } else if ext == "webp"@ {
        "image/webp"@
    } else if ext == "svg"@ {
        "image/svg+xml"@
    } else if ext == "txt"@ || ext == "log"@ {
        "text/plain; charset=utf-8"@
    } else if ext == "html"@ || ext == "htm"@ {
        "text/html; charset=utf-8"@
    } else if ext == "css"@ {
        "text/css; charset=utf-8"@
    } else if ext == "js"@ {
        "application/javascript; charset=utf-8"@
    } else if ext == "json"@ {
        "application/json; charset=utf-8"@
    } else if ext == "pdf"@ {
        "application/pdf"@
    } else if ext == "zip"@ {
        "application/zip"@
    } else if ext == "mp3"@ {
        "audio/mpeg"@
    } else if ext == "mp4"@ {
        "video/mp4"@
    } else {
        "application/octet-stream"@
    }
}

/// The content type served for a file of the given name (or of none).
pub open spec fn content_type(file_name: Option<Seq<char>>) -> Seq<char> {
    match file_name {
        Some(n) => match file_extension(n) {
            Some(e) => content_type_for_extension(ascii_lowercase(e)),
            None => "application/octet-stream"@,
        },
        None => "application/octet-stream"@,
    }
}

fn text_is(e: &[char], lit: &str) -> (res: bool)
    ensures
        res == (e@ == lit@),
{
    let l = chars_of(lit);
    chars_equal(e, l.as_slice())
}

fn type_for_extension(ext: &[char]) -> (res: &'static str)
    ensures
        res@ == content_type_for_extension(ext@),
{
    if text_is(ext, "png") {
        "image/png"
    } else if text_is(ext, "jpg") || text_is(ext, "jpeg") {
        "image/jpeg"
    } else if text_is(ext, "gif") {
        "image/gif"
    } else if text_is(ext, "webp") {
        "image/webp"
    } else if text_is(ext, "svg") {
        "image/svg+xml"
    } else if text_is(ext, "txt") || text_is(ext, "log") {
        "text/plain; charset=utf-8"
    } else if text_is(ext, "html") || text_is(ext, "htm") {
        "text/html; charset=utf-8"
    } else if text_is(ext, "css") {
        "text/css; charset=utf-8"
    } else if text_is(ext, "js") {
        "application/javascript; charset=utf-8"
    } else if text_is(ext, "json") {
        "application/json; charset=utf-8"
    } else if text_is(ext, "pdf") {
        "application/pdf"
    } else if text_is(ext, "zip") {
        "application/zip"
    } else if text_is(ext, "mp3") {
        "audio/mpeg"
    } else if text_is(ext, "mp4") {
        "video/mp4"
    } else {
        "application/octet-stream"
    }
}

/// The extension of a file name, if it has one.
pub fn extension_of(name: &[char]) -> (res: Option<Vec<char>>)
    ensures
        res matches Some(e) ==> file_extension(name@) == Some(e@),
        res matches Some(e) ==> e@.len() + 1 < name@.len(),
        res is None ==> file_extension(name@) is None,
{
    let mut i: usize = name.len();
    assert(name@.take(name.len() as int) == name@);
    while i > 0 && name[i - 1] != '.'
        invariant
            i <= name.len(),
            last_dot(name@) == last_dot(name@.take(i as int)),
        decreases i,
    {
        assert(name@.take(i as int).drop_last() == name@.take(i - 1));
        i = i - 1;
    }
    if i == 0 {
        return None;
    }
    assert(name@.take(i as int).last() == '.');
    assert(last_dot(name@) == Some(i - 1));
    if i == 1 {
        return None;
    }
    let mut ext: Vec<char> = Vec::new();
    let mut k: usize = i;
    while k < name.len()
        invariant
            i <= k <= name.len(),
            ext@ == name@.subrange(i as int, k as int),
        decreases name.len() - k,
    {
        ext.push(name[k]);
        k = k + 1;
        assert(ext@ == name@.subrange(i as int, k as int));
    }
    assert(ext@ == name@.skip(i as int));
    Some(ext)
}

/// The content type served for a file named `file_name` (`None` when the
/// path has no file name).
pub fn detect_content_type(file_name: Option<&str>) -> (res: String)
    ensures
        res@ == content_type(
            match file_name {
                Some(n) => Some(n@),
                None => None,
            },
        ),
{
    match file_name {
        Some(n) => {
            let cs = chars_of(n);
            match extension_of(cs.as_slice()) {
                Some(e) => {
                    let es = crate::text::string_from_chars(e.as_slice());
                    let lowered = to_ascii_lowercase(es.as_str());
                    let lc = chars_of(lowered.as_str());
                    String::from_str(type_for_extension(lc.as_slice()))
                },
                None => String::from_str("application/octet-stream"),
            }
        },
        None => String::from_str("application/octet-stream"),
    }
}

// ---------------------------------------------------------------------------
// The request line
// ---------------------------------------------------------------------------
/// The target of a request without its query and fragment: everything before
/// the first `?` or `#`.
pub open spec fn without_query(s: Seq<char>) -> Seq<char>
    decreases s.len(),
{
    if s.len() == 0 || s[0] == '?' || s[0] == '#' {
        Seq::empty()
    } else {
        seq![s[0]] + without_query(s.drop_first())
    }
}

/// `path` without its query and fragment.
pub fn strip_query_and_fragment(path: &str) -> (res: String)
    ensures
        res@ == without_query(path@),
{
    let cs = chars_of(path);
    let mut out = String::new();
    let mut i: usize = 0;
    assert(cs@.skip(0) == cs@);
    while i < cs.len() && cs[i] != '?' && cs[i] != '#'
        invariant
            cs@ == path@,
            i <= cs.len(),
            without_query(path@) == out@ + without_query(cs@.skip(i as int)),
        decreases cs.len() - i,
    {
        assert(cs@.skip(i as int).drop_first() == cs@.skip(i + 1));
        push_char(&mut out, cs[i]);
        i = i + 1;
    }
    out
}

/// The run of non-white-space characters at the start of `s`.
pub open spec fn leading_word(s: Seq<char>) -> Seq<char>
    decreases s.len(),
{
    if s.len() > 0 && !is_unicode_whitespace(s[0]) {
        seq![s[0]] + leading_word(s.drop_first())
    } else {
        Seq::empty()
    }
}

/// The first white-space separated word of `s` (empty if there is none).
pub open spec fn first_word(s: Seq<char>) -> Seq<char> {
    leading_word(trim_start(s))
}

/// What follows the first word of `s`.
pub open spec fn after_first_word(s: Seq<char>) -> Seq<char> {
    trim_start(s).skip(first_word(s).len() as int)
}

/// The method of a request line: its first word, or empty.
pub open spec fn request_method(line: Seq<char>) -> Seq<char> {
    first_word(line)
}

/// The target of a request line: its second word, or `/`.
pub open spec fn request_target(line: Seq<char>) -> Seq<char> {
    let w = first_word(after_first_word(line));
    if w.len() == 0 {
        "/"@
    } else {
        w
    }
}

/// The method and target of a request.
pub struct HttpRequest {
    pub method: String,
    pub path: String,
}

/// The first word of `cs[from..]` and the position just after it.
fn next_word(cs: &Vec<char>, from: usize) -> (res: (Vec<char>, usize))
    requires
        from <= cs.len(),
    ensures
        res.0@ == first_word(cs@.skip(from as int)),
        from <= res.1 <= cs.len(),
        cs@.skip(res.1 as int) == after_first_word(cs@.skip(from as int)),
{
    let ghost s = cs@.skip(from as int);
    let mut i: usize = from;
    while i < cs.len() && is_ws(cs[i])
        invariant
            from <= i <= cs.len(),
            s == cs@.skip(from as int),
            trim_start(s) == trim_start(cs@.skip(i as int)),
        decreases cs.len() - i,
    {
        assert(cs@.skip(i as int).drop_first() == cs@.skip(i + 1));
        i = i + 1;
    }
    proof {
        if i < cs.len() {
            assert(cs@.skip(i as int)[0] == cs@[i as int]);
        }
        assert(trim_start(cs@.skip(i as int)) == cs@.skip(i as int));
    }
    let start = i;
    let mut word: Vec<char> = Vec::new();
    while i < cs.len() && !is_ws(cs[i])
        invariant
            start <= i <= cs.len(),
            trim_start(s) == cs@.skip(start as int),
            leading_word(cs@.skip(start as int)) == word@ + leading_word(cs@.skip(i as int)),
            word@ == cs@.subrange(start as int, i as int),
        decreases cs.len() - i,
    {
        assert(cs@.skip(i as int)[0] == cs@[i as int]);
        assert(cs@.skip(i as int).drop_first() == cs@.skip(i + 1));
        word.push(cs[i]);
        i = i + 1;
        assert(word@ == cs@.subrange(start as int, i as int));
    }
    proof {
        if i < cs.len() {
            assert(cs@.skip(i as int)[0] == cs@[i as int]);
        }
        assert(leading_word(cs@.skip(i as int)) == Seq::<char>::empty());
        assert(word@ + Seq::<char>::empty() == word@);
        assert(cs@.skip(start as int).skip(word@.len() as int) == cs@.skip(i as int));
    }
    (word, i)
}

fn is_ws(c: char) -> (res: bool)
    ensures
        res == is_unicode_whitespace(c),
{
    crate::text::is_whitespace(c)
}

/// The method and target of an HTTP request line (`METHOD TARGET VERSION`);
/// missing parts read as an empty method and `/`.
pub fn parse_request_line(line: &str) -> (res: HttpRequest)
    ensures
        res.method@ == request_method(line@),
        res.path@ == request_target(line@),
{
    let cs = chars_of(line);
    assert(cs@.skip(0) == cs@);
    let (method, after) = next_word(&cs, 0);
    let (target, _) = next_word(&cs, after);
    let path = if target.len() == 0 {
        String::from_str("/")
    } else {
        crate::text::string_from_chars(target.as_slice())
    };
    HttpRequest { method: crate::text::string_from_chars(method.as_slice()), path }
}

// ---------------------------------------------------------------------------
// Responses
// ---------------------------------------------------------------------------
/// One response header.
pub struct Header {
    pub name: String,
    pub value: String,
}

/// The header lines, each `name: value` followed by CR LF.
pub open spec fn headers_text(hs: Seq<Header>) -> Seq<char>
    decreases hs.len(),
{
    if hs.len() == 0 {
        Seq::empty()
    } else {
        headers_text(hs.drop_last()) + hs.last().name@ + ": "@ + hs.last().value@ + "\r\n"@
    }
}

/// The head of a response: status line, `Connection: close`, the headers and
/// the blank line that ends them.
pub open spec fn response_head(status: Seq<char>, hs: Seq<Header>) -> Seq<char> {
    "HTTP/1.1 "@ + status + "\r\n"@ + "Connection: close\r\n"@ + headers_text(hs) + "\r\n"@
}

/// The head of a response with the given status and headers.
pub fn build_response_head(status: &str, headers: &Vec<Header>) -> (res: String)
    ensures
        res@ == response_head(status@, headers@),
{
    let mut out = String::from_str("HTTP/1.1 ");
    out.append(status);
    out.append("\r\n");
    out.append("Connection: close\r\n");
    let ghost start = out@;
    let mut i: usize = 0;
    while i < headers.len()
        invariant
            i <= headers.len(),
            out@ == start + headers_text(headers@.take(i as int)),
        decreases headers.len() - i,
    {
        out.append(headers[i].name.as_str());
        out.append(": ");
        out.append(headers[i].value.as_str());
        out.append("\r\n");
        i = i + 1;
        assert(headers@.take(i as int).drop_last() == headers@.take(i - 1));
    }
    assert(headers@.take(headers.len() as int) == headers@);
    out.append("\r\n");
    out
}

pub(crate) fn header(name: &str, value: String) -> (res: Header)
    ensures
        res.name@ == name@,
        res.value@ == value@,
{
    Header { name: String::from_str(name), value }
}

/// The headers of a response with a body held in memory.
pub open spec fn plain_headers(content_type: Seq<char>, length: nat) -> Seq<(Seq<char>, Seq<char>)> {
    seq![
        ("Content-Type"@, content_type),
        ("Content-Length"@, decimal(length)),
        ("Cache-Control"@, "no-store"@),
    ]
}

/// The header lines given as (name, value) pairs.
pub open spec fn pairs_text(hs: Seq<(Seq<char>, Seq<char>)>) -> Seq<char>
    decreases hs.len(),
{
    if hs.len() == 0 {
        Seq::empty()
    } else {
        pairs_text(hs.drop_last()) + hs.last().0 + ": "@ + hs.last().1 + "\r\n"@
    }
}

/// The head of a response, with headers given as (name, value) pairs.
pub open spec fn head_text(status: Seq<char>, hs: Seq<(Seq<char>, Seq<char>)>) -> Seq<char> {
    "HTTP/1.1 "@ + status + "\r\n"@ + "Connection: close\r\n"@ + pairs_text(hs) + "\r\n"@
}

pub(crate) proof fn lemma_headers_pairs(hs: Seq<Header>, ps: Seq<(Seq<char>, Seq<char>)>)
    requires
        hs.len() == ps.len(),
        forall|i: int| 0 <= i < hs.len() ==> hs[i].name@ == ps[i].0 && hs[i].value@ == ps[i].1,
    ensures
        headers_text(hs) == pairs_text(ps),
    decreases hs.len(),
{
    if hs.len() > 0 {
        lemma_headers_pairs(hs.drop_last(), ps.drop_last());
    }
}

/// A complete response whose body is in memory; the body is left out for
/// `HEAD` requests while its length is still announced.
pub open spec fn plain_response(status: Seq<char>, content_type: Seq<char>, body: Seq<u8>, head_only: bool) -> Seq<u8> {
    encode_utf8(head_text(status, plain_headers(content_type, body.len())))
        + if head_only {
        Seq::empty()
    } else {
        body
    }
}

/// A redirect to `location`.
pub open spec fn redirect_response(location: Seq<char>) -> Seq<u8> {
    encode_utf8(
        head_text(
            "301 Moved Permanently"@,
            seq![("Location"@, location), ("Content-Length"@, "0"@), ("Cache-Control"@, "no-store"@)],
        ),
    )
}

/// Appends `b` to `v`.
pub fn push_bytes(v: &mut Vec<u8>, b: &[u8])
    ensures
        final(v)@ == old(v)@ + b@,
{
    let mut i: usize = 0;
    while i < b.len()
        invariant
            i <= b.len(),
            v@ == old(v)@ + b@.take(i as int),
        decreases b.len() - i,
    {
        v.push(b[i]);
        i = i + 1;
        assert(v@ == old(v)@ + b@.take(i as int));
    }
    assert(b@.take(b.len() as int) == b@);
}

/// The UTF-8 bytes of `s`.
pub fn utf8_bytes(s: &str) -> (res: Vec<u8>)
    ensures
        res@ == encode_utf8(s@),
{
    let mut v: Vec<u8> = Vec::new();
    push_bytes(&mut v, s.as_bytes());
    v
}

/// A complete response with an in-memory body (`Content-Type`,
/// `Content-Length`, `Cache-Control: no-store`).
pub fn plain_response_bytes(status: &str, content_type: &str, body: &[u8], head_only: bool) -> (res: Vec<u8>)
    ensures
        res@ == plain_response(status@, content_type@, body@, head_only),
{
    let mut headers: Vec<Header> = Vec::new();
    headers.push(header("Content-Type", String::from_str(content_type)));
    headers.push(header("Content-Length", crate::text::decimal_string(body.len() as u64)));
    headers.push(header("Cache-Control", String::from_str("no-store")));
    let head = build_response_head(status, &headers);
    proof {
        lemma_headers_pairs(headers@, plain_headers(content_type@, body@.len()));
    }
    let mut out = utf8_bytes(head.as_str());
    if !head_only {
        push_bytes(&mut out, body);
    }
    out
}

/// A complete `301` redirect to `location`.
pub fn redirect_bytes(location: &str) -> (res: Vec<u8>)
    ensures
        res@ == redirect_response(location@),
{
    let mut headers: Vec<Header> = Vec::new();
    headers.push(header("Location", String::from_str(location)));
    headers.push(header("Content-Length", String::from_str("0")));
    headers.push(header("Cache-Control", String::from_str("no-store")));
    let head = build_response_head("301 Moved Permanently", &headers);
    proof {
        lemma_headers_pairs(
            headers@,
            seq![("Location"@, location@), ("Content-Length"@, "0"@), ("Cache-Control"@, "no-store"@)],
        );
    }
    utf8_bytes(head.as_str())
}

/// The file name offered for download when a path has none.
pub open spec fn download_name(file_name: Option<Seq<char>>) -> Seq<char> {
    match file_name {
        Some(n) => n,
        None => "download"@,
    }
}

/// The head of a file download response.
pub open spec fn file_head(file_name: Option<Seq<char>>, length: nat) -> Seq<char> {
    head_text(
        "200 OK"@,
        seq![
            ("Content-Type"@, content_type(file_name)),
            ("Content-Length"@, decimal(length)),
            ("Content-Disposition"@, content_disposition(download_name(file_name))),
            ("Cache-Control"@, "no-store"@),
        ],
    )
}

/// The head of the response that sends a file of `content_length` bytes named
/// `file_name` (`None` when the path has no file name).
pub fn file_response_head(file_name: Option<&str>, content_length: u64) -> (res: String)
    ensures
        res@ == file_head(
            match file_name {
                Some(n) => Some(n@),
                None => None,
            },
            content_length as nat,
        ),
{
    let ctype = detect_content_type(file_name);
    let disposition = match file_name {
        Some(n) => build_content_disposition(n),
        None => build_content_disposition("download"),
    };
    let mut headers: Vec<Header> = Vec::new();
    headers.push(header("Content-Type", ctype));
    headers.push(header("Content-Length", crate::text::decimal_string(content_length)));
    headers.push(header("Content-Disposition", disposition));
    headers.push(header("Cache-Control", String::from_str("no-store")));
    let head = build_response_head("200 OK", &headers);
    proof {
        let fname = match file_name {
            Some(n) => Some(n@),
            None => None,
        };
        lemma_headers_pairs(
            headers@,
            seq![
                ("Content-Type"@, content_type(fname)),
                ("Content-Length"@, decimal(content_length as nat)),
                ("Content-Disposition"@, content_disposition(download_name(fname))),
                ("Cache-Control"@, "no-store"@),
            ],
        );
    }
    head
}

// ---------------------------------------------------------------------------
// Decoding undoes encoding
// ---------------------------------------------------------------------------
/// The byte of an upper-case hexadecimal digit.
pub open spec fn hex_upper_byte(d: int) -> u8 {
    if d < 10 {
        (48 + d) as u8
    } else {
        (55 + d) as u8
    }
}

/// The bytes of the encoding of one byte.
pub open spec fn encoded_byte_bytes(b: u8) -> Seq<u8> {
    if is_unreserved(b) {
        seq![b]
    } else {
        seq![37u8, hex_upper_byte(b as int / 16), hex_upper_byte(b as int % 16)]
    }
}

/// The bytes of the percent encoding of `b`.
pub open spec fn encoded_bytes(b: Seq<u8>) -> Seq<u8>
    decreases b.len(),
{
    if b.len() == 0 {
        Seq::empty()
    } else {
        encoded_byte_bytes(b[0]) + encoded_bytes(b.drop_first())
    }
}

proof fn lemma_hex_upper(d: int)
    requires
        0 <= d < 16,
    ensures
        (hex_upper(d) as u32) < 128,
        hex_upper(d) as u8 == hex_upper_byte(d),
        hex_value(hex_upper_byte(d)) == Some(d as u8),
        hex_upper(d) != '/',
        hex_upper_byte(d) != 37,
{
    let x: u8 = hex_upper_byte(d);
    assert(hex_upper(d) == x as char);
    assert((x as char) as u32 == x as u32);
}

proof fn lemma_encoded_char_bytes(b: u8)
    ensures
        encode_byte(b).len() == encoded_byte_bytes(b).len(),
        forall|i: int|
            0 <= i < encode_byte(b).len() ==> (#[trigger] encode_byte(b)[i] as u32) < 128 && encode_byte(
                b,
            )[i] as u8 == encoded_byte_bytes(b)[i] && encode_byte(b)[i] != '/',
{
    if is_unreserved(b) {
        assert((b as char) as u32 == b as u32);
    } else {
        lemma_hex_upper(b as int / 16);
        lemma_hex_upper(b as int % 16);
    }
}

/// The percent encoding is ASCII text, without `/`, whose bytes are
/// [`encoded_bytes`].
pub proof fn lemma_percent_encoded_ascii(b: Seq<u8>)
    ensures
        vstd::utf8::is_ascii_chars(percent_encoded_bytes(b)),
        percent_encoded_bytes(b).len() == encoded_bytes(b).len(),
        forall|i: int|
            0 <= i < percent_encoded_bytes(b).len() ==> #[trigger] percent_encoded_bytes(b)[i] as u8
                == encoded_bytes(b)[i] && percent_encoded_bytes(b)[i] != '/',
        b.len() > 0 ==> percent_encoded_bytes(b).len() > 0,
    decreases b.len(),
{
    if b.len() > 0 {
        lemma_percent_encoded_ascii(b.drop_first());
        lemma_encoded_char_bytes(b[0]);
        let head = encode_byte(b[0]);
        let rest = percent_encoded_bytes(b.drop_first());
        let all = percent_encoded_bytes(b);
        assert(all == head + rest);
        assert forall|i: int| 0 <= i < all.len() implies '\0' <= #[trigger] all[i] <= '\u{7f}' by {
            if i < head.len() {
                assert(all[i] == head[i]);
                assert((head[i] as u32) < 128);
            } else {
                assert(all[i] == rest[i - head.len()]);
                assert(vstd::utf8::is_ascii_chars(rest));
                assert('\0' <= rest[i - head.len()] <= '\u{7f}');
            }
        }
        assert forall|i: int| 0 <= i < all.len() implies #[trigger] all[i] as u8 == encoded_bytes(b)[i]
            && all[i] != '/' by {
            if i < head.len() {
            } else {
                assert(all[i] == rest[i - head.len()]);
            }
        }
    }
}

/// Decoding something gives something.
pub proof fn lemma_decoded_bytes_nonempty(b: Seq<u8>)
    requires
        b.len() > 0,
    ensures
        percent_decoded_bytes(b) matches Some(d) ==> d.len() > 0,
{
}

/// Decoding the bytes of an encoding gives back the encoded bytes.
pub proof fn lemma_decode_encoded_bytes(b: Seq<u8>)
    ensures
        percent_decoded_bytes(encoded_bytes(b)) == Some(b),
    decreases b.len(),
{
    if b.len() > 0 {
        lemma_decode_encoded_bytes(b.drop_first());
        let e = encoded_bytes(b);
        let head = encoded_byte_bytes(b[0]);
        let tail = encoded_bytes(b.drop_first());
        assert(e == head + tail);
        if is_unreserved(b[0]) {
            assert(e[0] == b[0]);
            assert(e.skip(1) == tail);
            assert(seq![b[0]] + b.drop_first() == b);
        } else {
            lemma_hex_upper(b[0] as int / 16);
            lemma_hex_upper(b[0] as int % 16);
            assert(e[0] == 37u8);
            assert(e.skip(3) == tail);
            assert(hex_pair(e[1], e[2]) == Some(b[0]));
            assert(seq![b[0]] + b.drop_first() == b);
        }
    } else {
        assert(encoded_bytes(b) == Seq::<u8>::empty());
        assert(b == Seq::<u8>::empty());
    }
}

/// Percent decoding undoes percent encoding: any text survives the trip.
pub proof fn lemma_percent_roundtrip(s: Seq<char>)
    ensures
        percent_decoded(percent_encoded(s)) == Some(s),
{
    let b = encode_utf8(s);
    let enc = percent_encoded_bytes(b);
    lemma_percent_encoded_ascii(b);
    vstd::utf8::is_ascii_chars_encode_utf8(enc);
    assert(encode_utf8(enc) == encoded_bytes(b));
    lemma_decode_encoded_bytes(b);
    vstd::utf8::encode_utf8_valid_utf8(s);
    vstd::utf8::encode_utf8_decode_utf8(s);
}

// ---------------------------------------------------------------------------
// What percent encoding and content types are
// ---------------------------------------------------------------------------
/// The bytes that stand for themselves in a URL path segment (RFC 3986
/// "unreserved"): ASCII letters and digits, `-`, `_`, `.` and `~`.
pub open spec fn rfc3986_unreserved(b: u8) -> bool {
    ('A' as u8 <= b && b <= 'Z' as u8) || ('a' as u8 <= b && b <= 'z' as u8) || ('0' as u8 <= b
        && b <= '9' as u8) || b == '-' as u8 || b == '_' as u8 || b == '.' as u8 || b == '~' as u8
}

proof fn lemma_hex_digit(d: int)
    requires
        0 <= d < 16,
    ensures
        hex_upper(d) == "0123456789ABCDEF"@[d],
{
    reveal_strlit("0123456789ABCDEF");
    assert(((48 + d) as u8) as char as u32 == 48 + d);
    assert(((55 + d) as u8) as char as u32 == 55 + d);
    assert(d == 0 || d == 1 || d == 2 || d == 3 || d == 4 || d == 5 || d == 6 || d == 7 || d == 8
        || d == 9 || d == 10 || d == 11 || d == 12 || d == 13 || d == 14 || d == 15);
}

/// Percent encoding of one byte: an RFC 3986 unreserved byte stays as it
/// is; every other byte is written as `%` and two upper-case hexadecimal
/// digits, the high half first.
pub proof fn lemma_encode_byte(b: u8)
    ensures
        encode_byte(b) == if rfc3986_unreserved(b) {
            seq![b as char]
        } else {
            seq!['%', "0123456789ABCDEF"@[b as int / 16], "0123456789ABCDEF"@[b as int % 16]]
        },
{
    lemma_hex_digit(b as int / 16);
    lemma_hex_digit(b as int % 16);
}

/// Every character of a percent-encoded text is an ASCII letter or digit,
/// `-`, `_`, `.`, `~` or `%`: in particular an encoded name never holds `#`,
/// `?`, `/`, `"` or `<`, so a link built from it names exactly that entry.
pub proof fn lemma_percent_encoded_chars(s: Seq<char>)
    ensures
        forall|i: int|
            0 <= i < percent_encoded(s).len() ==> {
                let c = #[trigger] percent_encoded(s)[i];
                ('A' <= c && c <= 'Z') || ('a' <= c && c <= 'z') || ('0' <= c && c <= '9') || c == '-'
                    || c == '_' || c == '.' || c == '~' || c == '%'
            },
{
    lemma_encoded_bytes_chars(encode_utf8(s));
}

proof fn lemma_encoded_bytes_chars(b: Seq<u8>)
    ensures
        forall|i: int|
            0 <= i < percent_encoded_bytes(b).len() ==> {
                let c = #[trigger] percent_encoded_bytes(b)[i];
                ('A' <= c && c <= 'Z') || ('a' <= c && c <= 'z') || ('0' <= c && c <= '9') || c == '-'
                    || c == '_' || c == '.' || c == '~' || c == '%'
            },
    decreases b.len(),
{
    reveal_strlit("0123456789ABCDEF");
    if b.len() > 0 {
        lemma_encoded_bytes_chars(b.drop_first());
        lemma_encode_byte(b[0]);
        let h = encode_byte(b[0]);
        let rest = percent_encoded_bytes(b.drop_first());
        let all = percent_encoded_bytes(b);
        assert(all == h + rest);
        assert((b[0] as char) as u32 == b[0]);
        let hex = "0123456789ABCDEF"@;
        assert forall|d: int| 0 <= d < 16 implies {
            let c = #[trigger] hex[d];
            ('A' <= c && c <= 'Z') || ('0' <= c && c <= '9')
        } by {
            assert(d == 0 || d == 1 || d == 2 || d == 3 || d == 4 || d == 5 || d == 6 || d == 7 || d
                == 8 || d == 9 || d == 10 || d == 11 || d == 12 || d == 13 || d == 14 || d == 15);
        }
        assert(hex[b[0] as int / 16] == hex[b[0] as int / 16]);
        assert(hex[b[0] as int % 16] == hex[b[0] as int % 16]);
        assert forall|i: int| 0 <= i < all.len() implies {
            let c = #[trigger] all[i];
            ('A' <= c && c <= 'Z') || ('a' <= c && c <= 'z') || ('0' <= c && c <= '9') || c == '-' || c
                == '_' || c == '.' || c == '~' || c == '%'
        } by {
            if i < h.len() {
                assert(all[i] == h[i]);
            } else {
                assert(all[i] == rest[i - h.len()]);
            }
        }
    }
}

/// The content type a file is served with, by its extension in any ASCII
/// case: the listed image, text, script, data, document, archive and media
/// types, and `application/octet-stream` for any other extension, for a name
/// without one, and when there is no name.
pub proof fn lemma_content_types(n: Seq<char>, e: Seq<char>)
    requires
        file_extension(n) == Some(e),
    ensures
        ascii_lowercase(e) == "png"@ ==> content_type(Some(n)) == "image/png"@,
        ascii_lowercase(e) == "jpg"@ ==> content_type(Some(n)) == "image/jpeg"@,
        ascii_lowercase(e) == "jpeg"@ ==> content_type(Some(n)) == "image/jpeg"@,
        ascii_lowercase(e) == "gif"@ ==> content_type(Some(n)) == "image/gif"@,
        ascii_lowercase(e) == "webp"@ ==> content_type(Some(n)) == "image/webp"@,
        ascii_lowercase(e) == "svg"@ ==> content_type(Some(n)) == "image/svg+xml"@,
        ascii_lowercase(e) == "txt"@ ==> content_type(Some(n)) == "text/plain; charset=utf-8"@,
        ascii_lowercase(e) == "log"@ ==> content_type(Some(n)) == "text/plain; charset=utf-8"@,
        ascii_lowercase(e) == "html"@ ==> content_type(Some(n)) == "text/html; charset=utf-8"@,
        ascii_lowercase(e) == "htm"@ ==> content_type(Some(n)) == "text/html; charset=utf-8"@,
        ascii_lowercase(e) == "css"@ ==> content_type(Some(n)) == "text/css; charset=utf-8"@,
        ascii_lowercase(e) == "js"@ ==> content_type(Some(n)) == "application/javascript; charset=utf-8"@,
        ascii_lowercase(e) == "json"@ ==> content_type(Some(n)) == "application/json; charset=utf-8"@,
        ascii_lowercase(e) == "pdf"@ ==> content_type(Some(n)) == "application/pdf"@,
        ascii_lowercase(e) == "zip"@ ==> content_type(Some(n)) == "application/zip"@,
        ascii_lowercase(e) == "mp3"@ ==> content_type(Some(n)) == "audio/mpeg"@,
        ascii_lowercase(e) == "mp4"@ ==> content_type(Some(n)) == "video/mp4"@,
        !(ascii_lowercase(e) == "png"@ || ascii_lowercase(e) == "jpg"@ || ascii_lowercase(e) == "jpeg"@
            || ascii_lowercase(e) == "gif"@ || ascii_lowercase(e) == "webp"@ || ascii_lowercase(e)
            == "svg"@ || ascii_lowercase(e) == "txt"@ || ascii_lowercase(e) == "log"@ || ascii_lowercase(e)
            == "html"@ || ascii_lowercase(e) == "htm"@ || ascii_lowercase(e) == "css"@
            || ascii_lowercase(e) == "js"@ || ascii_lowercase(e) == "json"@ || ascii_lowercase(e)
            == "pdf"@ || ascii_lowercase(e) == "zip"@ || ascii_lowercase(e) == "mp3"@
            || ascii_lowercase(e) == "mp4"@) ==> content_type(Some(n))
            == "application/octet-stream"@,
{
    reveal_strlit("png");
    reveal_strlit("jpg");
    reveal_strlit("jpeg");
    reveal_strlit("gif");
    reveal_strlit("webp");
    reveal_strlit("svg");
    reveal_strlit("txt");
    reveal_strlit("log");
    reveal_strlit("html");
    reveal_strlit("htm");
    reveal_strlit("css");
    reveal_strlit("js");
    reveal_strlit("json");
    reveal_strlit("pdf");
    reveal_strlit("zip");
    reveal_strlit("mp3");
    reveal_strlit("mp4");
    let x = ascii_lowercase(e);
    if x == "png"@ {
        assert(x.len() == 3);
        assert(x[0] == 'p');
        assert(x[1] == 'n');
        assert(x[2] == 'g');
    }
    if x == "jpg"@ {
        assert(x.len() == 3);
        assert(x[0] == 'j');
        assert(x[1] == 'p');
        assert(x[2] == 'g');
    }
    if x == "jpeg"@ {
        assert(x.len() == 4);
        assert(x[0] == 'j');
        assert(x[1] == 'p');
        assert(x[2] == 'e');
        assert(x[3] == 'g');
    }
    if x == "gif"@ {
        assert(x.len() == 3);
        assert(x[0] == 'g');
        assert(x[1] == 'i');
        assert(x[2] == 'f');
    }
    if x == "webp"@ {
        assert(x.len() == 4);
        assert(x[0] == 'w');
        assert(x[1] == 'e');
        assert(x[2] == 'b');
        assert(x[3] == 'p');
    }
    if x == "svg"@ {
        assert(x.len() == 3);
        assert(x[0] == 's');
        assert(x[1] == 'v');
        assert(x[2] == 'g');
    }
    if x == "txt"@ {
        assert(x.len() == 3);
        assert(x[0] == 't');
        assert(x[1] == 'x');
        assert(x[2] == 't');
    }
    if x == "log"@ {
        assert(x.len() == 3);
        assert(x[0] == 'l');
        assert(x[1] == 'o');
        assert(x[2] == 'g');
    }
    if x == "html"@ {
        assert(x.len() == 4);
        assert(x[0] == 'h');
        assert(x[1] == 't');
        assert(x[2] == 'm');
        assert(x[3] == 'l');
    }
    if x == "htm"@ {
        assert(x.len() == 3);
        assert(x[0] == 'h');
        assert(x[1] == 't');
        assert(x[2] == 'm');
    }
    if x == "css"@ {
        assert(x.len() == 3);
        assert(x[0] == 'c');
        assert(x[1] == 's');
        assert(x[2] == 's');
    }
    if x == "js"@ {
        assert(x.len() == 2);
        assert(x[0] == 'j');
        assert(x[1] == 's');
    }
    if x == "json"@ {
        assert(x.len() == 4);
        assert(x[0] == 'j');
        assert(x[1] == 's');
        assert(x[2] == 'o');
        assert(x[3] == 'n');
    }
    if x == "pdf"@ {
        assert(x.len() == 3);
        assert(x[0] == 'p');
        assert(x[1] == 'd');
        assert(x[2] == 'f');
    }
    if x == "zip"@ {
        assert(x.len() == 3);
        assert(x[0] == 'z');
        assert(x[1] == 'i');
        assert(x[2] == 'p');
    }
    if x == "mp3"@ {
        assert(x.len() == 3);
        assert(x[0] == 'm');
        assert(x[1] == 'p');
        assert(x[2] == '3');
    }
    if x == "mp4"@ {
        assert(x.len() == 3);
        assert(x[0] == 'm');
        assert(x[1] == 'p');
        assert(x[2] == '4');
    }
}

/// A file name without an extension, or no name at all, is served as
/// `application/octet-stream`.
pub proof fn lemma_content_type_default(n: Seq<char>)
    ensures
        file_extension(n) is None ==> content_type(Some(n)) == "application/octet-stream"@,
        content_type(None) == "application/octet-stream"@,
{
}

/// HTML escaping works character by character: the escaping of a joined
/// text is the joined escapings, `&`, `<`, `>` and `"` become `&amp;`,
/// `&lt;`, `&gt;` and `&quot;`, and every other character stays as it is.
pub proof fn lemma_html_escape_rules(a: Seq<char>, b: Seq<char>, c: char)
    ensures
        html_escaped(a + b) == html_escaped(a) + html_escaped(b),
        html_escaped(seq![c]) == if c == '&' {
            "&amp;"@
        } else if c == '<' {
            "&lt;"@
        } else if c == '>' {
            "&gt;"@
        } else if c == '"' {
            "&quot;"@
        } else {
            seq![c]
        },
    decreases a.len(),
{
    let one = seq![c];
    assert(one[0] == c);
    assert(one.drop_first() =~= Seq::<char>::empty());
    assert(html_escaped(Seq::<char>::empty()) == Seq::<char>::empty());
    assert(html_escaped(one) == escape_char(c) + html_escaped(one.drop_first()));
    assert(escape_char(c) + Seq::<char>::empty() =~= escape_char(c));
    if a.len() == 0 {
        assert(a + b =~= b);
    } else {
        assert((a + b)[0] == a[0]);
        assert((a + b).drop_first() =~= a.drop_first() + b);
        lemma_html_escape_rules(a.drop_first(), b, c);
    }
}

/// Stripping the query and fragment keeps exactly the part of the target
/// before its first `?` or `#`.
pub proof fn lemma_without_query_rules(s: Seq<char>)
    ensures
        without_query(s).len() <= s.len(),
        s.take(without_query(s).len() as int) == without_query(s),
        forall|i: int| 0 <= i < without_query(s).len() ==> #[trigger] s[i] != '?' && s[i] != '#',
        without_query(s).len() < s.len() ==> s[without_query(s).len() as int] == '?' || s[without_query(
            s,
        ).len() as int] == '#',
    decreases s.len(),
{
    if s.len() > 0 && s[0] != '?' && s[0] != '#' {
        let t = s.drop_first();
        lemma_without_query_rules(t);
        let r = without_query(s);
        assert(r == seq![s[0]] + without_query(t));
        assert(s.take(r.len() as int) =~= seq![s[0]] + t.take(without_query(t).len() as int));
        assert forall|i: int| 0 <= i < r.len() implies #[trigger] s[i] != '?' && s[i] != '#' by {
            if i > 0 {
                assert(s[i] == t[i - 1]);
            }
        }
        if r.len() < s.len() {
            assert(s[r.len() as int] == t[without_query(t).len() as int]);
        }
    }
}

/// The download header names the file twice: as an ASCII name in quotes,
/// where each character that is printable ASCII other than `"` and `\` is
/// kept and every other character becomes `_`, and exactly, percent-encoded
/// as UTF-8.
pub proof fn lemma_content_disposition_rules(name: Seq<char>)
    ensures
        ({
            let f = name.map_values(|c: char| fallback_char(c));
            &&& content_disposition(name) == "attachment; filename=\""@ + f + "\"; filename*=UTF-8''"@
                + percent_encoded(name)
            &&& f.len() == name.len()
            &&& forall|i: int|
                0 <= i < name.len() ==> #[trigger] f[i] == if 32 <= (name[i] as u32) && (name[i] as u32) <= 126
                    && name[i] != '"' && name[i] != '\\' {
                    name[i]
                } else {
                    '_'
                }
        }),
{
}

/// The UTF-8 bytes of joined texts are the joined bytes.
pub proof fn lemma_encode_utf8_concat(a: Seq<char>, b: Seq<char>)
    ensures
        encode_utf8(a + b) == encode_utf8(a) + encode_utf8(b),
    decreases a.len(),
{
    if a.len() == 0 {
        assert(a + b =~= b);
        assert(encode_utf8(a) =~= Seq::<u8>::empty());
        assert(encode_utf8(a) + encode_utf8(b) =~= encode_utf8(b));
    } else {
        assert((a + b)[0] == a[0]);
        assert((a + b).drop_first() =~= a.drop_first() + b);
        lemma_encode_utf8_concat(a.drop_first(), b);
    }
}

/// The bytes end with an empty line (`CR LF CR LF`), as a response head does.
pub open spec fn ends_with_blank_line(b: Seq<u8>) -> bool {
    b.len() >= 4 && b.subrange(b.len() - 4, b.len() as int) == seq![13u8, 10u8, 13u8, 10u8]
}

/// A response head ends with the empty line that closes the headers.
pub proof fn lemma_head_ends_with_blank_line(status: Seq<char>, hs: Seq<(Seq<char>, Seq<char>)>)
    ensures
        ends_with_blank_line(encode_utf8(head_text(status, hs))),
{
    reveal_strlit("\r\n");
    reveal_strlit("Connection: close\r\n");
    reveal_strlit("\r\n\r\n");
    let crlf = "\r\n"@;
    let front = "HTTP/1.1 "@ + status + "\r\n"@ + "Connection: close\r\n"@ + pairs_text(hs);
    assert(head_text(status, hs) == front + crlf);
    // `front` itself ends with CR LF: either the last header line or the
    // `Connection` line.
    let y = if hs.len() == 0 {
        "HTTP/1.1 "@ + status + "\r\n"@ + "Connection: close"@
    } else {
        "HTTP/1.1 "@ + status + "\r\n"@ + "Connection: close\r\n"@ + pairs_text(hs.drop_last()) + hs.last().0
            + ": "@ + hs.last().1
    };
    reveal_strlit("Connection: close");
    assert(front =~= y + crlf);
    assert(head_text(status, hs) =~= y + "\r\n\r\n"@);
    lemma_encode_utf8_concat(y, "\r\n\r\n"@);
    let tail = "\r\n\r\n"@;
    assert(vstd::utf8::is_ascii_chars(tail));
    vstd::utf8::is_ascii_chars_encode_utf8(tail);
    let e = encode_utf8(head_text(status, hs));
    assert(e =~= encode_utf8(y) + encode_utf8(tail));
    assert(encode_utf8(tail) =~= seq![13u8, 10u8, 13u8, 10u8]);
    assert(e.subrange(e.len() - 4, e.len() as int) =~= encode_utf8(tail));
}

/// The value of a hexadecimal digit written in either case.
pub open spec fn hex_digit_value(b: u8) -> int {
    if '0' as u8 <= b && b <= '9' as u8 {
        b - '0' as u8
    } else if 'a' as u8 <= b && b <= 'f' as u8 {
        b - 'a' as u8 + 10
    } else {
        b - 'A' as u8 + 10
    }
}

/// A hexadecimal digit in either case.
pub open spec fn is_hex_digit(b: u8) -> bool {
    ('0' as u8 <= b && b <= '9' as u8) || ('a' as u8 <= b && b <= 'f' as u8) || ('A' as u8 <= b && b
        <= 'F' as u8)
}

/// `%XY` decodes exactly when both `X` and `Y` are hexadecimal digits, in
/// either case, to the byte `16 * X + Y`; and every byte of `0..=255` is
/// reached, from upper- and from lower-case digits alike.
pub proof fn lemma_hex_pair_rules(l: u8, r: u8)
    ensures
        hex_pair(l, r) is Some <==> is_hex_digit(l) && is_hex_digit(r),
        hex_pair(l, r) matches Some(v) ==> v == 16 * hex_digit_value(l) + hex_digit_value(r),
        hex_pair(
            "0123456789ABCDEF"@[l as int / 16] as u8,
            "0123456789ABCDEF"@[l as int % 16] as u8,
        ) == Some(l),
        hex_pair(
            "0123456789abcdef"@[l as int / 16] as u8,
            "0123456789abcdef"@[l as int % 16] as u8,
        ) == Some(l),
{
    reveal_strlit("0123456789ABCDEF");
    reveal_strlit("0123456789abcdef");
    let hi = l as int / 16;
    let lo = l as int % 16;
    assert(hi == 0 || hi == 1 || hi == 2 || hi == 3 || hi == 4 || hi == 5 || hi == 6 || hi == 7 || hi
        == 8 || hi == 9 || hi == 10 || hi == 11 || hi == 12 || hi == 13 || hi == 14 || hi == 15);
    assert(lo == 0 || lo == 1 || lo == 2 || lo == 3 || lo == 4 || lo == 5 || lo == 6 || lo == 7 || lo
        == 8 || lo == 9 || lo == 10 || lo == 11 || lo == 12 || lo == 13 || lo == 14 || lo == 15);
    assert(l == 16 * hi + lo);
}

} // verus!
