//! Byte ranges of file downloads: a request may ask for one range of the
//! file (`Range: bytes=FIRST-LAST`, `bytes=FIRST-` or `bytes=-SUFFIX`); it is
//! answered with that part (`206`), or with `416` when the range lies beyond
//! the file. Other forms of the header are ignored and the whole file is sent.
use vstd::prelude::*;

use crate::http::{
    build_content_disposition, build_response_head, content_disposition, content_type,
    detect_content_type, download_name, file_head, file_response_head, head_text, header,
    lemma_headers_pairs, Header,
};
use crate::paths::strings_view;
use crate::text::{
    ascii_lowercase, chars_equal, chars_of, decimal, opt_text, push_decimal, string_from_chars,
    to_ascii_lowercase, trim, trim_chars,
};

verus! {

/// How much of a file to send.
#[derive(Debug, Clone, Copy, PartialEq, Eq, Structural)]
pub enum ByteRange {
    /// The whole file, as a normal download.
    Whole,
    /// The bytes `start..=end`.
    Part { start: u64, end: u64 },
    /// The range lies outside the file.
    Unsatisfiable,
}

/// `c` is an ASCII digit.
pub open spec fn is_digit(c: char) -> bool {
    '0' <= c && c <= '9'
}

/// The value of a run of ASCII digits.
pub open spec fn digits_value(s: Seq<char>) -> nat
    decreases s.len(),
{
    if s.len() == 0 {
        0
    } else {
        digits_value(s.drop_last()) * 10 + ((s.last() as u32) - 48) as nat
    }
}

/// A non-empty run of ASCII digits whose value fits in a `u64`.
pub open spec fn is_number(s: Seq<char>) -> bool {
    s.len() > 0 && (forall|i: int| 0 <= i < s.len() ==> is_digit(#[trigger] s[i])) && digits_value(s)
        <= u64::MAX
}

/// The position of the first `c` in `s`, if any.
pub open spec fn first_index(s: Seq<char>, c: char) -> Option<int>
    decreases s.len(),
{
    if s.len() == 0 {
        None
    } else if s[0] == c {
        Some(0)
    } else {
        match first_index(s.drop_first(), c) {
            Some(i) => Some(i + 1),
            None => None,
        }
    }
}

/// The range asked for by the `Range` header value `value`, for a file of
/// `len` bytes.
pub open spec fn byte_range(value: Seq<char>, len: nat) -> ByteRange {
    let v = trim(value);
    if !(v.len() >= 6 && v.take(6) == "bytes="@) {
        ByteRange::Whole
    } else {
        let spec = trim(v.skip(6));
        match first_index(spec, '-') {
            None => ByteRange::Whole,
            Some(d) => {
                let first = trim(spec.take(d));
                let last = trim(spec.skip(d + 1));
                if first.len() == 0 {
                    if !is_number(last) {
                        ByteRange::Whole
                    } else if digits_value(last) == 0 || len == 0 {
                        ByteRange::Unsatisfiable
                    } else {
                        let n = if digits_value(last) < len {
                            digits_value(last)
                        } else {
                            len
                        };
                        ByteRange::Part { start: (len - n) as u64, end: (len - 1) as u64 }
                    }
                } else if !is_number(first) {
                    ByteRange::Whole
                } else if last.len() == 0 {
                    if digits_value(first) < len {
                        ByteRange::Part { start: digits_value(first) as u64, end: (len - 1) as u64 }
                    } else {
                        ByteRange::Unsatisfiable
                    }
                } else if !is_number(last) || digits_value(first) > digits_value(last) {
                    ByteRange::Whole
                } else if digits_value(first) >= len {
                    ByteRange::Unsatisfiable
                } else {
                    ByteRange::Part {
                        start: digits_value(first) as u64,
                        end: (if digits_value(last) < len {
                            digits_value(last)
                        } else {
                            (len - 1) as nat
                        }) as u64,
                    }
                }
            },
        }
    }
}

/// The value of `s` if it is a number that fits in a `u64`.
fn parse_number(s: &[char]) -> (res: Option<u64>)
    ensures
        res matches Some(n) ==> is_number(s@) && n == digits_value(s@),
        res is None ==> !is_number(s@),
{
    if s.len() == 0 {
        return None;
    }
    let mut value: u64 = 0;
    let mut i: usize = 0;
    while i < s.len()
        invariant
            i <= s.len(),
            s.len() > 0,
            value == digits_value(s@.take(i as int)),
            forall|k: int| 0 <= k < i ==> is_digit(#[trigger] s@[k]),
        decreases s.len() - i,
    {
        let c = s[i];
        if !('0' <= c && c <= '9') {
            assert(!is_digit(s@[i as int]));
            return None;
        }
        let d = (c as u32 - 48) as u64;
        assert(s@.take(i + 1).drop_last() == s@.take(i as int));
        if value > (u64::MAX - d) / 10 {
            proof {
                assert(value * 10 + d > u64::MAX) by (nonlinear_arith)
                    requires
                        value > (u64::MAX - d) / 10,
                        d <= 9,
                ;
                if forall|k: int| 0 <= k < s.len() ==> is_digit(#[trigger] s@[k]) {
                    lemma_digits_value_monotone(s@, i + 1);
                }
            }
            return None;
        }
        value = value * 10 + d;
        i = i + 1;
    }
    assert(s@.take(s.len() as int) == s@);
    Some(value)
}

/// A longer run of digits is worth at least as much as its prefix.
proof fn lemma_digits_value_monotone(s: Seq<char>, k: int)
    requires
        0 <= k <= s.len(),
        forall|i: int| 0 <= i < s.len() ==> is_digit(#[trigger] s[i]),
    ensures
        digits_value(s) >= digits_value(s.take(k)),
    decreases s.len() - k,
{
    if k < s.len() {
        lemma_digits_value_monotone(s, k + 1);
        assert(s.take(k + 1).drop_last() == s.take(k));
    } else {
        assert(s.take(k) == s);
    }
}

/// The position of the first `c` in `s`, if any.
fn find_char(s: &[char], c: char) -> (res: Option<usize>)
    ensures
        match res {
            Some(i) => first_index(s@, c) == Some(i as int) && i < s.len(),
            None => first_index(s@, c) is None,
        },
{
    let mut i: usize = 0;
    assert(s@.skip(0) == s@);
    while i < s.len()
        invariant
            i <= s.len(),
            first_index(s@, c) == match first_index(s@.skip(i as int), c) {
                Some(j) => Some(j + i),
                None => None,
            },
        decreases s.len() - i,
    {
        assert(s@.skip(i as int)[0] == s@[i as int]);
        if s[i] == c {
            return Some(i);
        }
        assert(s@.skip(i as int).drop_first() == s@.skip(i + 1));
        i = i + 1;
    }
    None
}

fn slice_chars(s: &[char], from: usize, to: usize) -> (res: Vec<char>)
    requires
        from <= to <= s.len(),
    ensures
        res@ == s@.subrange(from as int, to as int),
{
    let mut out: Vec<char> = Vec::new();
    let mut i: usize = from;
    while i < to
        invariant
            from <= i <= to <= s.len(),
            out@ == s@.subrange(from as int, i as int),
        decreases to - i,
    {
        out.push(s[i]);
        i = i + 1;
        assert(out@ == s@.subrange(from as int, i as int));
    }
    out
}

/// The range asked for by the `Range` header value `value` for a file of
/// `len` bytes (see [`byte_range`]).
pub fn parse_byte_range(value: &str, len: u64) -> (res: ByteRange)
    ensures
        res == byte_range(value@, len as nat),
{
    let v = trim_chars(chars_of(value).as_slice());
    let prefix = chars_of("bytes=");
    proof {
        reveal_strlit("bytes=");
    }
    if !crate::text::starts_with_chars(v.as_slice(), prefix.as_slice()) {
        return ByteRange::Whole;
    }
    let rest = slice_chars(v.as_slice(), 6, v.len());
    assert(rest@ == v@.skip(6));
    let spec = trim_chars(rest.as_slice());
    let d = match find_char(spec.as_slice(), '-') {
        Some(d) => d,
        None => return ByteRange::Whole,
    };
    let first = trim_chars(slice_chars(spec.as_slice(), 0, d).as_slice());
    let last = trim_chars(slice_chars(spec.as_slice(), d + 1, spec.len()).as_slice());
    assert(spec@.subrange(0, d as int) == spec@.take(d as int));
    assert(spec@.subrange(d + 1, spec@.len() as int) == spec@.skip(d + 1));
    if first.len() == 0 {
        let n = match parse_number(last.as_slice()) {
            Some(n) => n,
            None => return ByteRange::Whole,
        };
        if n == 0 || len == 0 {
            return ByteRange::Unsatisfiable;
        }
        let take = if n < len {
            n
        } else {
            len
        };
        return ByteRange::Part { start: len - take, end: len - 1 };
    }
    let a = match parse_number(first.as_slice()) {
        Some(a) => a,
        None => return ByteRange::Whole,
    };
    if last.len() == 0 {
        if a < len {
            return ByteRange::Part { start: a, end: len - 1 };
        } else {
            return ByteRange::Unsatisfiable;
        }
    }
    let b = match parse_number(last.as_slice()) {
        Some(b) => b,
        None => return ByteRange::Whole,
    };
    if a > b {
        return ByteRange::Whole;
    }
    if a >= len {
        return ByteRange::Unsatisfiable;
    }
    let end = if b < len {
        b
    } else {
        len - 1
    };
    ByteRange::Part { start: a, end }
}

/// Every part that [`byte_range`] picks lies inside the file and is not
/// empty.
pub proof fn lemma_part_within_file(value: Seq<char>, len: nat)
    requires
        len <= u64::MAX,
    ensures
        byte_range(value, len) matches ByteRange::Part { start, end } ==> start <= end && end < len,
{
}

/// The decimal notation of `n` is a number worth `n`.
pub proof fn lemma_decimal_is_number(n: nat)
    requires
        n <= u64::MAX,
    ensures
        is_number(decimal(n)),
        digits_value(decimal(n)) == n,
        is_digit(decimal(n).last()),
    decreases n,
{
    let d = decimal(n);
    let k = (n % 10) as int;
    let c = crate::text::digit_char(k);
    assert((48 + k) as u8 == 48 + k);
    assert(((48 + k) as u8) as char as u32 == 48 + k);
    assert(c as u32 == 48 + k);
    assert(is_digit(c));
    assert(((c as u32) - 48) as nat == k);
    if n < 10 {
        assert(k == n);
        assert(d == seq![c]);
        assert(d.last() == c);
        assert(d.drop_last() == Seq::<char>::empty());
        assert(digits_value(d) == digits_value(d.drop_last()) * 10 + ((d.last() as u32) - 48) as nat);
        assert(digits_value(Seq::<char>::empty()) == 0);
        assert(digits_value(d) == n);
    } else {
        lemma_decimal_is_number(n / 10);
        let h = decimal(n / 10);
        assert(d == h.push(c));
        assert(d.drop_last() == h);
        assert(d.last() == c);
        assert(digits_value(d) == digits_value(h) * 10 + ((d.last() as u32) - 48) as nat);
        assert(digits_value(d) == n);
        assert forall|i: int| 0 <= i < d.len() implies is_digit(#[trigger] d[i]) by {
            if i < h.len() {
                assert(d[i] == h[i]);
            }
        }
    }
}

/// Text with no white space at either end is its own trim.
proof fn lemma_trim_plain(s: Seq<char>)
    requires
        s.len() > 0,
        !crate::text::is_unicode_whitespace(s[0]),
        !crate::text::is_unicode_whitespace(s.last()),
    ensures
        trim(s) == s,
{
    assert(crate::text::trim_start(s) == s);
    assert(crate::text::trim_end(s) == s);
}

/// A character that does not occur in `x` is found in `x + y` where it is
/// found in `y`, shifted by the length of `x`.
proof fn lemma_first_index_after(x: Seq<char>, y: Seq<char>, c: char)
    requires
        !x.contains(c),
    ensures
        first_index(x + y, c) == match first_index(y, c) {
            Some(i) => Some(i + x.len()),
            None => None,
        },
    decreases x.len(),
{
    if x.len() == 0 {
        assert(x + y == y);
    } else {
        assert((x + y)[0] == x[0]);
        assert((x + y).drop_first() == x.drop_first() + y);
        assert(!x.drop_first().contains(c)) by {
            if x.drop_first().contains(c) {
                let k = choose|k: int| 0 <= k < x.drop_first().len() && x.drop_first()[k] == c;
                assert(x[k + 1] == c);
            }
        }
        lemma_first_index_after(x.drop_first(), y, c);
    }
}

/// A request for the bytes `a` to `b` of a file of `len` bytes, written
/// `bytes=a-b` with `a <= b < len`, is answered with exactly that part: a
/// `206` whose `Content-Range` is `bytes a-b/len` and whose body is the
/// `b - a + 1` bytes from offset `a`.
pub proof fn lemma_range_of_part(file_name: Option<Seq<char>>, a: u64, b: u64, len: nat)
    requires
        a <= b < len,
        len <= u64::MAX,
    ensures
        byte_range("bytes="@ + decimal(a as nat) + "-"@ + decimal(b as nat), len) == (ByteRange::Part {
            start: a,
            end: b,
        }),
        file_reply_spec(file_name, len, Some("bytes="@ + decimal(a as nat) + "-"@ + decimal(b as nat)))
            == (partial_head(file_name, a as nat, b as nat, len), a as nat, (b - a + 1) as nat),
        content_range(a as nat, b as nat, len) == "bytes "@ + decimal(a as nat) + "-"@ + decimal(
            b as nat,
        ) + "/"@ + decimal(len),
{
    reveal_strlit("bytes=");
    reveal_strlit("-");
    let da = decimal(a as nat);
    let db = decimal(b as nat);
    lemma_decimal_is_number(a as nat);
    lemma_decimal_is_number(b as nat);
    let spec = da + "-"@ + db;
    let v = "bytes="@ + spec;
    assert("bytes="@ + da + "-"@ + db == v);
    assert(v[0] == 'b');
    assert(v.last() == db.last());
    lemma_trim_plain(v);
    assert(v.take(6) == "bytes="@);
    assert(v.skip(6) == spec);
    assert(spec[0] == da[0]);
    assert(is_digit(da[0]));
    assert(spec.last() == db.last());
    lemma_trim_plain(spec);
    assert(!da.contains('-')) by {
        if da.contains('-') {
            let k = choose|k: int| 0 <= k < da.len() && da[k] == '-';
            assert(is_digit(da[k]));
        }
    }
    assert(spec == da + ("-"@ + db));
    lemma_first_index_after(da, "-"@ + db, '-');
    assert(("-"@ + db)[0] == '-');
    assert(first_index("-"@ + db, '-') == Some(0int));
    assert(spec.take(da.len() as int) == da);
    assert(spec.skip(da.len() as int + 1) == db);
    assert(da[0] == da[0]);
    assert(is_digit(da.last()));
    lemma_trim_plain(da);
    assert(is_digit(db[0]));
    lemma_trim_plain(db);
}

// ---------------------------------------------------------------------------
// The `Range` header field
// ---------------------------------------------------------------------------
/// The value of `line` when it is a `Range` header field (its name is
/// matched without regard to ASCII case; name and value are trimmed).
pub open spec fn range_field_value(line: Seq<char>) -> Option<Seq<char>> {
    match first_index(line, ':') {
        Some(i) => if ascii_lowercase(trim(line.take(i))) == "range"@ {
            Some(trim(line.skip(i + 1)))
        } else {
            None
        },
        None => None,
    }
}

/// The value of the first `Range` field among the header lines `lines`.
pub open spec fn range_field(lines: Seq<Seq<char>>) -> Option<Seq<char>>
    decreases lines.len(),
{
    if lines.len() == 0 {
        None
    } else {
        match range_field_value(lines[0]) {
            Some(v) => Some(v),
            None => range_field(lines.drop_first()),
        }
    }
}

/// The value of `line` if it is a `Range` header field.
pub fn range_field_of(line: &str) -> (res: Option<String>)
    ensures
        match res {
            Some(v) => range_field_value(line@) == Some(v@),
            None => range_field_value(line@) is None,
        },
{
    let cs = chars_of(line);
    let colon = match find_char(cs.as_slice(), ':') {
        Some(i) => i,
        None => return None,
    };
    let name = trim_chars(slice_chars(cs.as_slice(), 0, colon).as_slice());
    assert(cs@.subrange(0, colon as int) == cs@.take(colon as int));
    let name_text = string_from_chars(name.as_slice());
    let lowered = chars_of(to_ascii_lowercase(name_text.as_str()).as_str());
    let expected = chars_of("range");
    if !chars_equal(lowered.as_slice(), expected.as_slice()) {
        return None;
    }
    let value = trim_chars(slice_chars(cs.as_slice(), colon + 1, cs.len()).as_slice());
    assert(cs@.subrange(colon + 1, cs@.len() as int) == cs@.skip(colon + 1));
    Some(string_from_chars(value.as_slice()))
}

/// The value of the first `Range` field among the request's header lines.
pub fn range_header_value(lines: &Vec<String>) -> (res: Option<String>)
    ensures
        match res {
            Some(v) => range_field(strings_view(lines@)) == Some(v@),
            None => range_field(strings_view(lines@)) is None,
        },
{
    let ghost all = strings_view(lines@);
    let mut i: usize = 0;
    assert(all.skip(0) == all);
    while i < lines.len()
        invariant
            i <= lines.len(),
            all == strings_view(lines@),
            range_field(all) == range_field(all.skip(i as int)),
        decreases lines.len() - i,
    {
        assert(all.skip(i as int)[0] == lines@[i as int]@);
        match range_field_of(lines[i].as_str()) {
            Some(v) => {
                return Some(v);
            },
            None => {},
        }
        assert(all.skip(i as int).drop_first() == all.skip(i + 1));
        i = i + 1;
    }
    None
}

// ---------------------------------------------------------------------------
// Replies to a file download
// ---------------------------------------------------------------------------
/// The `Content-Range` value of the part `start..=end` of a file of `total`
/// bytes.
pub open spec fn content_range(start: nat, end: nat, total: nat) -> Seq<char> {
    "bytes "@ + decimal(start) + "-"@ + decimal(end) + "/"@ + decimal(total)
}

/// The head of a `206` reply that sends the bytes `start..=end` of a file of
/// `total` bytes.
pub open spec fn partial_head(file_name: Option<Seq<char>>, start: nat, end: nat, total: nat) -> Seq<char> {
    head_text(
        "206 Partial Content"@,
        seq![
            ("Content-Type"@, content_type(file_name)),
            ("Content-Length"@, decimal((end - start + 1) as nat)),
            ("Content-Range"@, content_range(start, end, total)),
            ("Content-Disposition"@, content_disposition(download_name(file_name))),
            ("Cache-Control"@, "no-store"@),
        ],
    )
}

/// The head of the `416` reply to a range that lies outside a file of
/// `total` bytes.
pub open spec fn unsatisfiable_head(total: nat) -> Seq<char> {
    head_text(
        "416 Range Not Satisfiable"@,
        seq![
            ("Content-Range"@, "bytes */"@ + decimal(total)),
            ("Content-Length"@, "0"@),
            ("Cache-Control"@, "no-store"@),
        ],
    )
}

/// What to send in reply to a download of a file: the head, then `length`
/// bytes of the file from offset `start`.
pub struct FileReply {
    pub head: String,
    pub start: u64,
    pub length: u64,
}

/// The head, first offset and byte count of the reply to a download of a
/// file of `total` bytes named `file_name`, given the request's `Range`
/// value.
pub open spec fn file_reply_spec(file_name: Option<Seq<char>>, total: nat, range: Option<Seq<char>>) -> (
    Seq<char>,
    nat,
    nat,
) {
    let asked = match range {
        Some(v) => byte_range(v, total),
        None => ByteRange::Whole,
    };
    match asked {
        ByteRange::Whole => (file_head(file_name, total), 0, total),
        ByteRange::Part { start, end } => (
            partial_head(file_name, start as nat, end as nat, total),
            start as nat,
            (end - start + 1) as nat,
        ),
        ByteRange::Unsatisfiable => (unsatisfiable_head(total), 0, 0),
    }
}

/// The head of a `206` reply (see [`partial_head`]).
pub fn partial_file_response_head(file_name: Option<&str>, start: u64, end: u64, total: u64) -> (res: String)
    requires
        start <= end < total,
    ensures
        res@ == partial_head(opt_text(file_name), start as nat, end as nat, total as nat),
{
    let ctype = detect_content_type(file_name);
    let disposition = match file_name {
        Some(n) => build_content_disposition(n),
        None => build_content_disposition("download"),
    };
    let mut range = String::from_str("bytes ");
    push_decimal(&mut range, start);
    range.append("-");
    push_decimal(&mut range, end);
    range.append("/");
    push_decimal(&mut range, total);
    let mut headers: Vec<Header> = Vec::new();
    headers.push(header("Content-Type", ctype));
    headers.push(header("Content-Length", crate::text::decimal_string(end - start + 1)));
    headers.push(header("Content-Range", range));
    headers.push(header("Content-Disposition", disposition));
    headers.push(header("Cache-Control", String::from_str("no-store")));
    let head = build_response_head("206 Partial Content", &headers);
    proof {
        let fname = opt_text(file_name);
        lemma_headers_pairs(
            headers@,
            seq![
                ("Content-Type"@, content_type(fname)),
                ("Content-Length"@, decimal((end - start + 1) as nat)),
                ("Content-Range"@, content_range(start as nat, end as nat, total as nat)),
                ("Content-Disposition"@, content_disposition(download_name(fname))),
                ("Cache-Control"@, "no-store"@),
            ],
        );
    }
    head
}

/// The head of a `416` reply (see [`unsatisfiable_head`]).
pub fn range_not_satisfiable_head(total: u64) -> (res: String)
    ensures
        res@ == unsatisfiable_head(total as nat),
{
    let mut range = String::from_str("bytes */");
    push_decimal(&mut range, total);
    let mut headers: Vec<Header> = Vec::new();
    headers.push(header("Content-Range", range));
    headers.push(header("Content-Length", String::from_str("0")));
    headers.push(header("Cache-Control", String::from_str("no-store")));
    let head = build_response_head("416 Range Not Satisfiable", &headers);
    proof {
        lemma_headers_pairs(
            headers@,
            seq![
                ("Content-Range"@, "bytes */"@ + decimal(total as nat)),
                ("Content-Length"@, "0"@),
                ("Cache-Control"@, "no-store"@),
            ],
        );
    }
    head
}

/// The reply to a download of a file of `total` bytes named `file_name`,
/// given the value of the request's `Range` field, if any.
pub fn file_reply(file_name: Option<&str>, total: u64, range: Option<&str>) -> (res: FileReply)
    ensures
        (res.head@, res.start as nat, res.length as nat) == file_reply_spec(
            opt_text(file_name),
            total as nat,
            opt_text(range),
        ),
{
    let asked = match range {
        Some(v) => parse_byte_range(v, total),
        None => ByteRange::Whole,
    };
    proof {
        match range {
            Some(v) => lemma_part_within_file(v@, total as nat),
            None => {},
        }
    }
    match asked {
        ByteRange::Whole => FileReply { head: file_response_head(file_name, total), start: 0, length: total },
        ByteRange::Part { start, end } => FileReply {
            head: partial_file_response_head(file_name, start, end, total),
            start,
            length: end - start + 1,
        },
        ByteRange::Unsatisfiable => FileReply { head: range_not_satisfiable_head(total), start: 0, length: 0 },
    }
}

} // verus!
