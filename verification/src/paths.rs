//! Turning the part of a request path below the share's base into a safe
//! relative path: percent-decoded segments that can only name entries inside
//! the shared folder. Segments follow Windows path rules, as the shared
//! folder lives on a Windows file system.
use vstd::prelude::*;

use crate::http::{lemma_percent_encoded_ascii, lemma_percent_roundtrip, percent_decode, percent_decoded, percent_encoded};
use vstd::utf8::encode_utf8;
use crate::text::{push_char, string_from_chars};

verus! {

/// `c` is an ASCII letter.
pub open spec fn is_ascii_letter(c: char) -> bool {
    ('a' <= c && c <= 'z') || ('A' <= c && c <= 'Z')
}

/// The text starts with a drive prefix such as `C:`.
pub open spec fn has_drive_prefix(d: Seq<char>) -> bool {
    d.len() >= 2 && d[1] == ':' && is_ascii_letter(d[0])
}

/// The text starts with a `.` component (`.` alone or `./...`).
pub open spec fn has_leading_cur_dir(d: Seq<char>) -> bool {
    d.len() >= 1 && d[0] == '.' && (d.len() == 1 || d[1] == '/')
}

/// Some `/`-separated part of the text is `..`.
pub open spec fn has_parent_part(d: Seq<char>) -> bool {
    exists|i: int|
        0 <= i && i + 2 <= d.len() && #[trigger] d[i] == '.' && d[i + 1] == '.' && (i == 0 || d[i - 1]
            == '/') && (i + 2 == d.len() || d[i + 2] == '/')
}

/// Every path component of the decoded text is a plain name: no root, no
/// drive prefix, no `.` at the start, no `..` anywhere.
pub open spec fn components_are_normal(d: Seq<char>) -> bool {
    &&& !(d.len() > 0 && d[0] == '/')
    &&& !has_drive_prefix(d)
    &&& !has_leading_cur_dir(d)
    &&& !has_parent_part(d)
}

/// A decoded segment that may be added to the relative path.
pub open spec fn segment_allowed(d: Seq<char>) -> bool {
    !d.contains('\\') && !d.contains('\0') && components_are_normal(d)
}

/// The decoded form of a non-empty raw segment, if it is allowed.
pub open spec fn accepted_segment(raw: Seq<char>) -> Option<Seq<char>> {
    match percent_decoded(raw) {
        Some(d) => if segment_allowed(d) {
            Some(d)
        } else {
            None
        },
        None => None,
    }
}

/// `p` followed by the segments of `rest`, if there is a rest.
pub open spec fn prepend_segments(p: Seq<Seq<char>>, rest: Option<Seq<Seq<char>>>) -> Option<Seq<Seq<char>>> {
    match rest {
        Some(r) => Some(p + r),
        None => None,
    }
}

/// Ends the raw segment `seg`: empty segments are skipped, others must be
/// accepted.
pub open spec fn finish_segment(seg: Seq<char>, rest: Option<Seq<Seq<char>>>) -> Option<Seq<Seq<char>>> {
    if seg.len() == 0 {
        rest
    } else {
        match accepted_segment(seg) {
            Some(d) => prepend_segments(seq![d], rest),
            None => None,
        }
    }
}

/// Normalization of `s`, given that the raw segment `cur` precedes it.
pub open spec fn normalize_from(s: Seq<char>, cur: Seq<char>) -> Option<Seq<Seq<char>>>
    decreases s.len(),
{
    if s.len() == 0 {
        finish_segment(cur, Some(Seq::empty()))
    } else if s[0] == '/' {
        finish_segment(cur, normalize_from(s.drop_first(), Seq::empty()))
    } else {
        normalize_from(s.drop_first(), cur.push(s[0]))
    }
}

/// The relative path named by `input`: its `/`-separated non-empty segments,
/// each percent-decoded and allowed; `None` if any segment is not.
pub open spec fn normalized_path(input: Seq<char>) -> Option<Seq<Seq<char>>> {
    normalize_from(input, Seq::empty())
}

/// The text of a list of strings.
pub open spec fn strings_view(v: Seq<String>) -> Seq<Seq<char>> {
    v.map_values(|s: String| s@)
}

/// The segments joined into one relative path, a `/` between two segments
/// unless the first already ends in one.
pub open spec fn join_relative(segs: Seq<Seq<char>>) -> Seq<char>
    decreases segs.len(),
{
    if segs.len() == 0 {
        Seq::empty()
    } else {
        let acc = join_relative(segs.drop_last());
        if acc.len() == 0 {
            segs.last()
        } else if acc.last() == '/' {
            acc + segs.last()
        } else {
            acc + seq!['/'] + segs.last()
        }
    }
}

fn contains_char(d: &[char], c: char) -> (res: bool)
    ensures
        res == d@.contains(c),
{
    let mut i: usize = 0;
    while i < d.len()
        invariant
            i <= d.len(),
            forall|k: int| 0 <= k < i ==> d@[k] != c,
        decreases d.len() - i,
    {
        if d[i] == c {
            return true;
        }
        i = i + 1;
    }
    false
}

fn parent_part_at(d: &[char], i: usize) -> (res: bool)
    requires
        i + 2 <= d.len(),
    ensures
        res == (d@[i as int] == '.' && d@[i + 1] == '.' && (i == 0 || d@[i - 1] == '/') && (i + 2
            == d.len() || d@[i + 2] == '/')),
{
    d[i] == '.' && d[i + 1] == '.' && (i == 0 || d[i - 1] == '/') && (i + 2 == d.len() || d[i + 2]
        == '/')
}

/// Whether a decoded segment may be added to the relative path.
pub fn is_allowed_segment(d: &[char]) -> (res: bool)
    ensures
        res == segment_allowed(d@),
{
    if contains_char(d, '\\') || contains_char(d, '\0') {
        return false;
    }
    if d.len() > 0 && d[0] == '/' {
        return false;
    }
    if d.len() >= 2 && d[1] == ':' && (('a' <= d[0] && d[0] <= 'z') || ('A' <= d[0] && d[0]
        <= 'Z')) {
        return false;
    }
    if d.len() >= 1 && d[0] == '.' && (d.len() == 1 || d[1] == '/') {
        return false;
    }
    if d.len() < 2 {
        assert(!has_parent_part(d@));
        return true;
    }
    let mut i: usize = 0;
    while i <= d.len() - 2
        invariant
            d.len() >= 2,
            i <= d.len() - 1,
            forall|k: int|
                0 <= k < i ==> !(#[trigger] d@[k] == '.' && d@[k + 1] == '.' && (k == 0 || d@[k - 1]
                    == '/') && (k + 2 == d.len() || d@[k + 2] == '/')),
        decreases d.len() - i,
    {
        if parent_part_at(d, i) {
            return false;
        }
        i = i + 1;
    }
    true
}

/// The relative path named by the part of a request path below the share's
/// base (`None` when a segment is malformed or would leave the folder).
pub fn normalize_relative_path(input: &str) -> (res: Option<Vec<String>>)
    ensures
        res matches Some(v) ==> normalized_path(input@) == Some(strings_view(v@)),
        res is None ==> normalized_path(input@) is None,
{
    let cs = crate::text::chars_of(input);
    let ghost s = cs@;
    let mut result: Vec<String> = Vec::new();
    let mut cur: Vec<char> = Vec::new();
    let mut i: usize = 0;
    assert(s.skip(0) == s);
    while i < cs.len()
        invariant
            s == cs@,
            s == input@,
            i <= cs.len(),
            normalized_path(s) == prepend_segments(
                strings_view(result@),
                normalize_from(s.skip(i as int), cur@),
            ),
        decreases cs.len() - i,
    {
        let c = cs[i];
        assert(s.skip(i as int)[0] == c);
        assert(s.skip(i as int).drop_first() == s.skip(i + 1));
        if c == '/' {
            if cur.len() > 0 {
                let raw = string_from_chars(cur.as_slice());
                match accept_segment(raw.as_str()) {
                    Some(d) => {
                        let ghost before = strings_view(result@);
                        result.push(d);
                        assert(strings_view(result@) == before + seq![d@]);
                    },
                    None => {
                        return None;
                    },
                }
            }
            cur = Vec::new();
        } else {
            cur.push(c);
        }
        i = i + 1;
    }
    assert(s.skip(i as int).len() == 0);
    if cur.len() > 0 {
        let raw = string_from_chars(cur.as_slice());
        match accept_segment(raw.as_str()) {
            Some(d) => {
                let ghost before = strings_view(result@);
                result.push(d);
                assert(strings_view(result@) == before + seq![d@]);
            },
            None => {
                return None;
            },
        }
    }
    assert(strings_view(result@) + Seq::<Seq<char>>::empty() == strings_view(result@));
    Some(result)
}

/// The decoded form of one raw segment, if it is allowed.
fn accept_segment(raw: &str) -> (res: Option<String>)
    ensures
        res matches Some(d) ==> accepted_segment(raw@) == Some(d@),
        res is None ==> accepted_segment(raw@) is None,
{
    match percent_decode(raw) {
        Some(d) => {
            let dc = crate::text::chars_of(d.as_str());
            if is_allowed_segment(dc.as_slice()) {
                Some(d)
            } else {
                None
            }
        },
        None => None,
    }
}

/// The relative path text of `segs` (see [`join_relative`]).
pub fn relative_path_text(segs: &Vec<String>) -> (res: String)
    ensures
        res@ == join_relative(strings_view(segs@)),
{
    let mut out = String::new();
    let mut i: usize = 0;
    while i < segs.len()
        invariant
            i <= segs.len(),
            out@ == join_relative(strings_view(segs@.take(i as int))),
        decreases segs.len() - i,
    {
        let ghost prev = strings_view(segs@.take(i as int));
        proof {
            assert(strings_view(segs@.take(i + 1)).drop_last() == prev);
            assert(strings_view(segs@.take(i + 1)).last() == segs@[i as int]@);
        }
        if out.as_str().is_empty() {
            out.append(segs[i].as_str());
        } else {
            let oc = crate::text::chars_of(out.as_str());
            if oc[oc.len() - 1] == '/' {
                out.append(segs[i].as_str());
            } else {
                push_char(&mut out, '/');
                out.append(segs[i].as_str());
            }
        }
        i = i + 1;
    }
    assert(segs@.take(segs.len() as int) == segs@);
    out
}

/// Normalizing text without `/` after the raw segment `cur` ends that
/// segment with the whole text.
proof fn lemma_normalize_no_slash(s: Seq<char>, cur: Seq<char>)
    requires
        !s.contains('/'),
    ensures
        normalize_from(s, cur) == finish_segment(cur + s, Some(Seq::empty())),
    decreases s.len(),
{
    if s.len() == 0 {
        assert(cur + s == cur);
    } else {
        assert(s[0] != '/');
        assert(!s.drop_first().contains('/')) by {
            if s.drop_first().contains('/') {
                let i = choose|i: int| 0 <= i < s.drop_first().len() && s.drop_first()[i] == '/';
                assert(s[i + 1] == '/');
            }
        }
        lemma_normalize_no_slash(s.drop_first(), cur.push(s[0]));
        assert(cur.push(s[0]) + s.drop_first() == cur + s);
    }
}

/// A listing's link to an entry leads back to it: the percent-encoded name
/// (with the trailing `/` of a folder) normalizes to exactly that name, for
/// every name that the share can serve.
pub proof fn lemma_entry_link_resolves(name: Seq<char>, is_dir: bool)
    requires
        name.len() > 0,
        segment_allowed(name),
    ensures
        normalized_path(percent_encoded(name) + if is_dir {
            seq!['/']
        } else {
            Seq::empty()
        }) == Some(seq![name]),
{
    let b = encode_utf8(name);
    let enc = percent_encoded(name);
    lemma_percent_encoded_ascii(b);
    lemma_percent_roundtrip(name);
    assert(b.len() > 0) by {
        vstd::utf8::encode_utf8_decode_utf8(name);
        if b.len() == 0 {
            assert(b == Seq::<u8>::empty());
        }
    }
    assert(!enc.contains('/'));
    assert(accepted_segment(enc) == Some(name));
    if is_dir {
        let s = enc + seq!['/'];
        let cur = Seq::<char>::empty();
        assert(s.drop_first() == enc.drop_first() + seq!['/']) by {
            assert(enc.len() > 0);
        }
        lemma_normalize_slash_end(enc, cur);
    } else {
        lemma_normalize_no_slash(enc, Seq::empty());
        assert(Seq::<char>::empty() + enc == enc);
        assert(enc + Seq::<char>::empty() == enc);
    }
}

proof fn lemma_normalize_slash_end(s: Seq<char>, cur: Seq<char>)
    requires
        !s.contains('/'),
    ensures
        normalize_from(s + seq!['/'], cur) == finish_segment(cur + s, Some(Seq::empty())),
    decreases s.len(),
{
    if s.len() == 0 {
        assert(s + seq!['/'] == seq!['/']);
        assert(seq!['/'].drop_first() == Seq::<char>::empty());
        assert(seq!['/'][0] == '/');
        assert(normalize_from(Seq::<char>::empty(), Seq::<char>::empty()) == Some(
            Seq::<Seq<char>>::empty(),
        ));
        assert(cur + s == cur);
    } else {
        assert(!s.drop_first().contains('/')) by {
            if s.drop_first().contains('/') {
                let i = choose|i: int| 0 <= i < s.drop_first().len() && s.drop_first()[i] == '/';
                assert(s[i + 1] == '/');
            }
        }
        assert((s + seq!['/'])[0] == s[0]);
        assert((s + seq!['/']).drop_first() == s.drop_first() + seq!['/']);
        lemma_normalize_slash_end(s.drop_first(), cur.push(s[0]));
        assert(cur.push(s[0]) + s.drop_first() == cur + s);
    }
}

/// The `/`-separated pieces of `s`, the first of them prefixed by `cur`
/// (what `str::split('/')` gives, empty pieces included).
pub open spec fn split_pieces(s: Seq<char>, cur: Seq<char>) -> Seq<Seq<char>>
    decreases s.len(),
{
    if s.len() == 0 {
        seq![cur]
    } else if s[0] == '/' {
        seq![cur] + split_pieces(s.drop_first(), Seq::empty())
    } else {
        split_pieces(s.drop_first(), cur.push(s[0]))
    }
}

/// The pieces joined again with `/` between them.
pub open spec fn join_pieces(pieces: Seq<Seq<char>>) -> Seq<char>
    decreases pieces.len(),
{
    if pieces.len() <= 1 {
        if pieces.len() == 0 {
            Seq::empty()
        } else {
            pieces[0]
        }
    } else {
        pieces[0] + seq!['/'] + join_pieces(pieces.drop_first())
    }
}

/// Every non-empty piece is accepted (decodes, and the decoded text is an
/// allowed segment).
pub open spec fn all_accepted(pieces: Seq<Seq<char>>) -> bool {
    forall|i: int| 0 <= i < pieces.len() && pieces[i].len() > 0 ==> (#[trigger] accepted_segment(pieces[i])) is Some
}

/// The decoded forms of the non-empty pieces, in order.
pub open spec fn decoded_pieces(pieces: Seq<Seq<char>>) -> Seq<Seq<char>>
    decreases pieces.len(),
{
    if pieces.len() == 0 {
        Seq::empty()
    } else {
        let rest = decoded_pieces(pieces.drop_first());
        if pieces[0].len() == 0 {
            rest
        } else {
            match percent_decoded(pieces[0]) {
                Some(d) => seq![d] + rest,
                None => rest,
            }
        }
    }
}

proof fn lemma_split_pieces(s: Seq<char>, cur: Seq<char>)
    requires
        !cur.contains('/'),
    ensures
        split_pieces(s, cur).len() > 0,
        forall|i: int| 0 <= i < split_pieces(s, cur).len() ==> !(#[trigger] split_pieces(s, cur)[i]).contains('/'),
        join_pieces(split_pieces(s, cur)) == cur + s,
        normalize_from(s, cur) == if all_accepted(split_pieces(s, cur)) {
            Some(decoded_pieces(split_pieces(s, cur)))
        } else {
            None::<Seq<Seq<char>>>
        },
    decreases s.len(),
{
    let ps = split_pieces(s, cur);
    if s.len() == 0 {
        assert(ps == seq![cur]);
        assert(cur + s == cur);
        assert(ps.drop_first() == Seq::<Seq<char>>::empty());
        assert(ps[0] == cur);
        assert(decoded_pieces(ps.drop_first()) == Seq::<Seq<char>>::empty());
        if cur.len() > 0 {
            if accepted_segment(cur) is None {
                assert(!all_accepted(ps)) by {
                    assert(ps[0] == cur);
                }
            } else {
                let d = accepted_segment(cur)->0;
                assert(percent_decoded(cur) == Some(d));
                assert(decoded_pieces(ps) == seq![d] + Seq::<Seq<char>>::empty());
                assert(all_accepted(ps));
            }
        } else {
            assert(decoded_pieces(ps) == Seq::<Seq<char>>::empty());
            assert(all_accepted(ps));
        }
    } else if s[0] == '/' {
        let rest = s.drop_first();
        lemma_split_pieces(rest, Seq::empty());
        let rs = split_pieces(rest, Seq::empty());
        assert(ps == seq![cur] + rs);
        assert(ps.drop_first() == rs);
        assert(ps[0] == cur);
        assert forall|i: int| 0 <= i < ps.len() implies !(#[trigger] ps[i]).contains('/') by {
            if i > 0 {
                assert(ps[i] == rs[i - 1]);
            }
        }
        assert(Seq::<char>::empty() + rest == rest);
        assert(cur + s == cur + seq!['/'] + rest) by {
            assert(s == seq!['/'] + rest);
        }
        if cur.len() > 0 {
            match accepted_segment(cur) {
                Some(d) => {
                    assert(percent_decoded(cur) == Some(d));
                    assert(decoded_pieces(ps) == seq![d] + decoded_pieces(rs));
                },
                None => {},
            }
        } else {
            assert(decoded_pieces(ps) == decoded_pieces(rs));
        }
        assert(all_accepted(ps) <==> ((cur.len() > 0 ==> accepted_segment(cur) is Some) && all_accepted(rs))) by {
            if all_accepted(ps) {
                assert forall|i: int| 0 <= i < rs.len() && rs[i].len() > 0 implies (#[trigger] accepted_segment(rs[i])) is Some by {
                    assert(ps[i + 1] == rs[i]);
                }
            }
            if (cur.len() > 0 ==> accepted_segment(cur) is Some) && all_accepted(rs) {
                assert forall|i: int| 0 <= i < ps.len() && ps[i].len() > 0 implies (#[trigger] accepted_segment(ps[i])) is Some by {
                    if i > 0 {
                        assert(ps[i] == rs[i - 1]);
                    }
                }
            }
        }
    } else {
        assert(!cur.push(s[0]).contains('/')) by {
            if cur.push(s[0]).contains('/') {
                let k = choose|k: int| 0 <= k < cur.push(s[0]).len() && cur.push(s[0])[k] == '/';
                if k < cur.len() {
                    assert(cur[k] == '/');
                }
            }
        }
        lemma_split_pieces(s.drop_first(), cur.push(s[0]));
        assert(cur.push(s[0]) + s.drop_first() == cur + s);
    }
}

/// Normalization by pieces: the input split at every `/` (empty pieces
/// included, as `str::split('/')` gives them) joins back to the input; the
/// result is `Some` exactly when every non-empty piece decodes to an allowed
/// segment, and then it is the decoded non-empty pieces in order.
pub proof fn lemma_normalized_path_by_pieces(input: Seq<char>)
    ensures
        forall|i: int| 0 <= i < split_pieces(input, Seq::empty()).len() ==> !(#[trigger] split_pieces(input, Seq::empty())[i]).contains('/'),
        join_pieces(split_pieces(input, Seq::empty())) == input,
        normalized_path(input) == if all_accepted(split_pieces(input, Seq::empty())) {
            Some(decoded_pieces(split_pieces(input, Seq::empty())))
        } else {
            None::<Seq<Seq<char>>>
        },
{
    lemma_split_pieces(input, Seq::empty());
    assert(Seq::<char>::empty() + input == input);
}

/// Which decoded segments (without `/`) may be added to the relative path,
/// told by what they are: a non-empty name is refused exactly when it holds
/// a backslash or NUL, is `.` or `..`, or starts with a drive prefix (an ASCII
/// letter and `:`); any other name, such as `Wait... what.mp3` or `a..b`, is
/// one plain component and is accepted.
pub proof fn lemma_segment_rules(d: Seq<char>)
    requires
        d.len() > 0,
        !d.contains('/'),
    ensures
        segment_allowed(d) <==> !(d.contains('\\') || d.contains('\0') || d == "."@ || d == ".."@ || (
        d.len() >= 2 && d[1] == ':' && (('a' <= d[0] && d[0] <= 'z') || ('A' <= d[0] && d[0] <= 'Z')))),
{
    reveal_strlit(".");
    reveal_strlit("..");
    if has_leading_cur_dir(d) {
        assert(d.len() == 1 || d[1] == '/');
        if d.len() > 1 {
            assert(d.contains('/'));
        }
        assert(d =~= "."@);
    }
    if d == "."@ {
        assert(has_leading_cur_dir(d));
    }
    if has_parent_part(d) {
        let i = choose|i: int|
            0 <= i && i + 2 <= d.len() && #[trigger] d[i] == '.' && d[i + 1] == '.' && (i == 0 || d[i - 1]
                == '/') && (i + 2 == d.len() || d[i + 2] == '/');
        if i > 0 {
            assert(d.contains('/'));
        }
        if i + 2 < d.len() {
            assert(d.contains('/'));
        }
        assert(d =~= ".."@);
    }
    if d == ".."@ {
        assert(d[0] == '.' && d[1] == '.');
        assert(has_parent_part(d));
    }
    if d.len() > 0 && d[0] == '/' {
        assert(d.contains('/'));
    }
}

/// A request path that is one raw segment (no `/`) names that one entry
/// when it decodes to a name the rules accept (see [`lemma_segment_rules`]):
/// `Wait...%20what.mp3` names `Wait... what.mp3`.
pub proof fn lemma_single_segment_path(raw: Seq<char>, d: Seq<char>)
    requires
        raw.len() > 0,
        !raw.contains('/'),
        percent_decoded(raw) == Some(d),
        d.len() > 0,
        !d.contains('/'),
        !(d.contains('\\') || d.contains('\0') || d == "."@ || d == ".."@ || (d.len() >= 2 && d[1] == ':' && (('a'
            <= d[0] && d[0] <= 'z') || ('A' <= d[0] && d[0] <= 'Z')))),
    ensures
        normalized_path(raw) == Some(seq![d]),
{
    lemma_segment_rules(d);
    lemma_normalize_no_slash(raw, Seq::empty());
    assert(Seq::<char>::empty() + raw == raw);
    assert(seq![d] + Seq::<Seq<char>>::empty() == seq![d]);
}

/// Every segment of a normalized path is allowed: no segment can name the
/// root, a drive, the parent folder, or contain `\\` or NUL.
pub proof fn lemma_normalized_segments_allowed(input: Seq<char>)
    ensures
        normalized_path(input) matches Some(segs) ==> forall|i: int|
            0 <= i < segs.len() ==> segment_allowed(#[trigger] segs[i]) && segs[i].len() > 0,
{
    lemma_normalize_from_allowed(input, Seq::empty());
}

proof fn lemma_normalize_from_allowed(s: Seq<char>, cur: Seq<char>)
    ensures
        normalize_from(s, cur) matches Some(segs) ==> forall|i: int|
            0 <= i < segs.len() ==> segment_allowed(#[trigger] segs[i]) && segs[i].len() > 0,
    decreases s.len(),
{
    if s.len() == 0 {
        lemma_finish_allowed(cur, Some(Seq::empty()));
    } else if s[0] == '/' {
        lemma_normalize_from_allowed(s.drop_first(), Seq::empty());
        lemma_finish_allowed(cur, normalize_from(s.drop_first(), Seq::empty()));
    } else {
        lemma_normalize_from_allowed(s.drop_first(), cur.push(s[0]));
    }
}

proof fn lemma_finish_allowed(seg: Seq<char>, rest: Option<Seq<Seq<char>>>)
    requires
        rest matches Some(r) ==> forall|i: int|
            0 <= i < r.len() ==> segment_allowed(#[trigger] r[i]) && r[i].len() > 0,
    ensures
        finish_segment(seg, rest) matches Some(segs) ==> forall|i: int|
            0 <= i < segs.len() ==> segment_allowed(#[trigger] segs[i]) && segs[i].len() > 0,
{
    if seg.len() > 0 {
        if let Some(d) = accepted_segment(seg) {
            if let Some(r) = rest {
                let segs = seq![d] + r;
                assert forall|i: int| 0 <= i < segs.len() implies segment_allowed(#[trigger] segs[i])
                    && segs[i].len() > 0 by {
                    if i == 0 {
                        lemma_decoded_nonempty(seg);
                    } else {
                        assert(segs[i] == r[i - 1]);
                    }
                }
            }
        }
    }
}

proof fn lemma_decoded_nonempty(seg: Seq<char>)
    requires
        seg.len() > 0,
    ensures
        accepted_segment(seg) matches Some(d) ==> d.len() > 0,
{
    let b = encode_utf8(seg);
    vstd::utf8::encode_utf8_decode_utf8(seg);
    if b.len() == 0 {
        assert(b == Seq::<u8>::empty());
        assert(vstd::utf8::decode_utf8(b) == Seq::<char>::empty());
    }
    if let Some(raw) = crate::http::percent_decoded_bytes(b) {
        crate::http::lemma_decoded_bytes_nonempty(b);
        if vstd::utf8::valid_utf8(raw) {
            vstd::utf8::decode_utf8_encode_utf8(raw);
            if vstd::utf8::decode_utf8(raw).len() == 0 {
                assert(vstd::utf8::decode_utf8(raw) == Seq::<char>::empty());
                assert(encode_utf8(Seq::<char>::empty()) == Seq::<u8>::empty());
            }
        }
    }
}

} // verus!
