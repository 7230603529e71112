//! The directory page of a shared folder: folders first, then files, each
//! group by case-insensitive name, each entry a link with a short note.
use vstd::prelude::*;

use crate::http::{
    encode_byte, hex_upper, html_escaped, percent_encoded, percent_encoded_bytes, push_html_escaped,
    push_percent_encoded,
};
use crate::paths::{join_relative, relative_path_text, strings_view};
use crate::sorting::{key_before, keys_view, stable_order, stable_sorted_positions, SortKey};
use crate::text::{chars_of, decimal, push_decimal, to_lowercase, unicode_lowercase};

verus! {

/// One entry of a listed folder; `size` is the file length when it could be
/// read.
pub struct DirectoryEntry {
    pub name: String,
    pub is_dir: bool,
    pub size: Option<u64>,
}

/// The order key of an entry: folders before files, then the lower-cased name.
pub open spec fn entry_key(e: DirectoryEntry) -> (int, Seq<char>) {
    (if e.is_dir {
        0int
    } else {
        1int
    }, unicode_lowercase(e.name@))
}

/// The entries in the order the page lists them: by [`entry_key`], entries
/// with equal keys in their given order.
pub open spec fn sorted_entries(es: Seq<DirectoryEntry>) -> Seq<DirectoryEntry> {
    let order = stable_order(es.map_values(|e: DirectoryEntry| entry_key(e)));
    Seq::new(order.len(), |i: int| es[order[i]])
}

/// The listing shows every entry exactly once, folders before files, each
/// group in code point order of the lower-cased names, and entries whose
/// lower-cased names are equal in the order they were read.
pub proof fn lemma_listing_order(es: Seq<DirectoryEntry>)
    ensures
        ({
            let keys = es.map_values(|e: DirectoryEntry| entry_key(e));
            let order = stable_order(keys);
            &&& crate::sorting::is_permutation_of_range(order, es.len())
            &&& sorted_entries(es).len() == es.len()
            &&& forall|i: int| 0 <= i < es.len() ==> #[trigger] sorted_entries(es)[i] == es[order[i]]
        }),
        forall|a: int, b: int|
            0 <= a < b < es.len() && (#[trigger] sorted_entries(es)[a]).is_dir == false ==> (
            #[trigger] sorted_entries(es)[b]).is_dir == false,
        forall|a: int, b: int|
            0 <= a < b < es.len() && (#[trigger] sorted_entries(es)[a]).is_dir == (
            #[trigger] sorted_entries(es)[b]).is_dir ==> !crate::text::chars_lt(
                unicode_lowercase(sorted_entries(es)[b].name@),
                unicode_lowercase(sorted_entries(es)[a].name@),
            ),
        ({
            let order = stable_order(es.map_values(|e: DirectoryEntry| entry_key(e)));
            forall|a: int, b: int|
                0 <= a < b < es.len() && #[trigger] entry_key(sorted_entries(es)[a]) == #[trigger] entry_key(
                    sorted_entries(es)[b],
                ) ==> order[a] < order[b]
        }),
{
    let keys = es.map_values(|e: DirectoryEntry| entry_key(e));
    crate::sorting::lemma_stable_order(keys);
    let order = stable_order(keys);
    let sorted = sorted_entries(es);
    assert forall|a: int, b: int|
        0 <= a < b < es.len() && (#[trigger] sorted[a]).is_dir == false implies (
        #[trigger] sorted[b]).is_dir == false by {
        assert(keys[order[a]] == entry_key(sorted[a]));
        assert(keys[order[b]] == entry_key(sorted[b]));
    }
    assert forall|a: int, b: int|
        0 <= a < b < es.len() && (#[trigger] sorted[a]).is_dir == (#[trigger] sorted[b]).is_dir implies !crate::text::chars_lt(
            unicode_lowercase(sorted[b].name@),
            unicode_lowercase(sorted[a].name@),
        ) by {
        assert(keys[order[a]] == entry_key(sorted[a]));
        assert(keys[order[b]] == entry_key(sorted[b]));
    }
    assert forall|a: int, b: int|
        0 <= a < b < es.len() && #[trigger] entry_key(sorted[a]) == #[trigger] entry_key(sorted[b]) implies order[a]
            < order[b] by {
        assert(keys[order[a]] == entry_key(sorted[a]));
        assert(keys[order[b]] == entry_key(sorted[b]));
    }
}

/// The page's heading text: `/`, or `/` and the relative path.
pub open spec fn listing_title(segs: Seq<Seq<char>>) -> Seq<char> {
    if segs.len() == 0 {
        "/"@
    } else {
        "/"@ + join_relative(segs)
    }
}

/// The note under an entry's name.
pub open spec fn size_note(e: DirectoryEntry) -> Seq<char> {
    if e.is_dir {
        "目录"@
    } else {
        match e.size {
            Some(n) => "文件 · "@ + decimal(n as nat) + " 字节"@,
            None => "文件"@,
        }
    }
}

/// The HTML of one entry.
pub open spec fn entry_html(e: DirectoryEntry) -> Seq<char> {
    "<li><a href=\""@ + percent_encoded(e.name@) + (if e.is_dir {
        "/"@
    } else {
        Seq::empty()
    }) + "\">"@ + html_escaped(
        if e.is_dir {
            e.name@ + "/"@
        } else {
            e.name@
        },
    ) + "<div class=\"meta\">"@ + html_escaped(size_note(e)) + "</div></a></li>"@
}

/// The HTML of the entries, in the given order.
pub open spec fn entries_html(es: Seq<DirectoryEntry>) -> Seq<char>
    decreases es.len(),
{
    if es.len() == 0 {
        Seq::empty()
    } else {
        entries_html(es.drop_last()) + entry_html(es.last())
    }
}

/// The page up to the first title.
pub const PAGE_START: &'static str = "<!doctype html><html><head><meta charset=\"utf-8\"><meta name=\"viewport\" content=\"width=device-width,initial-scale=1\"><title>";

/// The page between the two titles: the style sheet and the heading's start.
pub const PAGE_STYLE: &'static str = "</title><style>body{font-family:Segoe UI,system-ui,sans-serif;margin:0;background:#f5f7fb;color:#1f2937}main{max-width:880px;margin:0 auto;padding:24px}h1{font-size:22px;margin:0 0 12px}ul{list-style:none;padding:0;margin:16px 0 0}li{background:#fff;border:1px solid #dbe3f0;border-radius:10px;margin:8px 0}a{display:block;padding:14px 16px;color:#0f172a;text-decoration:none;word-break:break-all}a:hover{background:#eef4ff}.meta{color:#64748b;font-size:13px}</style></head><body><main><h1>目录 ";

/// The page between the heading and the list.
pub const PAGE_LIST_START: &'static str = "</h1><div class=\"meta\">LanQR 内置静态分享服务</div><ul>";

/// The link back to the parent folder.
pub const PARENT_LINK: &'static str = "<li><a href=\"../\">..</a></li>";

/// The end of the page.
pub const PAGE_END: &'static str = "</ul></main></body></html>";

/// The whole page for the folder at `segs` listing `es` in the given order.
pub open spec fn listing_html(segs: Seq<Seq<char>>, es: Seq<DirectoryEntry>) -> Seq<char> {
    PAGE_START@ + html_escaped(listing_title(segs)) + PAGE_STYLE@ + html_escaped(listing_title(segs))
        + PAGE_LIST_START@ + (if segs.len() > 0 {
        PARENT_LINK@
    } else {
        Seq::empty()
    }) + entries_html(es) + PAGE_END@
}

/// The heading text of the page for `relative`.
pub fn listing_title_text(relative: &Vec<String>) -> (res: String)
    ensures
        res@ == listing_title(strings_view(relative@)),
{
    if relative.len() == 0 {
        String::from_str("/")
    } else {
        let joined = relative_path_text(relative);
        let mut t = String::from_str("/");
        t.append(joined.as_str());
        t
    }
}

fn push_entry_html(out: &mut String, e: &DirectoryEntry)
    ensures
        final(out)@ == old(out)@ + entry_html(*e),
{
    out.append("<li><a href=\"");
    push_percent_encoded(out, e.name.as_str());
    if e.is_dir {
        out.append("/");
    }
    out.append("\">");
    if e.is_dir {
        let mut label = String::from_str(e.name.as_str());
        label.append("/");
        push_html_escaped(out, label.as_str());
    } else {
        push_html_escaped(out, e.name.as_str());
    }
    out.append("<div class=\"meta\">");
    let note = size_note_text(e);
    push_html_escaped(out, note.as_str());
    out.append("</div></a></li>");
}

fn size_note_text(e: &DirectoryEntry) -> (res: String)
    ensures
        res@ == size_note(*e),
{
    if e.is_dir {
        String::from_str("目录")
    } else {
        match e.size {
            Some(n) => {
                let mut s = String::from_str("文件 · ");
                push_decimal(&mut s, n);
                s.append(" 字节");
                s
            },
            None => String::from_str("文件"),
        }
    }
}

/// The HTML page listing `entries` (already in listing order) of the folder at
/// `relative`.
pub fn build_directory_listing_html(relative: &Vec<String>, entries: &Vec<DirectoryEntry>) -> (res: String)
    ensures
        res@ == listing_html(strings_view(relative@), entries@),
{
    let title = listing_title_text(relative);
    let mut html = String::from_str(PAGE_START);
    push_html_escaped(&mut html, title.as_str());
    html.append(PAGE_STYLE);
    push_html_escaped(&mut html, title.as_str());
    html.append(PAGE_LIST_START);
    if relative.len() > 0 {
        html.append(PARENT_LINK);
    }
    let ghost start = html@;
    let mut i: usize = 0;
    while i < entries.len()
        invariant
            i <= entries.len(),
            html@ == start + entries_html(entries@.take(i as int)),
        decreases entries.len() - i,
    {
        push_entry_html(&mut html, &entries[i]);
        i = i + 1;
        assert(entries@.take(i as int).drop_last() == entries@.take(i - 1));
    }
    assert(entries@.take(entries.len() as int) == entries@);
    html.append(PAGE_END);
    html
}

/// The entries in listing order (see [`sorted_entries`]).
pub fn sort_directory_entries(entries: Vec<DirectoryEntry>) -> (res: Vec<DirectoryEntry>)
    ensures
        res@ == sorted_entries(entries@),
        res@.len() == entries@.len(),
        exists|order: Seq<int>|
            {
                &&& crate::sorting::is_permutation_of_range(order, entries@.len())
                &&& forall|i: int| 0 <= i < res@.len() ==> #[trigger] res@[i] == entries@[order[i]]
                &&& forall|a: int, b: int|
                    0 <= a < b < res@.len() && entry_key(#[trigger] res@[a]) == entry_key(#[trigger] res@[b])
                        ==> order[a] < order[b]
            },
        forall|a: int, b: int|
            0 <= a < b < res@.len() ==> !key_before(entry_key(#[trigger] res@[b]), entry_key(#[trigger] res@[a])),
{
    let mut keys: Vec<SortKey> = Vec::new();
    let mut i: usize = 0;
    while i < entries.len()
        invariant
            i <= entries.len(),
            keys@.len() == i,
            forall|k: int| 0 <= k < i ==> #[trigger] keys@[k]@ == entry_key(entries@[k]),
        decreases entries.len() - i,
    {
        let lowered = to_lowercase(entries[i].name.as_str());
        let rank: i64 = if entries[i].is_dir {
            0
        } else {
            1
        };
        keys.push(SortKey { rank, text: chars_of(lowered.as_str()) });
        i = i + 1;
    }
    let ghost kv = entries@.map_values(|e: DirectoryEntry| entry_key(e));
    assert(keys_view(keys@) == kv);
    let order = stable_sorted_positions(&keys);
    proof {
        crate::sorting::lemma_stable_order(kv);
    }
    let ghost given = entries@;
    let n = entries.len();
    let mut entries = entries;
    // slots[i] holds given[n - 1 - i] until it is taken
    let mut slots: Vec<Option<DirectoryEntry>> = Vec::new();
    while entries.len() > 0
        invariant
            n == given.len(),
            entries@.len() + slots@.len() == n,
            entries@ == given.take(entries@.len() as int),
            forall|x: int| 0 <= x < slots@.len() ==> #[trigger] slots@[x] == Some(given[n - 1 - x]),
        decreases entries@.len(),
    {
        let e = entries.pop().unwrap();
        slots.push(Some(e));
    }
    let ghost so = stable_order(kv);
    let mut out: Vec<DirectoryEntry> = Vec::new();
    let mut k: usize = 0;
    while k < order.len()
        invariant
            n == given.len(),
            k <= order.len(),
            slots@.len() == n,
            order@.len() == so.len(),
            so.len() == n,
            kv == given.map_values(|e: DirectoryEntry| entry_key(e)),
            so == stable_order(kv),
            forall|x: int| 0 <= x < order@.len() ==> order@[x] as int == so[x],
            crate::sorting::is_permutation_of_range(so, n as nat),
            out@.len() == k,
            forall|x: int| 0 <= x < k ==> #[trigger] out@[x] == given[so[x]],
            forall|x: int|
                0 <= x < n ==> #[trigger] slots@[x] == if (exists|y: int|
                    0 <= y < k && so[y] == n - 1 - x) {
                    None
                } else {
                    Some(given[n - 1 - x])
                },
        decreases order.len() - k,
    {
        let idx = order[k];
        assert(0 <= so[k as int] < n);
        let slot = n - 1 - idx;
        proof {
            assert(so[k as int] == idx);
            assert forall|y: int| 0 <= y < k implies so[y] != n - 1 - slot by {
                assert(so[y] != so[k as int]);
            }
            assert(slots@[slot as int] == Some(given[idx as int]));
        }
        let mut taken: Option<DirectoryEntry> = None;
        std::mem::swap(&mut taken, &mut slots[slot]);
        let e = taken.unwrap();
        out.push(e);
        k = k + 1;
        proof {
            assert forall|x: int| 0 <= x < n implies #[trigger] slots@[x] == if (exists|y: int|
                0 <= y < k && so[y] == n - 1 - x) {
                None
            } else {
                Some(given[n - 1 - x])
            } by {
                if x == slot {
                    assert(so[k - 1] == n - 1 - x);
                } else {
                    if exists|y: int| 0 <= y < k && so[y] == n - 1 - x {
                        let y = choose|y: int| 0 <= y < k && so[y] == n - 1 - x;
                        assert(y != k - 1);
                    }
                }
            }
        }
    }
    assert(out@ == sorted_entries(given));
    proof {
        assert forall|a: int, b: int|
            0 <= a < b < out@.len() implies !key_before(entry_key(#[trigger] out@[b]), entry_key(#[trigger] out@[a])) by {
            assert(kv[so[a]] == entry_key(out@[a]));
            assert(kv[so[b]] == entry_key(out@[b]));
        }
        assert forall|a: int, b: int|
            0 <= a < b < out@.len() && entry_key(#[trigger] out@[a]) == entry_key(#[trigger] out@[b]) implies so[a]
            < so[b] by {
            assert(kv[so[a]] == entry_key(out@[a]));
            assert(kv[so[b]] == entry_key(out@[b]));
        }
        assert(crate::sorting::is_permutation_of_range(so, given.len()));
    }
    out
}

// ---------------------------------------------------------------------------
// The items of the page
// ---------------------------------------------------------------------------
/// How many times `<li>` occurs in `s` (the starts of list items).
pub open spec fn li_count(s: Seq<char>) -> nat
    decreases s.len(),
{
    if s.len() < 4 {
        0
    } else {
        (if s.take(4) == "<li>"@ {
            1nat
        } else {
            0nat
        }) + li_count(s.drop_first())
    }
}

/// The page before its list items: the fixed head with the two titles, and
/// the link to the parent folder unless the folder is the shared root.
pub open spec fn page_head(segs: Seq<Seq<char>>) -> Seq<char> {
    PAGE_START@ + html_escaped(listing_title(segs)) + PAGE_STYLE@ + html_escaped(listing_title(segs))
        + PAGE_LIST_START@ + (if segs.len() > 0 {
        PARENT_LINK@
    } else {
        Seq::empty()
    })
}

/// The start of an entry's item, up to its note: the link to the entry
/// (with a `/` for a folder) around its name.
pub open spec fn item_link(e: DirectoryEntry) -> Seq<char> {
    "<li><a href=\""@ + percent_encoded(e.name@) + (if e.is_dir {
        "/"@
    } else {
        Seq::empty()
    }) + "\">"@ + html_escaped(
        if e.is_dir {
            e.name@ + "/"@
        } else {
            e.name@
        },
    ) + "<div class=\"meta\">"@
}

/// A `<li>` could start in `a` and end in `b`.
spec fn may_straddle(a: Seq<char>, b: Seq<char>) -> bool {
    a.len() > 0 && b.len() > 0 && (a.last() == '<' || a.last() == 'l' || a.last() == 'i') && (b[0]
        == 'l' || b[0] == 'i' || b[0] == '>')
}

proof fn lemma_li_count_none(s: Seq<char>)
    requires
        forall|p: int| 0 <= p && p + 1 < s.len() && #[trigger] s[p] == '<' ==> s[p + 1] != 'l',
    ensures
        li_count(s) == 0,
    decreases s.len(),
{
    reveal_strlit("<li>");
    if s.len() >= 4 {
        assert forall|p: int|
            0 <= p && p + 1 < s.drop_first().len() && #[trigger] s.drop_first()[p] == '<' implies s.drop_first()[p
            + 1] != 'l' by {
            assert(s.drop_first()[p] == s[p + 1]);
            assert(s.drop_first()[p + 1] == s[p + 2]);
        }
        lemma_li_count_none(s.drop_first());
        if s.take(4) == "<li>"@ {
            assert(s[0] == s.take(4)[0]);
            assert(s[1] == s.take(4)[1]);
        }
    }
}

proof fn lemma_li_count_concat(a: Seq<char>, b: Seq<char>)
    requires
        !may_straddle(a, b),
    ensures
        li_count(a + b) == li_count(a) + li_count(b),
    decreases a.len(),
{
    reveal_strlit("<li>");
    let t = a + b;
    if a.len() == 0 {
        assert(t == b);
    } else {
        let r = a.drop_first();
        assert(t.drop_first() == r + b);
        if r.len() > 0 {
            assert(r.last() == a.last());
        }
        lemma_li_count_concat(r, b);
        if a.len() >= 4 {
            assert(t.take(4) == a.take(4));
        } else {
            assert(li_count(r) == 0);
            if t.len() < 4 {
                assert(li_count(b) == 0);
            } else if t.take(4) == "<li>"@ {
                let n = a.len() as int;
                assert(t[n - 1] == t.take(4)[n - 1]);
                assert(t[n] == t.take(4)[n]);
                assert(a.last() == t[n - 1]);
                assert(b[0] == t[n]);
                assert(false);
            }
        }
    }
}

proof fn lemma_encoded_no_lt(b: Seq<u8>)
    ensures
        forall|i: int| 0 <= i < percent_encoded_bytes(b).len() ==> #[trigger] percent_encoded_bytes(b)[i] != '<',
    decreases b.len(),
{
    if b.len() > 0 {
        lemma_encoded_no_lt(b.drop_first());
        let x = b[0];
        let h = encode_byte(x);
        assert((x as char) as u32 == x);
        let hi = x as int / 16;
        let lo = x as int % 16;
        assert(hex_upper(hi) as u32 != 60) by {
            if hi < 10 {
                assert(((48 + hi) as u8) as char as u32 == 48 + hi);
            } else {
                assert(((55 + hi) as u8) as char as u32 == 55 + hi);
            }
        }
        assert(hex_upper(lo) as u32 != 60) by {
            if lo < 10 {
                assert(((48 + lo) as u8) as char as u32 == 48 + lo);
            } else {
                assert(((55 + lo) as u8) as char as u32 == 55 + lo);
            }
        }
        let all = percent_encoded_bytes(b);
        let rest = percent_encoded_bytes(b.drop_first());
        assert(all == h + rest);
        assert forall|i: int| 0 <= i < all.len() implies #[trigger] all[i] != '<' by {
            if i < h.len() {
                assert(all[i] == h[i]);
            } else {
                assert(all[i] == rest[i - h.len()]);
            }
        }
    }
}

proof fn lemma_no_lt_count(s: Seq<char>)
    requires
        forall|i: int| 0 <= i < s.len() ==> #[trigger] s[i] != '<',
    ensures
        li_count(s) == 0,
{
    lemma_li_count_none(s);
}

proof fn lemma_entry_li_count(e: DirectoryEntry)
    ensures
        li_count(entry_html(e)) == 1,
        entry_html(e).len() > 0,
        entry_html(e).last() == '>',
        entry_html(e) == item_link(e) + html_escaped(size_note(e)) + "</div></a></li>"@,
{
    reveal_strlit("<li>");
    reveal_strlit("<a href=\"");
    reveal_strlit("<li><a href=\"");
    reveal_strlit("/");
    reveal_strlit("\">");
    reveal_strlit("<div class=\"meta\">");
    reveal_strlit("</div></a></li>");
    let p1 = "<li>"@;
    let p2 = "<a href=\""@;
    assert("<li><a href=\""@ == p1 + p2);
    let enc = percent_encoded(e.name@);
    let sx = if e.is_dir {
        "/"@
    } else {
        Seq::<char>::empty()
    };
    let esc1 = html_escaped(
        if e.is_dir {
            e.name@ + "/"@
        } else {
            e.name@
        },
    );
    let esc2 = html_escaped(size_note(e));
    let p3 = "\">"@;
    let p4 = "<div class=\"meta\">"@;
    let p5 = "</div></a></li>"@;
    lemma_encoded_no_lt(vstd::utf8::encode_utf8(e.name@));
    crate::http::lemma_html_escaped_safe(
        if e.is_dir {
            e.name@ + "/"@
        } else {
            e.name@
        },
    );
    crate::http::lemma_html_escaped_safe(size_note(e));
    assert(li_count(p1) == 1) by {
        assert(p1.take(4) == p1);
        assert(li_count(p1.drop_first()) == 0);
    }
    lemma_li_count_none(p2);
    lemma_no_lt_count(enc);
    lemma_li_count_none(sx);
    lemma_li_count_none(p3);
    lemma_no_lt_count(esc1);
    lemma_li_count_none(p4);
    lemma_no_lt_count(esc2);
    lemma_li_count_none(p5);
    let x1 = p1 + p2;
    lemma_li_count_concat(p1, p2);
    let x2 = x1 + enc;
    lemma_li_count_concat(x1, enc);
    let x3 = x2 + sx;
    lemma_li_count_concat(x2, sx);
    let x4 = x3 + p3;
    lemma_li_count_concat(x3, p3);
    let x5 = x4 + esc1;
    lemma_li_count_concat(x4, esc1);
    let x6 = x5 + p4;
    lemma_li_count_concat(x5, p4);
    let x7 = x6 + esc2;
    lemma_li_count_concat(x6, esc2);
    let x8 = x7 + p5;
    lemma_li_count_concat(x7, p5);
    assert(entry_html(e) == x8);
    assert(item_link(e) == x6);
}

proof fn lemma_entries_li_count(es: Seq<DirectoryEntry>)
    ensures
        li_count(entries_html(es)) == es.len(),
        es.len() > 0 ==> entries_html(es).len() > 0 && entries_html(es).last() == '>',
    decreases es.len(),
{
    if es.len() > 0 {
        lemma_entries_li_count(es.drop_last());
        lemma_entry_li_count(es.last());
        lemma_li_count_concat(entries_html(es.drop_last()), entry_html(es.last()));
    } else {
        assert(li_count(Seq::<char>::empty()) == 0);
    }
}

proof fn lemma_entries_concat(a: Seq<DirectoryEntry>, b: Seq<DirectoryEntry>)
    ensures
        entries_html(a + b) == entries_html(a) + entries_html(b),
    decreases b.len(),
{
    if b.len() == 0 {
        assert(a + b == a);
    } else {
        lemma_entries_concat(a, b.drop_last());
        assert((a + b).drop_last() == a + b.drop_last());
        assert((a + b).last() == b.last());
    }
}

proof fn lemma_entries_single(e: DirectoryEntry)
    ensures
        entries_html(seq![e]) == entry_html(e),
{
    let s1 = seq![e];
    assert(s1.drop_last() == Seq::<DirectoryEntry>::empty());
    assert(s1.last() == e);
    assert(entries_html(Seq::<DirectoryEntry>::empty()) == Seq::<char>::empty());
    assert(Seq::<char>::empty() + entry_html(e) == entry_html(e));
}

proof fn lemma_listing_count(segs: Seq<Seq<char>>, es: Seq<DirectoryEntry>)
    ensures
        li_count(listing_html(segs, es)) == es.len() + if segs.len() > 0 {
            1nat
        } else {
            0nat
        },
        listing_html(segs, es) == page_head(segs) + entries_html(es) + PAGE_END@,
{
    // `reveal_strlit` takes the literal itself, so the fixed parts of the
    // page are spelled out again here.
    reveal_strlit("<li>");
    reveal_strlit("<a href=\"../\">..</a></li>");
    reveal_strlit("<li><a href=\"../\">..</a></li>");
    reveal_strlit("</ul></main></body></html>");
    reveal_strlit("<!doctype html><html><head><meta charset=\"utf-8\"><meta name=\"viewport\" content=\"width=device-width,initial-scale=1\"><title>");
    reveal_strlit("</title><style>body{font-family:Segoe UI,system-ui,sans-serif;margin:0;background:#f5f7fb;color:#1f2937}main{max-width:880px;margin:0 auto;padding:24px}h1{font-size:22px;margin:0 0 12px}ul{list-style:none;padding:0;margin:16px 0 0}li{background:#fff;border:1px solid #dbe3f0;border-radius:10px;margin:8px 0}a{display:block;padding:14px 16px;color:#0f172a;text-decoration:none;word-break:break-all}a:hover{background:#eef4ff}.meta{color:#64748b;font-size:13px}</style></head><body><main><h1>目录 ");
    reveal_strlit("</h1><div class=\"meta\">LanQR 内置静态分享服务</div><ul>");
    let t = html_escaped(listing_title(segs));
    crate::http::lemma_html_escaped_safe(listing_title(segs));
    lemma_no_lt_count(t);
    lemma_li_count_none(PAGE_START@);
    lemma_li_count_none(PAGE_STYLE@);
    lemma_li_count_none(PAGE_LIST_START@);
    lemma_li_count_none(PAGE_END@);
    let parent = if segs.len() > 0 {
        PARENT_LINK@
    } else {
        Seq::<char>::empty()
    };
    assert(li_count(parent) == if segs.len() > 0 {
        1nat
    } else {
        0nat
    }) by {
        if segs.len() > 0 {
            let q = "<a href=\"../\">..</a></li>"@;
            assert(PARENT_LINK@ == "<li>"@ + q);
            assert(li_count("<li>"@) == 1) by {
                assert("<li>"@.take(4) == "<li>"@);
                assert(li_count("<li>"@.drop_first()) == 0);
            }
            lemma_li_count_none(q);
            lemma_li_count_concat("<li>"@, q);
        } else {
            assert(li_count(parent) == 0);
        }
    }
    lemma_entries_li_count(es);
    let y1 = PAGE_START@ + t;
    lemma_li_count_concat(PAGE_START@, t);
    let y2 = y1 + PAGE_STYLE@;
    lemma_li_count_concat(y1, PAGE_STYLE@);
    let y3 = y2 + t;
    lemma_li_count_concat(y2, t);
    let y4 = y3 + PAGE_LIST_START@;
    lemma_li_count_concat(y3, PAGE_LIST_START@);
    let y5 = y4 + parent;
    lemma_li_count_concat(y4, parent);
    assert(y5.last() == '>');
    let y6 = y5 + entries_html(es);
    lemma_li_count_concat(y5, entries_html(es));
    let y7 = y6 + PAGE_END@;
    lemma_li_count_concat(y6, PAGE_END@);
    assert(listing_html(segs, es) == y7);
    assert(page_head(segs) == y5);
}

proof fn lemma_listing_item_at(segs: Seq<Seq<char>>, es: Seq<DirectoryEntry>, i: int)
    requires
        0 <= i < es.len(),
    ensures
        listing_html(segs, es) == page_head(segs) + entries_html(es.take(i)) + entry_html(es[i])
            + entries_html(es.skip(i + 1)) + PAGE_END@,
        entry_html(es[i]) == item_link(es[i]) + html_escaped(size_note(es[i])) + "</div></a></li>"@,
{
    lemma_listing_count(segs, es);
    lemma_entry_li_count(es[i]);
    assert(es == es.take(i) + seq![es[i]] + es.skip(i + 1));
    lemma_entries_concat(es.take(i) + seq![es[i]], es.skip(i + 1));
    lemma_entries_concat(es.take(i), seq![es[i]]);
    lemma_entries_single(es[i]);
}

proof fn lemma_listing_item_before(es: Seq<DirectoryEntry>, i: int, j: int)
    requires
        0 <= i < j <= es.len(),
    ensures
        entries_html(es.take(i)).len() + entry_html(es[i]).len() <= entries_html(es.take(j)).len(),
{
    assert(es.take(j) == es.take(i) + seq![es[i]] + es.subrange(i + 1, j));
    lemma_entries_concat(es.take(i) + seq![es[i]], es.subrange(i + 1, j));
    lemma_entries_concat(es.take(i), seq![es[i]]);
    lemma_entries_single(es[i]);
}

/// The folder page is its head (with the link to the parent folder unless
/// the folder is the shared root), then one item per entry in the given
/// order, each starting with the link to that entry around its name, then
/// its end; `<li>` occurs once per item and nowhere else.
pub proof fn lemma_listing_items(segs: Seq<Seq<char>>, es: Seq<DirectoryEntry>)
    ensures
        li_count(listing_html(segs, es)) == es.len() + if segs.len() > 0 {
            1nat
        } else {
            0nat
        },
        listing_html(segs, es) == page_head(segs) + entries_html(es) + PAGE_END@,
        forall|i: int|
            0 <= i < es.len() ==> listing_html(segs, es) == page_head(segs) + entries_html(es.take(i))
                + entry_html(#[trigger] es[i]) + entries_html(es.skip(i + 1)) + PAGE_END@
                && entry_html(es[i]) == item_link(es[i]) + html_escaped(size_note(es[i]))
                + "</div></a></li>"@,
        forall|i: int, j: int|
            0 <= i < j <= es.len() ==> (#[trigger] entries_html(es.take(i))).len() + entry_html(es[i]).len()
                <= (#[trigger] entries_html(es.take(j))).len(),
{
    lemma_listing_count(segs, es);
    assert forall|i: int| 0 <= i < es.len() implies listing_html(segs, es) == page_head(segs) + entries_html(
        es.take(i),
    ) + entry_html(#[trigger] es[i]) + entries_html(es.skip(i + 1)) + PAGE_END@ && entry_html(es[i])
        == item_link(es[i]) + html_escaped(size_note(es[i])) + "</div></a></li>"@ by {
        lemma_listing_item_at(segs, es, i);
    }
    assert forall|i: int, j: int| 0 <= i < j <= es.len() implies (#[trigger] entries_html(es.take(i))).len()
        + entry_html(es[i]).len() <= (#[trigger] entries_html(es.take(j))).len() by {
        lemma_listing_item_before(es, i, j);
    }
}

} // verus!
