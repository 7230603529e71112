use lanqr::listing::{
    build_directory_listing_html, sort_directory_entries, DirectoryEntry, PAGE_END,
    PAGE_LIST_START, PAGE_START, PAGE_STYLE, PARENT_LINK,
};

fn entry(name: &str, is_dir: bool, size: Option<u64>) -> DirectoryEntry {
    DirectoryEntry { name: name.to_string(), is_dir, size }
}

#[test]
fn folders_come_first_then_names_ignoring_case() {
    let sorted = sort_directory_entries(vec![
        entry("b.txt", false, Some(10)),
        entry("Zeta", true, None),
        entry("A.txt", false, None),
        entry("alpha", true, None),
    ]);
    let names: Vec<&str> = sorted.iter().map(|e| e.name.as_str()).collect();
    assert_eq!(names, vec!["alpha", "Zeta", "A.txt", "b.txt"]);
}

#[test]
fn equal_names_keep_their_order() {
    let sorted = sort_directory_entries(vec![
        entry("Read.me", false, Some(1)),
        entry("read.me", false, Some(2)),
        entry("READ.ME", false, Some(3)),
    ]);
    let sizes: Vec<Option<u64>> = sorted.iter().map(|e| e.size).collect();
    assert_eq!(sizes, vec![Some(1), Some(2), Some(3)]);
}

#[test]
fn page_parts_match_the_served_page() {
    let expected_start = "<!doctype html><html><head><meta charset=\"utf-8\"><meta name=\"viewport\" content=\"width=device-width,initial-scale=1\"><title>";
    assert_eq!(PAGE_START, expected_start);
    assert!(PAGE_STYLE.starts_with("</title><style>body{font-family:Segoe UI"));
    assert!(PAGE_STYLE.ends_with("<body><main><h1>目录 "));
    assert_eq!(PAGE_LIST_START, "</h1><div class=\"meta\">LanQR 内置静态分享服务</div><ul>");
    assert_eq!(PARENT_LINK, "<li><a href=\"../\">..</a></li>");
    assert_eq!(PAGE_END, "</ul></main></body></html>");
}

#[test]
fn root_listing_page() {
    let html = build_directory_listing_html(
        &vec![],
        &vec![entry("My Docs", true, None), entry("a<b>.txt", false, Some(42)), entry("x", false, None)],
    );
    let expected = format!(
        "{PAGE_START}/{PAGE_STYLE}/{PAGE_LIST_START}\
<li><a href=\"My%20Docs/\">My Docs/<div class=\"meta\">目录</div></a></li>\
<li><a href=\"a%3Cb%3E.txt\">a&lt;b&gt;.txt<div class=\"meta\">文件 · 42 字节</div></a></li>\
<li><a href=\"x\">x<div class=\"meta\">文件</div></a></li>{PAGE_END}"
    );
    assert_eq!(html, expected);
}

#[test]
fn nested_listing_page_links_to_parent() {
    let html = build_directory_listing_html(&vec!["a".to_string(), "b&c".to_string()], &vec![]);
    let expected = format!("{PAGE_START}/a/b&amp;c{PAGE_STYLE}/a/b&amp;c{PAGE_LIST_START}{PARENT_LINK}{PAGE_END}");
    assert_eq!(html, expected);
}
