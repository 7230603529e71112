use lanqr::paths::{normalize_relative_path, relative_path_text};

fn segs(input: &str) -> Option<Vec<String>> {
    normalize_relative_path(input)
}

#[test]
fn empty_path_is_the_folder_itself() {
    assert_eq!(segs(""), Some(vec![]));
    assert_eq!(segs("///"), Some(vec![]));
}

#[test]
fn segments_are_decoded_and_empty_ones_skipped() {
    assert_eq!(segs("a//b/"), Some(vec!["a".to_string(), "b".to_string()]));
    assert_eq!(segs("my%20docs/%E6%96%87.txt"), Some(vec!["my docs".to_string(), "文.txt".to_string()]));
    assert_eq!(segs(".hidden/x."), Some(vec![".hidden".to_string(), "x.".to_string()]));
}

#[test]
fn escaping_the_folder_is_refused() {
    assert_eq!(segs("../secret"), None);
    assert_eq!(segs("a/%2E%2E/b"), None);
    assert_eq!(segs("."), None);
    assert_eq!(segs("%2Fetc"), None);
    assert_eq!(segs("C%3A"), None);
    assert_eq!(segs("c%3Awindows"), None);
    assert_eq!(segs("a%5Cb"), None);
    assert_eq!(segs("a%00"), None);
    assert_eq!(segs("x/a%2F..%2Fb"), None);
}

#[test]
fn malformed_segments_are_refused() {
    assert_eq!(segs("a%zz"), None);
    assert_eq!(segs("%C3%28"), None);
}

#[test]
fn encoded_slashes_stay_inside_a_segment() {
    assert_eq!(segs("a%2Fb"), Some(vec!["a/b".to_string()]));
    assert_eq!(segs("a%2F.%2Fb"), Some(vec!["a/./b".to_string()]));
}

#[test]
fn relative_path_text_joins_with_slashes() {
    assert_eq!(relative_path_text(&vec![]), "");
    assert_eq!(relative_path_text(&vec!["a".to_string(), "b c".to_string()]), "a/b c");
    assert_eq!(relative_path_text(&vec!["a/".to_string(), "b".to_string()]), "a/b");
}
