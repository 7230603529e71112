use lanqr::http::{parse_request_line, HttpRequest};
use lanqr::listing::DirectoryEntry;
use lanqr::models::{Ipv4, ProcessState, ShareTarget};
use lanqr::share_service::{
    build_base_path, build_share_url, handle_client, random_route, resolve_directory_entry,
    serve_directory_listing, EntryProbe, RequestPlan, ShareService, ROUTE_LENGTH,
};

fn target(is_dir: bool) -> ShareTarget {
    ShareTarget {
        original_path: "D:\\share\\x".to_string(),
        display_name: "x".to_string(),
        is_dir,
    }
}

fn request(method: &str, path: &str) -> HttpRequest {
    HttpRequest { method: method.to_string(), path: path.to_string() }
}

fn response_text(plan: RequestPlan) -> String {
    match plan {
        RequestPlan::Respond(bytes) => String::from_utf8(bytes).unwrap(),
        _ => panic!("expected a response"),
    }
}

#[test]
fn share_urls() {
    let ip = Ipv4(192, 168, 1, 20);
    assert_eq!(build_share_url(ip, 23456, "AbC123xyz0", false), "http://192.168.1.20:23456/send/AbC123xyz0");
    assert_eq!(build_share_url(ip, 23456, "AbC123xyz0", true), "http://192.168.1.20:23456/send/AbC123xyz0/");
    assert_eq!(build_share_url(Ipv4(10, 0, 0, 1), 0, "r", false), "http://10.0.0.1:0/send/r");
    assert_eq!(build_base_path("tok"), "/send/tok");
}

#[test]
fn routes_are_ten_letters_or_digits() {
    let a = random_route(ROUTE_LENGTH);
    let b = random_route(ROUTE_LENGTH);
    assert_eq!(a.chars().count(), 10);
    assert!(a.chars().all(|c| c.is_ascii_alphanumeric()));
    assert!(b.chars().all(|c| c.is_ascii_alphanumeric()));
    assert_eq!(random_route(0), "");
}

#[test]
fn file_share_answers_its_own_path() {
    let t = target(false);
    for path in ["/send/abc", "/send/abc/", "/send/abc?dl=1"] {
        match handle_client(&t, "/send/abc", &request("GET", path)) {
            RequestPlan::ServeFile { relative, head_only } => {
                assert!(relative.is_empty());
                assert!(!head_only);
            }
            _ => panic!("expected the file for {path}"),
        }
    }
    match handle_client(&t, "/send/abc", &request("HEAD", "/send/abc")) {
        RequestPlan::ServeFile { head_only, .. } => assert!(head_only),
        _ => panic!("expected the file"),
    }
}

#[test]
fn file_share_refuses_other_paths() {
    let t = target(false);
    let text = response_text(handle_client(&t, "/send/abc", &request("GET", "/send/abcd")));
    assert!(text.starts_with("HTTP/1.1 404 Not Found\r\n"));
    assert!(text.ends_with("\r\n\r\nNot Found"));
    let text = response_text(handle_client(&t, "/send/abc", &request("HEAD", "/send/abc/x")));
    assert!(text.ends_with("Content-Length: 9\r\nCache-Control: no-store\r\n\r\n"));
}

#[test]
fn other_methods_are_not_allowed() {
    let text = response_text(handle_client(&target(true), "/send/abc", &request("POST", "/send/abc/")));
    assert_eq!(
        text,
        "HTTP/1.1 405 Method Not Allowed\r\nConnection: close\r\nContent-Type: text/plain; charset=utf-8\r\nContent-Length: 18\r\nCache-Control: no-store\r\n\r\nMethod Not Allowed"
    );
    let parsed = parse_request_line("DELETE /send/abc HTTP/1.1\r\n");
    let text = response_text(handle_client(&target(false), "/send/abc", &parsed));
    assert!(text.starts_with("HTTP/1.1 405"));
}

#[test]
fn folder_share_redirects_its_bare_path() {
    let text = response_text(handle_client(&target(true), "/send/abc", &request("GET", "/send/abc")));
    assert_eq!(
        text,
        "HTTP/1.1 301 Moved Permanently\r\nConnection: close\r\nLocation: /send/abc/\r\nContent-Length: 0\r\nCache-Control: no-store\r\n\r\n"
    );
}

#[test]
fn folder_share_looks_up_entries() {
    match handle_client(&target(true), "/send/abc", &request("GET", "/send/abc/")) {
        RequestPlan::Inspect { relative, head_only } => {
            assert!(relative.is_empty());
            assert!(!head_only);
        }
        _ => panic!("expected a lookup"),
    }
    match handle_client(&target(true), "/send/abc", &request("GET", "/send/abc/sub/a%20b.txt?v=2")) {
        RequestPlan::Inspect { relative, .. } => assert_eq!(relative, vec!["sub".to_string(), "a b.txt".to_string()]),
        _ => panic!("expected a lookup"),
    }
}

#[test]
fn folder_share_refuses_bad_paths() {
    let text = response_text(handle_client(&target(true), "/send/abc", &request("GET", "/send/abcx/")));
    assert!(text.starts_with("HTTP/1.1 404 Not Found"));
    let text = response_text(handle_client(&target(true), "/send/abc", &request("GET", "/send/abc/../etc")));
    assert!(text.starts_with("HTTP/1.1 400 Bad Request"));
    assert!(text.ends_with("Invalid Path"));
}

#[test]
fn entries_after_lookup() {
    let rel = || vec!["sub".to_string()];
    let text = response_text(resolve_directory_entry("/send/abc/sub", rel(), EntryProbe::Directory, false));
    assert!(text.contains("Location: /send/abc/sub/\r\n"));
    assert!(matches!(
        resolve_directory_entry("/send/abc/sub/", rel(), EntryProbe::Directory, true),
        RequestPlan::ServeListing { head_only: true, .. }
    ));
    assert!(matches!(
        resolve_directory_entry("/send/abc/sub", rel(), EntryProbe::File, false),
        RequestPlan::ServeFile { head_only: false, .. }
    ));
    let text = response_text(resolve_directory_entry("/send/abc/sub", rel(), EntryProbe::Missing, false));
    assert!(text.starts_with("HTTP/1.1 404"));
    assert!(matches!(resolve_directory_entry("/send/abc/sub", rel(), EntryProbe::Failed, false), RequestPlan::Abort));
}

#[test]
fn listing_response_is_html() {
    let bytes = serve_directory_listing(
        &vec![],
        vec![DirectoryEntry { name: "f.txt".to_string(), is_dir: false, size: Some(3) }],
        false,
    );
    let text = String::from_utf8(bytes).unwrap();
    assert!(text.starts_with("HTTP/1.1 200 OK\r\nConnection: close\r\nContent-Type: text/html; charset=utf-8\r\nContent-Length: "));
    assert!(text.contains("<a href=\"f.txt\">f.txt<div class=\"meta\">文件 · 3 字节</div></a>"));
    let head = serve_directory_listing(&vec![], vec![], true);
    assert!(String::from_utf8(head).unwrap().ends_with("\r\n\r\n"));
}

#[test]
fn service_lifecycle() {
    let mut service = ShareService::new();
    assert!(matches!(service.poll_status(false), ProcessState::NotStarted));
    let stop = service.stop();
    assert!(!stop.signal && !stop.join && stop.wake.is_none());

    let ip = Ipv4(192, 168, 0, 9);
    let session = service.start(&target(true), ip, 30000);
    assert_eq!(session.port, 30000);
    assert_eq!(session.route.len(), 10);
    assert_eq!(session.url, format!("http://192.168.0.9:30000/send/{}/", session.route));
    assert_eq!(service.current_session().unwrap().url, session.url);
    assert!(matches!(service.poll_status(false), ProcessState::Running));

    let stop = service.stop();
    assert!(stop.signal && stop.join);
    assert_eq!(stop.wake, Some((ip, 30000)));
    assert!(service.current_session().is_none());
    assert!(matches!(service.poll_status(true), ProcessState::NotStarted));
}

#[test]
fn finished_server_is_forgotten() {
    let mut service = ShareService::new();
    let first = service.start(&target(false), Ipv4(10, 1, 2, 3), 20000);
    assert!(!first.url.ends_with('/'));
    assert!(matches!(service.poll_status(true), ProcessState::Exited(None)));
    assert!(service.current_session().is_none());
    let second = service.restart(&target(false), Ipv4(10, 1, 2, 3), 20001);
    assert_eq!(second.port, 20001);
}

#[test]
fn folder_share_refuses_escapes_from_the_folder() {
    for path in ["/send/abc/../x", "/send/abc/%2e%2e/x", "/send/abc/..%5Cx", "/send/abc/a/%2E%2E", "/send/abc/C%3A/x"] {
        let text = response_text(handle_client(&target(true), "/send/abc", &request("GET", path)));
        assert!(text.starts_with("HTTP/1.1 400 Bad Request"), "{path}");
        assert!(text.ends_with("Invalid Path"), "{path}");
    }
}
