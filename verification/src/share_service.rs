//! The built-in share service: the secret route and address of a share, the
//! service's lifecycle, and what it answers to each request. The listening
//! socket, the threads and the file system are driven by the caller, which
//! reports what it found and performs what these functions decide.
use vstd::prelude::*;
use vstd::utf8::encode_utf8;
use rand::Rng;

use crate::http::{
    ends_with_blank_line, head_text, lemma_head_ends_with_blank_line, plain_response,
    plain_response_bytes, redirect_bytes, redirect_response, strip_query_and_fragment,
    utf8_bytes, without_query, HttpRequest,
};
use crate::listing::{
    build_directory_listing_html, listing_html, sort_directory_entries, sorted_entries,
    DirectoryEntry,
};
use crate::models::{ipv4_text, push_ipv4, Ipv4, ProcessState, ShareSession, ShareTarget};
use crate::paths::{normalize_relative_path, normalized_path, strings_view};
use crate::text::{chars_of, decimal, has_prefix, is_ascii_alphanumeric, push_char, push_decimal, starts_with_chars};

verus! {

/// The path prefix under which every share is served.
pub const ROUTE_PREFIX: &'static str = "/send/";

/// The length of a share's secret route.
pub const ROUTE_LENGTH: usize = 10;

// ---------------------------------------------------------------------------
// Route and address of a share
// ---------------------------------------------------------------------------
/// `rand`'s `Alphanumeric` distribution: one byte drawn from `A-Z`, `a-z`,
/// `0-9`. Which byte comes out is left open.
#[verifier::external_body]
fn random_alphanumeric_byte() -> (res: u8)
    ensures
        (48 <= res && res <= 57) || (65 <= res && res <= 90) || (97 <= res && res <= 122),
{
    rand::thread_rng().sample(rand::distributions::Alphanumeric)
}

/// A fresh random route of `length` ASCII letters and digits.
pub fn random_route(length: usize) -> (res: String)
    ensures
        res@.len() == length,
        forall|i: int| 0 <= i < length ==> is_ascii_alphanumeric(#[trigger] res@[i]),
{
    let mut route = String::new();
    let mut count: usize = 0;
    while count < length
        invariant
            count <= length,
            route@.len() == count,
            forall|i: int| 0 <= i < count ==> is_ascii_alphanumeric(#[trigger] route@[i]),
        decreases length - count,
    {
        let c = random_alphanumeric_byte() as char;
        if ('a' <= c && c <= 'z') || ('A' <= c && c <= 'Z') || ('0' <= c && c <= '9') {
            push_char(&mut route, c);
            count = count + 1;
        }
    }
    route
}

/// The address a share is opened at: `http://IP:PORT/send/ROUTE`, with a
/// trailing `/` for a folder.
pub open spec fn share_url(ip: Ipv4, port: u16, route: Seq<char>, is_dir: bool) -> Seq<char> {
    "http://"@ + ipv4_text(ip) + seq![':'] + decimal(port as nat) + ROUTE_PREFIX@ + route + if is_dir {
        "/"@
    } else {
        Seq::empty()
    }
}

/// The address of a share of `route` on `ip:port`.
pub fn build_share_url(ip: Ipv4, port: u16, route: &str, is_dir: bool) -> (res: String)
    ensures
        res@ == share_url(ip, port, route@, is_dir),
{
    let mut url = String::from_str("http://");
    push_ipv4(&mut url, &ip);
    push_char(&mut url, ':');
    push_decimal(&mut url, port as u64);
    url.append(ROUTE_PREFIX);
    url.append(route);
    if is_dir {
        url.append("/");
    }
    url
}

/// The request path under which the share of `route` is served.
pub open spec fn base_path(route: Seq<char>) -> Seq<char> {
    ROUTE_PREFIX@ + route
}

/// The request path for the share of `route`.
pub fn build_base_path(route: &str) -> (res: String)
    ensures
        res@ == base_path(route@),
{
    let mut p = String::from_str(ROUTE_PREFIX);
    p.append(route);
    p
}

// ---------------------------------------------------------------------------
// Lifecycle
// ---------------------------------------------------------------------------
/// What the caller does to stop a running server: raise the stop flag, wake
/// the listener by connecting to `wake` (if given), and join the thread.
pub struct StopAction {
    pub signal: bool,
    pub wake: Option<(Ipv4, u16)>,
    pub join: bool,
}

/// Two sessions with the same address, port, route and URL.
pub open spec fn same_session(a: ShareSession, b: ShareSession) -> bool {
    a.ip == b.ip && a.port == b.port && a.route@ == b.route@ && a.url@ == b.url@
}

/// The bookkeeping of the share service: whether a server thread is running
/// and the session it serves. The thread itself is owned by the caller.
pub struct ShareService {
    server_running: bool,
    current_session: Option<ShareSession>,
}

impl ShareService {
    /// A server thread is running.
    pub closed spec fn running(&self) -> bool {
        self.server_running
    }

    /// The session being served.
    pub closed spec fn session(&self) -> Option<ShareSession> {
        self.current_session
    }

    /// The invariant: a session is recorded exactly while a server runs.
    pub open spec fn wf(&self) -> bool {
        self.running() <==> self.session() is Some
    }

    /// A service with no server and no session.
    pub fn new() -> (res: Self)
        ensures
            !res.running(),
            res.session() is None,
            res.wf(),
    {
        ShareService { server_running: false, current_session: None }
    }

    /// The session being served, if any.
    pub fn current_session(&self) -> (res: Option<&ShareSession>)
        ensures
            res == match self.session() {
                Some(s) => Some(&s),
                None => None,
            },
    {
        match &self.current_session {
            Some(s) => Some(s),
            None => None,
        }
    }

    /// Stops the running server, if any: the server is told to stop, woken on
    /// its own address and joined; afterwards nothing runs and no session is
    /// recorded.
    pub fn stop(&mut self) -> (res: StopAction)
        ensures
            !final(self).running(),
            final(self).session() is None,
            final(self).wf(),
            res.signal == old(self).running(),
            res.join == old(self).running(),
            res.wake == if old(self).running() {
                match old(self).session() {
                    Some(s) => Some((s.ip, s.port)),
                    None => None,
                }
            } else {
                None
            },
    {
        let running = self.server_running;
        let wake = if running {
            match &self.current_session {
                Some(s) => Some((s.ip, s.port)),
                None => None,
            }
        } else {
            None
        };
        self.server_running = false;
        self.current_session = None;
        StopAction { signal: running, wake, join: running }
    }

    /// Records a new share of `target` on `ip:port` (after the caller stopped
    /// any previous server and bound the listener): a fresh route, the share's
    /// address, and a running server with this session.
    pub fn start(&mut self, target: &ShareTarget, ip: Ipv4, port: u16) -> (res: ShareSession)
        requires
            !old(self).running(),
        ensures
            final(self).running(),
            final(self).session() matches Some(s) && same_session(s, res),
            final(self).wf(),
            res.ip == ip,
            res.port == port,
            res.route@.len() == ROUTE_LENGTH,
            forall|i: int| 0 <= i < ROUTE_LENGTH ==> is_ascii_alphanumeric(#[trigger] res.route@[i]),
            res.url@ == share_url(ip, port, res.route@, target.is_dir),
    {
        let route = random_route(ROUTE_LENGTH);
        let url = build_share_url(ip, port, route.as_str(), target.is_dir);
        let session = ShareSession { ip, port, route, url };
        let recorded = ShareSession {
            ip: session.ip,
            port: session.port,
            route: String::from_str(session.route.as_str()),
            url: String::from_str(session.url.as_str()),
        };
        self.server_running = true;
        self.current_session = Some(recorded);
        session
    }

    /// Same as [`ShareService::start`]: a new route and address.
    pub fn restart(&mut self, target: &ShareTarget, ip: Ipv4, port: u16) -> (res: ShareSession)
        requires
            !old(self).running(),
        ensures
            final(self).running(),
            final(self).session() matches Some(s) && same_session(s, res),
            final(self).wf(),
            res.ip == ip,
            res.port == port,
            res.route@.len() == ROUTE_LENGTH,
            forall|i: int| 0 <= i < ROUTE_LENGTH ==> is_ascii_alphanumeric(#[trigger] res.route@[i]),
            res.url@ == share_url(ip, port, res.route@, target.is_dir),
    {
        self.start(target, ip, port)
    }

    /// The server's state, given whether its thread has finished: a finished
    /// server is forgotten together with its session (the caller joins it).
    pub fn poll_status(&mut self, thread_finished: bool) -> (res: ProcessState)
        ensures
            !old(self).running() ==> res == ProcessState::NotStarted && *final(self) == *old(self),
            old(self).running() && !thread_finished ==> res == ProcessState::Running && *final(self)
                == *old(self),
            old(self).running() && thread_finished ==> res == ProcessState::Exited(None)
                && !final(self).running() && final(self).session() is None,
            old(self).wf() ==> final(self).wf(),
    {
        if !self.server_running {
            return ProcessState::NotStarted;
        }
        if !thread_finished {
            return ProcessState::Running;
        }
        self.server_running = false;
        self.current_session = None;
        ProcessState::Exited(None)
    }
}

// ---------------------------------------------------------------------------
// Answering requests
// ---------------------------------------------------------------------------
/// What the server does with a request.
pub enum RequestPlan {
    /// Send these bytes as the whole response.
    Respond(Vec<u8>),
    /// Send the file at the share's path joined with `relative` (the shared
    /// file itself when `relative` is empty).
    ServeFile { relative: Vec<String>, head_only: bool },
    /// Look up the entry at the shared folder joined with `relative`, and
    /// continue with [`resolve_directory_entry`].
    Inspect { relative: Vec<String>, head_only: bool },
    /// Send the listing of the folder at `relative`; see [`serve_directory_listing`].
    ServeListing { relative: Vec<String>, head_only: bool },
    /// Give up on the request without answering.
    Abort,
}

/// A request plan by its meaning.
pub enum PlanView {
    Respond(Seq<u8>),
    ServeFile(Seq<Seq<char>>, bool),
    Inspect(Seq<Seq<char>>, bool),
    ServeListing(Seq<Seq<char>>, bool),
    Abort,
}

impl View for RequestPlan {
    type V = PlanView;

    open spec fn view(&self) -> PlanView {
        match self {
            RequestPlan::Respond(b) => PlanView::Respond(b@),
            RequestPlan::ServeFile { relative, head_only } => PlanView::ServeFile(
                strings_view(relative@),
                *head_only,
            ),
            RequestPlan::Inspect { relative, head_only } => PlanView::Inspect(
                strings_view(relative@),
                *head_only,
            ),
            RequestPlan::ServeListing { relative, head_only } => PlanView::ServeListing(
                strings_view(relative@),
                *head_only,
            ),
            RequestPlan::Abort => PlanView::Abort,
        }
    }
}

/// What the caller found at a folder entry.
pub enum EntryProbe {
    Missing,
    Failed,
    Directory,
    File,
}

/// The plain-text content type of the service's short answers.
pub open spec fn text_plain() -> Seq<char> {
    "text/plain; charset=utf-8"@
}

/// The `404` answer.
pub open spec fn not_found(head_only: bool) -> Seq<u8> {
    plain_response("404 Not Found"@, text_plain(), encode_utf8("Not Found"@), head_only)
}

/// The answer to a request of `method` for `raw_path`, on the share at
/// `base`, of a folder (`is_dir`) or a file.
pub open spec fn request_plan(is_dir: bool, base: Seq<char>, method: Seq<char>, raw_path: Seq<char>) -> PlanView {
    if method != "GET"@ && method != "HEAD"@ {
        PlanView::Respond(
            plain_response(
                "405 Method Not Allowed"@,
                text_plain(),
                encode_utf8("Method Not Allowed"@),
                method == "HEAD"@,
            ),
        )
    } else if is_dir {
        directory_plan(base, without_query(raw_path), method == "HEAD"@)
    } else {
        file_plan(base, without_query(raw_path), method == "HEAD"@)
    }
}

/// A file share answers its base path (with or without a trailing `/`).
pub open spec fn file_plan(base: Seq<char>, path: Seq<char>, head_only: bool) -> PlanView {
    if path == base || path == base + "/"@ {
        PlanView::ServeFile(Seq::empty(), head_only)
    } else {
        PlanView::Respond(not_found(head_only))
    }
}

/// A folder share redirects its bare base path to `base/` and looks up what
/// lies below `base/`.
pub open spec fn directory_plan(base: Seq<char>, path: Seq<char>, head_only: bool) -> PlanView {
    if path == base {
        PlanView::Respond(redirect_response(base + "/"@))
    } else if !has_prefix(path, base) {
        PlanView::Respond(not_found(head_only))
    } else {
        let rel = path.skip(base.len() as int);
        if !(rel.len() > 0 && rel[0] == '/') {
            PlanView::Respond(not_found(head_only))
        } else {
            match normalized_path(rel.skip(1)) {
                Some(segs) => PlanView::Inspect(segs, head_only),
                None => PlanView::Respond(
                    plain_response(
                        "400 Bad Request"@,
                        text_plain(),
                        encode_utf8("Invalid Path"@),
                        head_only,
                    ),
                ),
            }
        }
    }
}

/// The answer once the entry below a folder share was looked up.
pub open spec fn entry_plan(path: Seq<char>, segs: Seq<Seq<char>>, probe: EntryProbe, head_only: bool) -> PlanView {
    match probe {
        EntryProbe::Missing => PlanView::Respond(not_found(head_only)),
        EntryProbe::Failed => PlanView::Abort,
        EntryProbe::Directory => if path.len() > 0 && path.last() == '/' {
            PlanView::ServeListing(segs, head_only)
        } else {
            PlanView::Respond(redirect_response(path + "/"@))
        },
        EntryProbe::File => PlanView::ServeFile(segs, head_only),
    }
}

proof fn lemma_without_query_plain(s: Seq<char>)
    requires
        forall|i: int| 0 <= i < s.len() ==> s[i] != '?' && s[i] != '#',
    ensures
        without_query(s) == s,
    decreases s.len(),
{
    if s.len() > 0 {
        lemma_without_query_plain(s.drop_first());
        assert(seq![s[0]] + s.drop_first() == s);
    }
}

/// The address a share publishes is answered by that share: a `GET` of its
/// path serves the shared file, or, for a folder, looks up the folder itself,
/// which is then listed.
pub proof fn lemma_share_url_is_served(ip: Ipv4, port: u16, route: Seq<char>, is_dir: bool)
    requires
        forall|i: int| 0 <= i < route.len() ==> is_ascii_alphanumeric(#[trigger] route[i]),
    ensures
        ({
            let path = base_path(route) + if is_dir {
                "/"@
            } else {
                Seq::empty()
            };
            &&& share_url(ip, port, route, is_dir) == "http://"@ + ipv4_text(ip) + seq![':'] + decimal(
                port as nat,
            ) + path
            &&& request_plan(is_dir, base_path(route), "GET"@, path) == if is_dir {
                PlanView::Inspect(Seq::empty(), false)
            } else {
                PlanView::ServeFile(Seq::empty(), false)
            }
            &&& is_dir ==> entry_plan(path, Seq::empty(), EntryProbe::Directory, false)
                == PlanView::ServeListing(Seq::empty(), false)
        }),
{
    reveal_strlit("/send/");
    reveal_strlit("/");
    reveal_strlit("GET");
    reveal_strlit("HEAD");
    let base = base_path(route);
    let path = base + if is_dir {
        "/"@
    } else {
        Seq::empty()
    };
    assert forall|i: int| 0 <= i < path.len() implies path[i] != '?' && path[i] != '#' by {
        if i >= ROUTE_PREFIX@.len() && i < base.len() {
            assert(path[i] == route[i - ROUTE_PREFIX@.len()]);
            assert(is_ascii_alphanumeric(route[i - ROUTE_PREFIX@.len()]));
        }
    }
    lemma_without_query_plain(path);
    assert("GET"@ != "HEAD"@) by {
        assert("GET"@.len() != "HEAD"@.len());
    }
    if is_dir {
        assert(path != base) by {
            assert(path.len() != base.len());
        }
        assert(has_prefix(path, base)) by {
            assert(path.subrange(0, base.len() as int) == base);
        }
        let rel = path.skip(base.len() as int);
        assert(rel == seq!['/']);
        assert(rel.skip(1) == Seq::<char>::empty());
        assert(normalized_path(Seq::empty()) == Some(Seq::<Seq<char>>::empty()));
        assert(path.last() == '/');
    } else {
        assert(path == base);
    }
}

/// Each of the segments is a plain, non-empty name: no root, drive, `.` or
/// `..` component, no `\\` and no NUL.
pub open spec fn segments_inside(segs: Seq<Seq<char>>) -> bool {
    forall|i: int| 0 <= i < segs.len() ==> crate::paths::segment_allowed(#[trigger] segs[i]) && segs[i].len() > 0
}

/// A folder share reaches nothing outside the shared folder: whatever a
/// request asks for, the entry it looks up is named by plain segments below
/// the folder, and what is then listed or served is that same entry.
pub proof fn lemma_folder_requests_stay_inside(
    base: Seq<char>,
    method: Seq<char>,
    raw_path: Seq<char>,
    path: Seq<char>,
    probe: EntryProbe,
)
    ensures
        request_plan(true, base, method, raw_path) matches PlanView::Inspect(segs, head_only) ==> {
            &&& segments_inside(segs)
            &&& entry_plan(path, segs, probe, head_only) matches PlanView::ServeFile(s, _) ==> s == segs
            &&& entry_plan(path, segs, probe, head_only) matches PlanView::ServeListing(s, _) ==> s
                == segs
        },
        request_plan(true, base, method, raw_path) matches PlanView::ServeFile(s, _) ==> false,
        request_plan(true, base, method, raw_path) matches PlanView::ServeListing(s, _) ==> false,
{
    let p = without_query(raw_path);
    let base_len = base.len() as int;
    crate::paths::lemma_normalized_segments_allowed(p.skip(base_len).skip(1));
}

/// A `HEAD` request never gets a body and a `GET` always does, on a folder
/// share as on a file share: whatever entry a request leads to is looked up,
/// served or listed with `head_only` set exactly for `HEAD`, and the lookup
/// passes that on to what it serves or lists.
pub proof fn lemma_head_only_for_head(is_dir: bool, base: Seq<char>, method: Seq<char>, raw_path: Seq<char>, path: Seq<char>, segs: Seq<Seq<char>>, probe: EntryProbe, h: bool)
    ensures
        request_plan(is_dir, base, method, raw_path) matches PlanView::Inspect(_, x) ==> x == (method == "HEAD"@)
            && (method == "GET"@ || method == "HEAD"@),
        request_plan(is_dir, base, method, raw_path) matches PlanView::ServeFile(_, x) ==> x == (method == "HEAD"@)
            && (method == "GET"@ || method == "HEAD"@),
        request_plan(is_dir, base, method, raw_path) matches PlanView::ServeListing(_, x) ==> false,
        entry_plan(path, segs, probe, h) matches PlanView::ServeFile(_, x) ==> x == h,
        entry_plan(path, segs, probe, h) matches PlanView::ServeListing(_, x) ==> x == h,
        entry_plan(path, segs, probe, h) matches PlanView::Inspect(_, _) ==> false,
{
}

proof fn lemma_head_only_response(status: Seq<char>, ct: Seq<char>, body: Seq<u8>)
    ensures
        ends_with_blank_line(plain_response(status, ct, body, true)),
{
    lemma_head_ends_with_blank_line(status, crate::http::plain_headers(ct, body.len()));
    let h = encode_utf8(head_text(status, crate::http::plain_headers(ct, body.len())));
    assert(plain_response(status, ct, body, true) =~= h);
}

/// What a `HEAD` request is answered with directly ends with its head: the
/// status line and headers and the empty line after them, no body; likewise
/// once the entry it asked for was looked up.
pub proof fn lemma_head_gets_no_body(is_dir: bool, base: Seq<char>, raw_path: Seq<char>, path: Seq<char>, segs: Seq<Seq<char>>, probe: EntryProbe)
    ensures
        request_plan(is_dir, base, "HEAD"@, raw_path) matches PlanView::Respond(b) ==> ends_with_blank_line(b),
        entry_plan(path, segs, probe, true) matches PlanView::Respond(b) ==> ends_with_blank_line(b),
{
    reveal_strlit("GET");
    reveal_strlit("HEAD");
    let p = without_query(raw_path);
    lemma_head_only_response("405 Method Not Allowed"@, text_plain(), encode_utf8("Method Not Allowed"@));
    lemma_head_only_response("404 Not Found"@, text_plain(), encode_utf8("Not Found"@));
    lemma_head_only_response("400 Bad Request"@, text_plain(), encode_utf8("Invalid Path"@));
    lemma_head_ends_with_blank_line(
        "301 Moved Permanently"@,
        seq![("Location"@, base + "/"@), ("Content-Length"@, "0"@), ("Cache-Control"@, "no-store"@)],
    );
    lemma_head_ends_with_blank_line(
        "301 Moved Permanently"@,
        seq![("Location"@, path + "/"@), ("Content-Length"@, "0"@), ("Cache-Control"@, "no-store"@)],
    );
}

fn not_found_bytes(head_only: bool) -> (res: Vec<u8>)
    ensures
        res@ == not_found(head_only),
{
    let body = utf8_bytes("Not Found");
    plain_response_bytes("404 Not Found", "text/plain; charset=utf-8", body.as_slice(), head_only)
}

fn text_is(s: &String, lit: &str) -> (res: bool)
    ensures
        res == (s@ == lit@),
{
    let a = chars_of(s.as_str());
    let b = chars_of(lit);
    crate::text::chars_equal(a.as_slice(), b.as_slice())
}

/// The answer to `request` on the share at `base_path` of `target`.
pub fn handle_client(target: &ShareTarget, base_path: &str, request: &HttpRequest) -> (res: RequestPlan)
    ensures
        res@ == request_plan(target.is_dir, base_path@, request.method@, request.path@),
{
    let is_get = text_is(&request.method, "GET");
    let is_head = text_is(&request.method, "HEAD");
    if !is_get && !is_head {
        let body = utf8_bytes("Method Not Allowed");
        return RequestPlan::Respond(
            plain_response_bytes(
                "405 Method Not Allowed",
                "text/plain; charset=utf-8",
                body.as_slice(),
                is_head,
            ),
        );
    }
    let request_path = strip_query_and_fragment(request.path.as_str());
    if target.is_dir {
        handle_directory_request(base_path, request_path.as_str(), is_head)
    } else {
        handle_file_request(base_path, request_path.as_str(), is_head)
    }
}

/// The answer of a file share to `request_path`.
pub fn handle_file_request(base_path: &str, request_path: &str, head_only: bool) -> (res: RequestPlan)
    ensures
        res@ == file_plan(base_path@, request_path@, head_only),
{
    let p = chars_of(request_path);
    let b = chars_of(base_path);
    let mut with_slash = chars_of(base_path);
    with_slash.push('/');
    assert(with_slash@ == base_path@ + "/"@) by {
        reveal_strlit("/");
    }
    if crate::text::chars_equal(p.as_slice(), b.as_slice()) || crate::text::chars_equal(
        p.as_slice(),
        with_slash.as_slice(),
    ) {
        let relative: Vec<String> = Vec::new();
        assert(strings_view(relative@) == Seq::<Seq<char>>::empty());
        RequestPlan::ServeFile { relative, head_only }
    } else {
        RequestPlan::Respond(not_found_bytes(head_only))
    }
}

/// The answer of a folder share to `request_path`, before any lookup.
pub fn handle_directory_request(base_path: &str, request_path: &str, head_only: bool) -> (res: RequestPlan)
    ensures
        res@ == directory_plan(base_path@, request_path@, head_only),
{
    let p = chars_of(request_path);
    let b = chars_of(base_path);
    if crate::text::chars_equal(p.as_slice(), b.as_slice()) {
        let mut location = String::from_str(base_path);
        location.append("/");
        return RequestPlan::Respond(redirect_bytes(location.as_str()));
    }
    if !starts_with_chars(p.as_slice(), b.as_slice()) {
        return RequestPlan::Respond(not_found_bytes(head_only));
    }
    let blen = b.len();
    if !(p.len() > blen && p[blen] == '/') {
        proof {
            let rel = request_path@.skip(blen as int);
            if rel.len() > 0 {
                assert(rel[0] == p@[blen as int]);
            }
        }
        return RequestPlan::Respond(not_found_bytes(head_only));
    }
    let mut rest = String::new();
    let mut i: usize = blen + 1;
    while i < p.len()
        invariant
            blen < p.len(),
            blen + 1 <= i <= p.len(),
            rest@ == p@.subrange(blen + 1, i as int),
        decreases p.len() - i,
    {
        push_char(&mut rest, p[i]);
        i = i + 1;
        assert(rest@ == p@.subrange(blen + 1, i as int));
    }
    assert(rest@ == request_path@.skip(blen as int).skip(1));
    match normalize_relative_path(rest.as_str()) {
        Some(relative) => RequestPlan::Inspect { relative, head_only },
        None => {
            let body = utf8_bytes("Invalid Path");
            RequestPlan::Respond(
                plain_response_bytes(
                    "400 Bad Request",
                    "text/plain; charset=utf-8",
                    body.as_slice(),
                    head_only,
                ),
            )
        },
    }
}

/// The answer once the entry at `relative` below a folder share, asked for by
/// `request_path`, turned out as `probe`.
pub fn resolve_directory_entry(
    request_path: &str,
    relative: Vec<String>,
    probe: EntryProbe,
    head_only: bool,
) -> (res: RequestPlan)
    ensures
        res@ == entry_plan(request_path@, strings_view(relative@), probe, head_only),
{
    match probe {
        EntryProbe::Missing => RequestPlan::Respond(not_found_bytes(head_only)),
        EntryProbe::Failed => RequestPlan::Abort,
        EntryProbe::Directory => {
            let p = chars_of(request_path);
            if p.len() > 0 && p[p.len() - 1] == '/' {
                RequestPlan::ServeListing { relative, head_only }
            } else {
                let mut location = String::from_str(request_path);
                location.append("/");
                RequestPlan::Respond(redirect_bytes(location.as_str()))
            }
        },
        EntryProbe::File => RequestPlan::ServeFile { relative, head_only },
    }
}

/// The listing response of the folder at `relative` with `entries` (in any
/// order; the page lists them sorted).
pub open spec fn listing_response(segs: Seq<Seq<char>>, entries: Seq<DirectoryEntry>, head_only: bool) -> Seq<u8> {
    plain_response(
        "200 OK"@,
        "text/html; charset=utf-8"@,
        encode_utf8(listing_html(segs, sorted_entries(entries))),
        head_only,
    )
}

/// The complete listing response of the folder at `relative`.
pub fn serve_directory_listing(relative: &Vec<String>, entries: Vec<DirectoryEntry>, head_only: bool) -> (res: Vec<u8>)
    ensures
        res@ == listing_response(strings_view(relative@), entries@, head_only),
{
    let sorted = sort_directory_entries(entries);
    let body = build_directory_listing_html(relative, &sorted);
    let bytes = utf8_bytes(body.as_str());
    plain_response_bytes("200 OK", "text/html; charset=utf-8", bytes.as_slice(), head_only)
}

} // verus!
