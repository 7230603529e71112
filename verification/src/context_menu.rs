//! The Explorer context menu entries, kept under the current user's
//! `Software\Classes` keys with the `reg` tool. Installing and removing are
//! jobs: each hands out the next `reg` command, the caller runs it and
//! reports how it went, until the job finishes with its result.
use vstd::prelude::*;

use crate::errors::LanQrError;
use crate::http::{file_extension, extension_of};
use crate::i18n::I18n;
use crate::paths::strings_view;
use crate::paths::is_ascii_letter;
use crate::text::{chars_of, has_prefix, starts_with_chars, string_from_chars, trim, trim_chars};

verus! {

/// The menu key for files.
pub const FILE_KEY: &'static str = "HKCU\\Software\\Classes\\*\\shell\\LanQR";

/// The menu key for folders.
pub const DIRECTORY_KEY: &'static str = "HKCU\\Software\\Classes\\Directory\\shell\\LanQR";

// ---------------------------------------------------------------------------
// Registry values
// ---------------------------------------------------------------------------
/// A path separator.
pub open spec fn is_separator(c: char) -> bool {
    c == '\\' || c == '/'
}

/// The path without trailing separators.
pub open spec fn strip_trailing_separators(p: Seq<char>) -> Seq<char>
    decreases p.len(),
{
    if p.len() > 0 && is_separator(p.last()) {
        strip_trailing_separators(p.drop_last())
    } else {
        p
    }
}

/// Where the last component of a path (without trailing separators) starts.
pub open spec fn last_component_start(p: Seq<char>) -> int
    decreases p.len(),
{
    if p.len() == 0 {
        0
    } else if is_separator(p.last()) {
        p.len() as int
    } else {
        last_component_start(p.drop_last())
    }
}

/// Where the component of `s` that starts at `i` ends: the next `\`, or also
/// `/` when `slash` is set, or the end of `s`.
pub open spec fn component_end(s: Seq<char>, i: int, slash: bool) -> int
    decreases s.len() - i,
{
    if i >= s.len() {
        s.len() as int
    } else if s[i] == '\\' || (slash && s[i] == '/') {
        i
    } else {
        component_end(s, i + 1, slash)
    }
}

/// The length of the Windows path prefix that `q` starts with, 0 if none:
/// `\\?\UNC\server\share`, `\\?\C:`, `\\?\name`, `\\.\name`,
/// `\\server\share` (either separator, both names non-empty) or `C:`.
pub open spec fn prefix_len(q: Seq<char>) -> int {
    if has_prefix(q, "\\\\?\\UNC\\"@) {
        let e = component_end(q, 8, false);
        if e < q.len() {
            component_end(q, e + 1, false)
        } else {
            e
        }
    } else if has_prefix(q, "\\\\?\\"@) {
        if q.len() >= 6 && is_ascii_letter(q[4]) && q[5] == ':' && (q.len() == 6 || q[6] == '\\') {
            6
        } else {
            component_end(q, 4, false)
        }
    } else if has_prefix(q, "\\\\.\\"@) {
        component_end(q, 4, true)
    } else if q.len() >= 2 && is_separator(q[0]) && is_separator(q[1]) {
        let e = component_end(q, 2, true);
        if e > 2 && e < q.len() && component_end(q, e + 1, true) > e + 1 {
            component_end(q, e + 1, true)
        } else {
            0
        }
    } else if q.len() >= 2 && is_ascii_letter(q[0]) && q[1] == ':' {
        2
    } else {
        0
    }
}

/// The path with its file name's extension set to `ico`: an existing
/// extension is replaced, otherwise `.ico` is added. A path without a file
/// name is kept as it is: its last component is empty, `.` or `..`, or lies
/// within the Windows prefix (a drive such as `C:`, a share root such as
/// `\\server\share`, or a verbatim or device prefix).
pub open spec fn with_ico_extension(p: Seq<char>) -> Seq<char> {
    let q = strip_trailing_separators(p);
    let start = last_component_start(q);
    let from = if start < prefix_len(q) {
        prefix_len(q)
    } else {
        start
    };
    let name = q.skip(from);
    if name.len() == 0 || name == "."@ || name == ".."@ {
        p
    } else {
        match file_extension(name) {
            Some(e) => q.take(q.len() - e.len() - 1) + ".ico"@,
            None => q + ".ico"@,
        }
    }
}

fn component_end_at(s: &[char], i: usize, slash: bool) -> (res: usize)
    requires
        i <= s.len(),
    ensures
        res == component_end(s@, i as int, slash),
        i <= res <= s.len(),
{
    let mut k = i;
    while k < s.len() && !(s[k] == '\\' || (slash && s[k] == '/'))
        invariant
            i <= k <= s.len(),
            component_end(s@, i as int, slash) == component_end(s@, k as int, slash),
        decreases s.len() - k,
    {
        k = k + 1;
    }
    k
}

fn ascii_letter(c: char) -> (res: bool)
    ensures
        res == is_ascii_letter(c),
{
    ('a' <= c && c <= 'z') || ('A' <= c && c <= 'Z')
}

fn prefix_len_of(q: &[char]) -> (res: usize)
    ensures
        res == prefix_len(q@),
        res <= q.len(),
{
    let verbatim_unc = chars_of("\\\\?\\UNC\\");
    let verbatim = chars_of("\\\\?\\");
    let device = chars_of("\\\\.\\");
    proof {
        reveal_strlit("\\\\?\\UNC\\");
        reveal_strlit("\\\\?\\");
        reveal_strlit("\\\\.\\");
    }
    if starts_with_chars(q, verbatim_unc.as_slice()) {
        let e = component_end_at(q, 8, false);
        if e < q.len() {
            component_end_at(q, e + 1, false)
        } else {
            e
        }
    } else if starts_with_chars(q, verbatim.as_slice()) {
        if q.len() >= 6 && ascii_letter(q[4]) && q[5] == ':' && (q.len() == 6 || q[6] == '\\') {
            6
        } else {
            component_end_at(q, 4, false)
        }
    } else if starts_with_chars(q, device.as_slice()) {
        component_end_at(q, 4, true)
    } else if q.len() >= 2 && (q[0] == '\\' || q[0] == '/') && (q[1] == '\\' || q[1] == '/') {
        let e = component_end_at(q, 2, true);
        if e > 2 && e < q.len() {
            let f = component_end_at(q, e + 1, true);
            if f > e + 1 {
                f
            } else {
                0
            }
        } else {
            0
        }
    } else if q.len() >= 2 && ascii_letter(q[0]) && q[1] == ':' {
        2
    } else {
        0
    }
}

/// The command the menu runs: the program, then the chosen path.
pub open spec fn command_value(exe: Seq<char>) -> Seq<char> {
    "\""@ + exe + "\" \"%1\""@
}

/// The menu's icon: the `.ico` file beside the program, quoted.
pub open spec fn icon_value(exe: Seq<char>) -> Seq<char> {
    "\""@ + with_ico_extension(exe) + "\""@
}

/// `reg` arguments that set the default value of `key`.
pub open spec fn add_default(key: Seq<char>, value: Seq<char>) -> Seq<Seq<char>> {
    seq!["add"@, key, "/ve"@, "/t"@, "REG_SZ"@, "/d"@, value, "/f"@]
}

/// `reg` arguments that set the `Icon` value of `key`.
pub open spec fn add_icon(key: Seq<char>, icon: Seq<char>) -> Seq<Seq<char>> {
    seq!["add"@, key, "/v"@, "Icon"@, "/t"@, "REG_SZ"@, "/d"@, icon, "/f"@]
}

/// The three commands that install the entry under `key`.
pub open spec fn install_key_commands(key: Seq<char>, menu: Seq<char>, exe: Seq<char>) -> Seq<Seq<Seq<char>>> {
    seq![
        add_default(key, menu),
        add_icon(key, icon_value(exe)),
        add_default(key + "\\command"@, command_value(exe)),
    ]
}

/// All install commands: the file entry, then the folder entry.
pub open spec fn install_commands(exe: Seq<char>, menu: Seq<char>) -> Seq<Seq<Seq<char>>> {
    install_key_commands(FILE_KEY@, menu, exe) + install_key_commands(DIRECTORY_KEY@, menu, exe)
}

/// The keys removed by uninstalling, in order.
pub open spec fn menu_keys() -> Seq<Seq<char>> {
    seq![FILE_KEY@, DIRECTORY_KEY@]
}

/// `reg` arguments that ask whether `key` exists.
pub open spec fn query_command(key: Seq<char>) -> Seq<Seq<char>> {
    seq!["query"@, key]
}

/// `reg` arguments that delete `key`.
pub open spec fn delete_command(key: Seq<char>) -> Seq<Seq<char>> {
    seq!["delete"@, key, "/f"@]
}

/// The reason given for a failed `reg` run: its trimmed error output, or its
/// trimmed standard output when the error output is blank.
pub open spec fn failure_message(stderr: Seq<char>, stdout: Seq<char>) -> Seq<char> {
    if trim(stderr).len() > 0 {
        trim(stderr)
    } else {
        trim(stdout)
    }
}

/// The `.ico` path beside the program at `exe_path` (see [`with_ico_extension`]).
fn ico_path(exe_path: &str) -> (res: String)
    ensures
        res@ == with_ico_extension(exe_path@),
{
    let p = chars_of(exe_path);
    let mut end: usize = p.len();
    assert(p@.take(p.len() as int) == p@);
    while end > 0 && (p[end - 1] == '\\' || p[end - 1] == '/')
        invariant
            end <= p.len(),
            p@ == exe_path@,
            strip_trailing_separators(p@) == strip_trailing_separators(p@.take(end as int)),
        decreases end,
    {
        assert(p@.take(end as int).drop_last() == p@.take(end - 1));
        end = end - 1;
    }
    assert(p@.take(p.len() as int) == p@);
    let ghost q = p@.take(end as int);
    assert(strip_trailing_separators(p@) == q);
    let mut start: usize = end;
    assert(q.take(end as int) == q);
    while start > 0 && p[start - 1] != '\\' && p[start - 1] != '/'
        invariant
            start <= end <= p.len(),
            q == p@.take(end as int),
            last_component_start(q) == last_component_start(q.take(start as int)),
        decreases start,
    {
        assert(q.take(start as int).drop_last() == q.take(start - 1));
        start = start - 1;
    }
    assert(q.take(end as int) == q);
    assert(last_component_start(q) == start);
    let mut qv: Vec<char> = Vec::new();
    let mut m: usize = 0;
    while m < end
        invariant
            m <= end <= p.len(),
            qv@ == p@.take(m as int),
        decreases end - m,
    {
        qv.push(p[m]);
        m = m + 1;
        assert(qv@ == p@.take(m as int));
    }
    let plen = prefix_len_of(qv.as_slice());
    let from = if start < plen {
        plen
    } else {
        start
    };
    let mut name: Vec<char> = Vec::new();
    let mut k: usize = from;
    while k < end
        invariant
            from <= k <= end <= p.len(),
            name@ == p@.subrange(from as int, k as int),
        decreases end - k,
    {
        name.push(p[k]);
        k = k + 1;
        assert(name@ == p@.subrange(from as int, k as int));
    }
    assert(name@ == q.skip(from as int));
    let dot = chars_of(".");
    let dotdot = chars_of("..");
    if name.len() == 0 || crate::text::chars_equal(name.as_slice(), dot.as_slice())
        || crate::text::chars_equal(name.as_slice(), dotdot.as_slice()) {
        return String::from_str(exe_path);
    }
    let keep: usize = match extension_of(name.as_slice()) {
        Some(e) => end - e.len() - 1,
        None => end,
    };
    let mut out: Vec<char> = Vec::new();
    let mut j: usize = 0;
    while j < keep
        invariant
            keep <= end <= p.len(),
            j <= keep,
            out@ == p@.take(j as int),
        decreases keep - j,
    {
        out.push(p[j]);
        j = j + 1;
        assert(out@ == p@.take(j as int));
    }
    assert(out@ == q.take(keep as int));
    let mut res = string_from_chars(out.as_slice());
    res.append(".ico");
    proof {
        if file_extension(name@) is None {
            assert(q.take(end as int) == q);
        }
    }
    res
}

/// The quoted icon path for the program at `exe_path`.
pub fn icon_value_for_exe(exe_path: &str) -> (res: String)
    ensures
        res@ == icon_value(exe_path@),
{
    let mut v = String::from_str("\"");
    let ico = ico_path(exe_path);
    v.append(ico.as_str());
    v.append("\"");
    v
}

fn arg(s: &str) -> (res: String)
    ensures
        res@ == s@,
{
    String::from_str(s)
}

fn add_default_args(key: &str, value: &str) -> (res: Vec<String>)
    ensures
        strings_view(res@) == add_default(key@, value@),
{
    let mut v: Vec<String> = Vec::new();
    v.push(arg("add"));
    v.push(arg(key));
    v.push(arg("/ve"));
    v.push(arg("/t"));
    v.push(arg("REG_SZ"));
    v.push(arg("/d"));
    v.push(arg(value));
    v.push(arg("/f"));
    v
}

fn add_icon_args(key: &str, icon: &str) -> (res: Vec<String>)
    ensures
        strings_view(res@) == add_icon(key@, icon@),
{
    let mut v: Vec<String> = Vec::new();
    v.push(arg("add"));
    v.push(arg(key));
    v.push(arg("/v"));
    v.push(arg("Icon"));
    v.push(arg("/t"));
    v.push(arg("REG_SZ"));
    v.push(arg("/d"));
    v.push(arg(icon));
    v.push(arg("/f"));
    v
}

fn install_single(out: &mut Vec<Vec<String>>, base_key: &str, command_value: &str, icon_value: &str, menu: &str)
    ensures
        final(out)@.len() == old(out)@.len() + 3,
        forall|i: int| 0 <= i < old(out)@.len() ==> #[trigger] final(out)@[i] == old(out)@[i],
        strings_view(final(out)@[old(out)@.len() as int]@) == add_default(base_key@, menu@),
        strings_view(final(out)@[old(out)@.len() + 1int]@) == add_icon(base_key@, icon_value@),
        strings_view(final(out)@[old(out)@.len() + 2int]@) == add_default(
            base_key@ + "\\command"@,
            command_value@,
        ),
{
    out.push(add_default_args(base_key, menu));
    out.push(add_icon_args(base_key, icon_value));
    let mut command_key = String::from_str(base_key);
    command_key.append("\\command");
    out.push(add_default_args(command_key.as_str(), command_value));
}

// ---------------------------------------------------------------------------
// Jobs
// ---------------------------------------------------------------------------
/// How one `reg` run went.
pub enum RegOutcome {
    /// It ran and reported success.
    Succeeded,
    /// It ran and reported failure, with its (lossily decoded) output.
    Failed { stderr: String, stdout: String },
    /// It could not be started; the text of the I/O error.
    Unavailable(String),
}

/// What to do next.
pub enum RegAction {
    /// Run `reg` with these arguments and report the outcome.
    Run(Vec<String>),
    /// The job is over, with this result.
    Finish(Result<(), LanQrError>),
}

/// The reason an install command failed, or `None` when it succeeded: the
/// failure message of a run that reported failure, the I/O error text of a
/// run that could not start.
pub open spec fn install_failure(o: RegOutcome) -> Option<Seq<char>> {
    match o {
        RegOutcome::Succeeded => None,
        RegOutcome::Failed { stderr, stdout } => Some(failure_message(stderr@, stdout@)),
        RegOutcome::Unavailable(e) => Some(e@),
    }
}

/// Driving an install job of `n` commands through [`ContextMenuJob::next_action`]
/// and [`ContextMenuJob::record`] with the outcomes `outcomes`, in order: how
/// many commands were run, and the failure that ended the job, if any.
pub open spec fn install_run(outcomes: Seq<RegOutcome>, n: nat) -> (nat, Option<Seq<char>>)
    decreases n,
{
    if n == 0 || outcomes.len() == 0 {
        (0, None)
    } else {
        match install_failure(outcomes[0]) {
            Some(m) => (1, Some(m)),
            None => {
                let r = install_run(outcomes.drop_first(), (n - 1) as nat);
                (r.0 + 1, r.1)
            },
        }
    }
}

proof fn lemma_install_run_steps(outcomes: Seq<RegOutcome>, n: nat)
    requires
        outcomes.len() >= n,
    ensures
        (forall|k: int| 0 <= k < n ==> (#[trigger] install_failure(outcomes[k])) is None) ==> install_run(
            outcomes,
            n,
        ) == (n, None::<Seq<char>>),
        forall|k: int|
            0 <= k < n && (#[trigger] install_failure(outcomes[k])) is Some && (forall|j: int|
                0 <= j < k ==> install_failure(outcomes[j]) is None) ==> install_run(outcomes, n) == (
                (k + 1) as nat,
                install_failure(outcomes[k]),
            ),
    decreases n,
{
    if n > 0 {
        let rest = outcomes.drop_first();
        lemma_install_run_steps(rest, (n - 1) as nat);
        assert forall|k: int| 0 <= k < n - 1 implies #[trigger] install_failure(rest[k]) == install_failure(
            outcomes[k + 1],
        ) by {}
        if forall|k: int| 0 <= k < n ==> (#[trigger] install_failure(outcomes[k])) is None {
            assert(install_failure(outcomes[0]) is None);
            assert forall|k: int| 0 <= k < n - 1 implies (#[trigger] install_failure(rest[k])) is None by {
                assert(install_failure(outcomes[k + 1]) is None);
            }
        }
        assert forall|k: int|
            0 <= k < n && (#[trigger] install_failure(outcomes[k])) is Some && (forall|j: int|
                0 <= j < k ==> install_failure(outcomes[j]) is None) implies install_run(outcomes, n) == (
            (k + 1) as nat,
            install_failure(outcomes[k]),
        ) by {
            if k > 0 {
                assert(install_failure(outcomes[0]) is None);
                assert(install_failure(rest[k - 1]) is Some);
                assert forall|j: int| 0 <= j < k - 1 implies install_failure(rest[j]) is None by {
                    assert(install_failure(outcomes[j + 1]) is None);
                }
            }
        }
    }
}

proof fn lemma_install_run_push(h: Seq<RegOutcome>, o: RegOutcome, n: nat)
    requires
        h.len() < n,
        install_run(h, n) == (h.len(), None::<Seq<char>>),
    ensures
        install_run(h.push(o), n) == ((h.len() + 1) as nat, install_failure(o)),
    decreases h.len(),
{
    let hp = h.push(o);
    if h.len() == 0 {
        assert(hp == seq![o]);
        assert(hp[0] == o);
        assert(hp.drop_first() == Seq::<RegOutcome>::empty());
        assert(install_run(Seq::<RegOutcome>::empty(), (n - 1) as nat) == (0nat, None::<Seq<char>>));
    } else {
        assert(install_failure(h[0]) is None);
        let r = install_run(h.drop_first(), (n - 1) as nat);
        assert(r == ((h.len() - 1) as nat, None::<Seq<char>>));
        assert(hp[0] == h[0]);
        assert(hp.drop_first() == h.drop_first().push(o));
        lemma_install_run_push(h.drop_first(), o, (n - 1) as nat);
        assert(install_run(hp.drop_first(), (n - 1) as nat) == (h.len() as nat, install_failure(o)));
    }
}

/// An install job is where the outcomes recorded so far put it: while no
/// command failed, it has run one command per recorded success; once one
/// fails, it hands out no further command and ends with
/// `ContextMenuInstallFailed` and that failure's reason.
pub proof fn lemma_install_job_progress(job: ContextMenuJob)
    requires
        job.wf(),
        job.is_install(),
    ensures
        job.finished() is None ==> install_run(job.outcomes(), job.commands().len()) == (
            job.outcomes().len(),
            None::<Seq<char>>,
        ),
        job.finished() is Some ==> !job.pending() && (job.finished() matches Some(
            Err(LanQrError::ContextMenuInstallFailed(m)),
        ) && install_run(job.outcomes(), job.commands().len()) == (job.outcomes().len(), Some(m@))),
{
}

/// The outcomes of removing one key when every run works: the query finds
/// it and the delete succeeds, or the query (`absent`) does not find it.
pub open spec fn key_outcomes(found: bool, absent: RegOutcome) -> Seq<RegOutcome> {
    if found {
        seq![RegOutcome::Succeeded, RegOutcome::Succeeded]
    } else {
        seq![absent]
    }
}

/// The commands run to remove `key`: the query, then the delete if the key
/// was found.
pub open spec fn key_commands(key: Seq<char>, found: bool) -> Seq<Seq<Seq<char>>> {
    if found {
        seq![query_command(key), delete_command(key)]
    } else {
        seq![query_command(key)]
    }
}

proof fn lemma_uninstall_state_push(h: Seq<RegOutcome>, o: RegOutcome)
    ensures
        uninstall_state(h.push(o)) == uninstall_step(uninstall_state(h), o),
{
    assert(h.push(o).drop_last() =~= h);
}

proof fn lemma_uninstall_key(h: Seq<RegOutcome>, found: bool, absent: RegOutcome)
    requires
        absent is Failed,
        uninstall_state(h).0 < 2,
        uninstall_state(h).1 == false,
        uninstall_state(h).2 is None,
    ensures
        uninstall_state(h + key_outcomes(found, absent)) == ((uninstall_state(h).0 + 1) as nat, false, None::<(int, Seq<char>)>),
        forall|i: int|
            0 <= i < key_outcomes(found, absent).len() ==> uninstall_pending(
                #[trigger] uninstall_state(h + key_outcomes(found, absent).take(i)),
            ) && uninstall_next(uninstall_state(h + key_outcomes(found, absent).take(i))) == key_commands(
                menu_keys()[uninstall_state(h).0 as int],
                found,
            )[i],
{
    let ko = key_outcomes(found, absent);
    let st = uninstall_state(h);
    let key = menu_keys()[st.0 as int];
    assert(ko.take(0) =~= Seq::<RegOutcome>::empty());
    assert(h + ko.take(0) =~= h);
    if found {
        lemma_uninstall_state_push(h, RegOutcome::Succeeded);
        let h1 = h.push(RegOutcome::Succeeded);
        lemma_uninstall_state_push(h1, RegOutcome::Succeeded);
        assert(h + ko.take(1) =~= h1);
        assert(h + ko =~= h1.push(RegOutcome::Succeeded));
        assert(key_commands(key, found)[0] == query_command(key));
        assert(key_commands(key, found)[1] == delete_command(key));
    } else {
        lemma_uninstall_state_push(h, absent);
        assert(h + ko =~= h.push(absent));
        assert(key_commands(key, found)[0] == query_command(key));
    }
}

/// Removing the menu queries the file key and deletes it only if the query
/// found it, then does the same for the folder key; when every run works the
/// job ends in success, whether or not each key existed. A delete that fails
/// stops the job with `ContextMenuUninstallFailed` and the failure's reason,
/// a query that cannot start stops it with the I/O error, and nothing after
/// either is run.
pub proof fn lemma_uninstall_run(found1: bool, found2: bool, absent: RegOutcome)
    requires
        absent is Failed,
    ensures
        ({
            let h = key_outcomes(found1, absent) + key_outcomes(found2, absent);
            let cmds = key_commands(FILE_KEY@, found1) + key_commands(DIRECTORY_KEY@, found2);
            &&& uninstall_state(h) == (2nat, false, None::<(int, Seq<char>)>)
            &&& !uninstall_pending(uninstall_state(h))
            &&& cmds.len() == h.len()
            &&& forall|i: int|
                0 <= i < h.len() ==> uninstall_pending(#[trigger] uninstall_state(h.take(i)))
                    && uninstall_next(uninstall_state(h.take(i))) == cmds[i]
        }),
        forall|h: Seq<RegOutcome>, o: RegOutcome|
            uninstall_pending(uninstall_state(h)) && uninstall_state(h).1 && !(o is Succeeded) ==> {
                let next = #[trigger] uninstall_state(h.push(o));
                &&& !uninstall_pending(next)
                &&& next.0 == uninstall_state(h).0
                &&& next.2 == Some((
                    1int,
                    match o {
                        RegOutcome::Failed { stderr, stdout } => failure_message(stderr@, stdout@),
                        RegOutcome::Unavailable(e) => e@,
                        RegOutcome::Succeeded => Seq::empty(),
                    },
                ))
            },
        forall|h: Seq<RegOutcome>, o: RegOutcome|
            uninstall_pending(uninstall_state(h)) && !uninstall_state(h).1 && (o matches RegOutcome::Unavailable(e)) ==> {
                let next = #[trigger] uninstall_state(h.push(o));
                &&& !uninstall_pending(next)
                &&& next.2 == Some((0int, o->Unavailable_0@))
            },
        forall|h: Seq<RegOutcome>, o: RegOutcome|
            !uninstall_pending(uninstall_state(h)) ==> #[trigger] uninstall_state(h.push(o)) == uninstall_state(h),
{
    let k1 = key_outcomes(found1, absent);
    let k2 = key_outcomes(found2, absent);
    let h = k1 + k2;
    assert(menu_keys()[0] == FILE_KEY@);
    assert(menu_keys()[1] == DIRECTORY_KEY@);
    let e = Seq::<RegOutcome>::empty();
    assert(uninstall_state(e) == (0nat, false, None::<(int, Seq<char>)>));
    lemma_uninstall_key(e, found1, absent);
    assert(e + k1 =~= k1);
    lemma_uninstall_key(k1, found2, absent);
    let c1 = key_commands(FILE_KEY@, found1);
    let c2 = key_commands(DIRECTORY_KEY@, found2);
    let cmds = c1 + c2;
    assert(c1.len() == k1.len());
    assert(c2.len() == k2.len());
    assert forall|i: int| 0 <= i < h.len() implies uninstall_pending(#[trigger] uninstall_state(h.take(i)))
        && uninstall_next(uninstall_state(h.take(i))) == cmds[i] by {
        if i < k1.len() {
            assert(h.take(i) =~= e + k1.take(i));
            assert(cmds[i] == c1[i]);
        } else {
            assert(h.take(i) =~= k1 + k2.take(i - k1.len()));
            assert(cmds[i] == c2[i - k1.len()]);
        }
    }
    assert forall|h2: Seq<RegOutcome>, o: RegOutcome|
        !uninstall_pending(uninstall_state(h2)) implies #[trigger] uninstall_state(h2.push(o)) == uninstall_state(h2) by {
        lemma_uninstall_state_push(h2, o);
    }
    assert forall|h2: Seq<RegOutcome>, o: RegOutcome|
        uninstall_pending(uninstall_state(h2)) && uninstall_state(h2).1 && !(o is Succeeded) implies {
            let next = #[trigger] uninstall_state(h2.push(o));
            &&& !uninstall_pending(next)
            &&& next.0 == uninstall_state(h2).0
            &&& next.2 == Some((
                1int,
                match o {
                    RegOutcome::Failed { stderr, stdout } => failure_message(stderr@, stdout@),
                    RegOutcome::Unavailable(e) => e@,
                    RegOutcome::Succeeded => Seq::empty(),
                },
            ))
        } by {
        lemma_uninstall_state_push(h2, o);
    }
    assert forall|h2: Seq<RegOutcome>, o: RegOutcome|
        uninstall_pending(uninstall_state(h2)) && !uninstall_state(h2).1 && (o matches RegOutcome::Unavailable(e)) implies {
            let next = #[trigger] uninstall_state(h2.push(o));
            &&& !uninstall_pending(next)
            &&& next.2 == Some((0int, o->Unavailable_0@))
        } by {
        lemma_uninstall_state_push(h2, o);
    }
}

/// A removal job is where the outcomes recorded so far put it
/// ([`uninstall_state`]): it has a command to run exactly when that state
/// is pending, and the command is the one [`uninstall_next`] gives.
pub proof fn lemma_uninstall_job_progress(job: ContextMenuJob)
    requires
        job.wf(),
        !job.is_install(),
    ensures
        (job.position(), job.deleting(), uninstall_stop(job.finished())) == uninstall_state(job.outcomes()),
        job.pending() <==> uninstall_pending(uninstall_state(job.outcomes())),
        job.pending() ==> job.next_command() == uninstall_next(uninstall_state(job.outcomes())),
{
}

/// Installing the menu runs, in this order, the three `reg add` commands for
/// the file key (entry text, icon, command) and then the same three for the
/// folder key. Driven with one outcome per command, the job runs every
/// command and succeeds when all succeed; otherwise it stops right after the
/// first command that fails and ends with `ContextMenuInstallFailed` and that
/// failure's reason.
pub proof fn lemma_install_sequence(exe: Seq<char>, menu: Seq<char>, outcomes: Seq<RegOutcome>)
    requires
        outcomes.len() >= 6,
    ensures
        install_commands(exe, menu) == seq![
            add_default(FILE_KEY@, menu),
            add_icon(FILE_KEY@, icon_value(exe)),
            add_default(FILE_KEY@ + "\\command"@, command_value(exe)),
            add_default(DIRECTORY_KEY@, menu),
            add_icon(DIRECTORY_KEY@, icon_value(exe)),
            add_default(DIRECTORY_KEY@ + "\\command"@, command_value(exe)),
        ],
        (forall|k: int| 0 <= k < 6 ==> (#[trigger] install_failure(outcomes[k])) is None) ==> install_run(
            outcomes,
            install_commands(exe, menu).len(),
        ) == (6nat, None::<Seq<char>>),
        forall|k: int|
            0 <= k < 6 && (#[trigger] install_failure(outcomes[k])) is Some && (forall|j: int|
                0 <= j < k ==> install_failure(outcomes[j]) is None) ==> install_run(
                outcomes,
                install_commands(exe, menu).len(),
            ) == ((k + 1) as nat, install_failure(outcomes[k])),
{
    assert(install_commands(exe, menu).len() == 6);
    lemma_install_run_steps(outcomes, 6);
}

/// How a removal job stopped early, by kind and text: `(0, e)` when a
/// `query` could not start (`Io(e)`), `(1, m)` when a delete failed
/// (`ContextMenuUninstallFailed(m)`), `(2, "")` for any other result.
pub open spec fn uninstall_stop(f: Option<Result<(), LanQrError>>) -> Option<(int, Seq<char>)> {
    match f {
        None => None,
        Some(Err(LanQrError::Io(e))) => Some((0, e@)),
        Some(Err(LanQrError::ContextMenuUninstallFailed(m))) => Some((1, m@)),
        Some(_) => Some((2, Seq::empty())),
    }
}

/// The state of a removal job: the key it is at, whether that key is to be
/// deleted, and how it stopped early, if it did.
pub type UninstallState = (nat, bool, Option<(int, Seq<char>)>);

/// A removal job that is at `st` and has a command to run.
pub open spec fn uninstall_pending(st: UninstallState) -> bool {
    st.2 is None && st.0 < 2
}

/// The command a removal job at `st` runs next: delete the key once a query
/// found it, query it otherwise.
pub open spec fn uninstall_next(st: UninstallState) -> Seq<Seq<char>> {
    if st.1 {
        delete_command(menu_keys()[st.0 as int])
    } else {
        query_command(menu_keys()[st.0 as int])
    }
}

/// One step of a removal job: a key that `query` finds is deleted next, one
/// it does not find is skipped; a `query` that cannot start stops the job
/// with the I/O error, a failed delete stops it with the failure's reason.
pub open spec fn uninstall_step(st: UninstallState, o: RegOutcome) -> UninstallState {
    if !uninstall_pending(st) {
        st
    } else if !st.1 {
        match o {
            RegOutcome::Succeeded => (st.0, true, None),
            RegOutcome::Failed { .. } => ((st.0 + 1) as nat, false, None),
            RegOutcome::Unavailable(e) => (st.0, false, Some((0, e@))),
        }
    } else {
        match o {
            RegOutcome::Succeeded => ((st.0 + 1) as nat, false, None),
            RegOutcome::Failed { stderr, stdout } => (st.0, true, Some((1, failure_message(stderr@, stdout@)))),
            RegOutcome::Unavailable(e) => (st.0, true, Some((1, e@))),
        }
    }
}

/// The state a removal job reaches with the outcomes `h`, in order.
pub open spec fn uninstall_state(h: Seq<RegOutcome>) -> UninstallState
    decreases h.len(),
{
    if h.len() == 0 {
        (0, false, None)
    } else {
        uninstall_step(uninstall_state(h.drop_last()), h.last())
    }
}

/// An install or uninstall job in progress.
pub struct ContextMenuJob {
    install: bool,
    commands: Vec<Vec<String>>,
    position: usize,
    deleting: bool,
    finished: Option<Result<(), LanQrError>>,
    history: Ghost<Seq<RegOutcome>>,
}

/// The failure reason of a `reg` run.
pub fn reg_failure_message(stderr: &str, stdout: &str) -> (res: String)
    ensures
        res@ == failure_message(stderr@, stdout@),
{
    let e = trim_chars(chars_of(stderr).as_slice());
    if e.len() > 0 {
        string_from_chars(e.as_slice())
    } else {
        let o = trim_chars(chars_of(stdout).as_slice());
        string_from_chars(o.as_slice())
    }
}

impl ContextMenuJob {
    /// The job installs (rather than removes) the menu.
    pub closed spec fn is_install(&self) -> bool {
        self.install
    }

    /// The install commands, by text.
    pub closed spec fn commands(&self) -> Seq<Seq<Seq<char>>> {
        self.commands@.map_values(|c: Vec<String>| strings_view(c@))
    }

    /// How far the job got: the install command to run next, or the key
    /// being removed.
    pub closed spec fn position(&self) -> nat {
        self.position as nat
    }

    /// Removing: the key was found and is to be deleted.
    pub closed spec fn deleting(&self) -> bool {
        self.deleting
    }

    /// The result, once the job is over early.
    pub closed spec fn finished(&self) -> Option<Result<(), LanQrError>> {
        self.finished
    }

    /// The outcomes recorded so far, in order.
    pub closed spec fn outcomes(&self) -> Seq<RegOutcome> {
        self.history@
    }

    /// How far an install job got is what [`install_run`] gives for the
    /// outcomes recorded so far: while none failed, one command per success;
    /// after a failure, the job ends with that failure's reason.
    pub open spec fn install_progress(&self) -> bool {
        match self.finished() {
            None => self.outcomes().len() == self.position() && install_run(
                self.outcomes(),
                self.commands().len(),
            ) == (self.position(), None::<Seq<char>>),
            Some(Err(LanQrError::ContextMenuInstallFailed(m))) => self.outcomes().len() == self.position() + 1
                && install_run(self.outcomes(), self.commands().len()) == (self.position() + 1, Some(m@)),
            Some(_) => false,
        }
    }

    /// The invariant of a job.
    pub open spec fn wf(&self) -> bool {
        &&& self.is_install() ==> self.position() <= self.commands().len() && !self.deleting()
        &&& self.is_install() ==> self.install_progress()
        &&& !self.is_install() ==> (self.position(), self.deleting(), uninstall_stop(self.finished()))
            == uninstall_state(self.outcomes())
        &&& !self.is_install() ==> self.position() <= menu_keys().len()
        &&& !self.is_install() && self.position() == menu_keys().len() ==> !self.deleting()
    }

    /// The job has a command to run.
    pub open spec fn pending(&self) -> bool {
        &&& self.finished() is None
        &&& if self.is_install() {
            self.position() < self.commands().len()
        } else {
            self.position() < menu_keys().len()
        }
    }

    /// The arguments of the command to run next.
    pub open spec fn next_command(&self) -> Seq<Seq<char>> {
        if self.is_install() {
            self.commands()[self.position() as int]
        } else if self.deleting() {
            delete_command(menu_keys()[self.position() as int])
        } else {
            query_command(menu_keys()[self.position() as int])
        }
    }

    /// The next step: a command while one is pending, else the result (the
    /// early one, or success).
    pub fn next_action(&self) -> (res: RegAction)
        requires
            self.wf(),
        ensures
            self.pending() ==> (res matches RegAction::Run(args) && strings_view(args@)
                == self.next_command()),
            !self.pending() ==> (res matches RegAction::Finish(r) && r == match self.finished() {
                Some(f) => f,
                None => Ok(()),
            }),
    {
        if let Some(r) = &self.finished {
            let copy: Result<(), LanQrError> = match r {
                Ok(u) => Ok(*u),
                Err(e) => Err(e.duplicate()),
            };
            assert(copy == *r);
            return RegAction::Finish(copy);
        }
        if self.install {
            if self.position < self.commands.len() {
                let c = &self.commands[self.position];
                let mut args: Vec<String> = Vec::new();
                let mut i: usize = 0;
                while i < c.len()
                    invariant
                        i <= c.len(),
                        args@.len() == i,
                        forall|k: int| 0 <= k < i ==> #[trigger] args@[k]@ == c@[k]@,
                    decreases c.len() - i,
                {
                    args.push(String::from_str(c[i].as_str()));
                    i = i + 1;
                }
                assert(strings_view(args@) == strings_view(c@));
                RegAction::Run(args)
            } else {
                RegAction::Finish(Ok(()))
            }
        } else {
            if self.position < 2 {
                let key = if self.position == 0 {
                    FILE_KEY
                } else {
                    DIRECTORY_KEY
                };
                let mut args: Vec<String> = Vec::new();
                if self.deleting {
                    args.push(arg("delete"));
                    args.push(arg(key));
                    args.push(arg("/f"));
                } else {
                    args.push(arg("query"));
                    args.push(arg(key));
                }
                RegAction::Run(args)
            } else {
                RegAction::Finish(Ok(()))
            }
        }
    }

    /// Takes in how the pending command went.
    ///
    /// Installing: success moves to the next command; a failure ends the job
    /// with `ContextMenuInstallFailed` and the reason (or the I/O error text).
    /// Removing: a key that `query` does not find is skipped, a found key is
    /// deleted next; a `query` that cannot start ends the job with `Io`; a
    /// failed delete ends it with `ContextMenuUninstallFailed`.
    pub fn record(&mut self, outcome: RegOutcome)
        requires
            old(self).wf(),
            old(self).pending(),
        ensures
            final(self).wf(),
            final(self).is_install() == old(self).is_install(),
            final(self).commands() == old(self).commands(),
            final(self).outcomes() == old(self).outcomes().push(outcome),
            old(self).is_install() ==> (final(self).finished() is None <==> install_failure(outcome) is None),
            old(self).is_install() ==> (install_failure(outcome) matches Some(m) ==> (final(self).finished() matches Some(
                Err(LanQrError::ContextMenuInstallFailed(e)),
            ) && e@ == m)),
            old(self).is_install() ==> match outcome {
                RegOutcome::Succeeded => final(self).position() == old(self).position() + 1
                    && final(self).finished() is None,
                RegOutcome::Failed { stderr, stdout } => (final(self).finished() matches Some(
                    Err(LanQrError::ContextMenuInstallFailed(m)),
                ) && m@ == failure_message(stderr@, stdout@)),
                RegOutcome::Unavailable(e) => final(self).finished() == Some(
                    Err::<(), LanQrError>(LanQrError::ContextMenuInstallFailed(e)),
                ),
            },
            !old(self).is_install() && !old(self).deleting() ==> match outcome {
                RegOutcome::Succeeded => final(self).position() == old(self).position()
                    && final(self).deleting() && final(self).finished() is None,
                RegOutcome::Failed { .. } => final(self).position() == old(self).position() + 1
                    && !final(self).deleting() && final(self).finished() is None,
                RegOutcome::Unavailable(e) => final(self).finished() == Some(
                    Err::<(), LanQrError>(LanQrError::Io(e)),
                ),
            },
            !old(self).is_install() && old(self).deleting() ==> match outcome {
                RegOutcome::Succeeded => final(self).position() == old(self).position() + 1
                    && !final(self).deleting() && final(self).finished() is None,
                RegOutcome::Failed { stderr, stdout } => (final(self).finished() matches Some(
                    Err(LanQrError::ContextMenuUninstallFailed(m)),
                ) && m@ == failure_message(stderr@, stdout@)),
                RegOutcome::Unavailable(e) => final(self).finished() == Some(
                    Err::<(), LanQrError>(LanQrError::ContextMenuUninstallFailed(e)),
                ),
            },
    {
        assert(menu_keys().len() == 2);
        assert(self.commands().len() == self.commands@.len());
        let ghost o = outcome;
        proof {
            if self.install {
                lemma_install_run_push(self.history@, o, self.commands().len());
            }
            assert(self.history@.push(o).drop_last() =~= self.history@);
        }
        self.history = Ghost(self.history@.push(o));
        if self.install {
            match outcome {
                RegOutcome::Succeeded => {
                    if self.position < self.commands.len() {
                        self.position = self.position + 1;
                    }
                },
                RegOutcome::Failed { stderr, stdout } => {
                    let m = reg_failure_message(stderr.as_str(), stdout.as_str());
                    self.finished = Some(Err(LanQrError::ContextMenuInstallFailed(m)));
                },
                RegOutcome::Unavailable(e) => {
                    self.finished = Some(Err(LanQrError::ContextMenuInstallFailed(e)));
                },
            }
        } else if !self.deleting {
            match outcome {
                RegOutcome::Succeeded => {
                    self.deleting = true;
                },
                RegOutcome::Failed { .. } => {
                    self.position = self.position + 1;
                },
                RegOutcome::Unavailable(e) => {
                    self.finished = Some(Err(LanQrError::Io(e)));
                },
            }
        } else {
            match outcome {
                RegOutcome::Succeeded => {
                    self.position = self.position + 1;
                    self.deleting = false;
                },
                RegOutcome::Failed { stderr, stdout } => {
                    let m = reg_failure_message(stderr.as_str(), stdout.as_str());
                    self.finished = Some(Err(LanQrError::ContextMenuUninstallFailed(m)));
                },
                RegOutcome::Unavailable(e) => {
                    self.finished = Some(Err(LanQrError::ContextMenuUninstallFailed(e)));
                },
            }
        }
    }
}

/// The job that installs the menu for the program at `exe_path`, with the
/// entry text of the language in effect.
pub fn install(exe_path: &str, i18n: I18n) -> (res: ContextMenuJob)
    ensures
        res.wf(),
        res.is_install(),
        res.position() == 0,
        res.finished() is None,
        res.commands() == install_commands(
            exe_path@,
            i18n.text("生成局域网二维码"@, "Generate LAN QR"@),
        ),
{
    let exe = exe_path;
    let mut command_value = String::from_str("\"");
    command_value.append(exe);
    command_value.append("\" \"%1\"");
    let icon_value = icon_value_for_exe(exe_path);
    let menu = i18n.menu_text();
    let mut commands: Vec<Vec<String>> = Vec::new();
    install_single(&mut commands, FILE_KEY, command_value.as_str(), icon_value.as_str(), menu);
    install_single(&mut commands, DIRECTORY_KEY, command_value.as_str(), icon_value.as_str(), menu);
    let job = ContextMenuJob {
        install: true,
        commands,
        position: 0,
        deleting: false,
        finished: None,
        history: Ghost(Seq::empty()),
    };
    assert(job.commands() =~= install_commands(
        exe_path@,
        i18n.text("生成局域网二维码"@, "Generate LAN QR"@),
    ));
    job
}

/// The job that removes the menu.
pub fn uninstall() -> (res: ContextMenuJob)
    ensures
        res.wf(),
        !res.is_install(),
        res.position() == 0,
        !res.deleting(),
        res.finished() is None,
{
    ContextMenuJob {
        install: false,
        commands: Vec::new(),
        position: 0,
        deleting: false,
        finished: None,
        history: Ghost(Seq::empty()),
    }
}

} // verus!
