//! Installation as a launchd service. The binaries go to a directory of
//! root, so that a service of root runs nothing the user can replace; the
//! settings, their file sources and the tunnel files go beside them, and
//! the URL sources are fetched into the cache. The service sets the DNS of
//! the Mac to itself and takes everything back when stopped; `off` stops it
//! and sweeps what a crash left behind.

use vstd::prelude::*;
use vstd::string::*;

use crate::config::{same_path, Settings};
use crate::degraded::{MINUTE, SECOND};
use crate::link::MILLI;
use crate::paths::dir_of;
use crate::pf::join_path;
use crate::sources::{check, CACHE};
use crate::text::{around_of, chars_of, has_of, join_of, lines_of, same, show, trim_of};

verus! {

pub const LABEL: &'static str = "mac-gate";

pub const SERVICE: &'static str = "system/mac-gate";

pub const LIBEXEC: &'static str = "/usr/local/libexec/mac-gate";

pub const ETC: &'static str = "/usr/local/etc/mac-gate";

pub const STATE_DIR: &'static str = "/var/db/mac-gate";

pub const STATE: &'static str = "/var/db/mac-gate/routes";

pub const JOURNAL: &'static str = "/var/log/mac-gate.log";

pub const ERRLOG: &'static str = "/var/log/mac-gate.err";

pub const PLIST: &'static str = "/Library/LaunchDaemons/mac-gate.plist";

/// So that `sudo mac-gate off` works from any directory.
pub const LINK: &'static str = "/usr/local/bin/mac-gate";

pub const RUN_DIR: &'static str = "/var/run/amneziawg";

pub const LAUNCHCTL: &'static str = "/bin/launchctl";

/// The daemon takes everything back within the plist's `ExitTimeOut`.
pub const EXIT_WAIT: u128 = MINUTE + 10 * SECOND;

pub const READY_WAIT: u128 = 30 * SECOND;

pub const CONFIRM_WAIT: u128 = 30 * SECOND;

/// What `install` copies, from wherever the owner has it.
#[derive(Debug)]
pub struct Sources {
    /// The settings; their file sources and tunnel files are found beside
    /// them.
    pub config: String,
    pub awg_go: String,
    pub awg: String,
}

pub open spec fn bin_path(name: Seq<char>) -> Seq<char> {
    crate::pf::below(LIBEXEC@, name)
}

pub fn bin(name: &str) -> (r: String)
    ensures
        r@ == bin_path(name@),
{
    join_path(LIBEXEC, name)
}

pub open spec fn settings_file() -> Seq<char> {
    crate::pf::below(ETC@, "mac-gate.toml"@)
}

pub fn settings_path() -> (r: String)
    ensures
        r@ == settings_file(),
{
    join_path(ETC, "mac-gate.toml")
}

pub fn cache_path() -> (r: String)
    ensures
        r@ == crate::pf::below(STATE_DIR@, CACHE@),
{
    join_path(STATE_DIR, CACHE)
}

// ---------------------------------------------------------------------
// The service.
// ---------------------------------------------------------------------

/// What the service runs.
pub open spec fn service_args() -> Seq<Seq<char>> {
    seq![
        bin_path("mac-gate"@),
        "run"@,
        "--config"@,
        settings_file(),
        "--state"@,
        STATE@,
        "--journal"@,
        JOURNAL@,
        "--libexec"@,
        LIBEXEC@,
        "--system-dns"@,
    ]
}

pub open spec fn string_line(s: Seq<char>) -> Seq<char> {
    "        <string>"@ + s + "</string>"@
}

pub open spec fn plist_text() -> Seq<char> {
    "<?xml version=\"1.0\" encoding=\"UTF-8\"?>\n<!DOCTYPE plist PUBLIC \"-//Apple//DTD PLIST 1.0//EN\" \"http://www.apple.com/DTDs/PropertyList-1.0.dtd\">\n<plist version=\"1.0\">\n<dict>\n    <key>Label</key><string>"@
        + LABEL@ + "</string>\n    <key>ProgramArguments</key>\n    <array>\n"@
        + crate::text::paged(service_args().map_values(|s: Seq<char>| string_line(s)))
        + "    </array>\n    <key>RunAtLoad</key><true/>\n    <key>KeepAlive</key><true/>\n    <key>ThrottleInterval</key><integer>1</integer>\n    <key>ExitTimeOut</key><integer>60</integer>\n    <key>StandardErrorPath</key><string>"@
        + ERRLOG@ + "</string>\n</dict>\n</plist>\n"@
}

fn add_string(v: &mut Vec<String>, s: &str)
    ensures
        crate::text::seen(final(v)@) == crate::text::seen(old(v)@).push(string_line(s@)),
{
    let mut l = String::from_str("        <string>");
    l.append(s);
    l.append("</string>");
    proof {
        crate::text::lemma_seen_push(v@, l);
    }
    v.push(l);
}

/// The service: the daemon as the DNS of the Mac, started again at once
/// when it dies.
pub fn plist() -> (r: String)
    ensures
        r@ == plist_text(),
{
    let mut v: Vec<String> = Vec::new();
    proof {
        assert(crate::text::seen(v@) =~= seq![]);
    }
    add_string(&mut v, bin("mac-gate").as_str());
    add_string(&mut v, "run");
    add_string(&mut v, "--config");
    add_string(&mut v, settings_path().as_str());
    add_string(&mut v, "--state");
    add_string(&mut v, STATE);
    add_string(&mut v, "--journal");
    add_string(&mut v, JOURNAL);
    add_string(&mut v, "--libexec");
    add_string(&mut v, LIBEXEC);
    add_string(&mut v, "--system-dns");
    proof {
        assert(crate::text::seen(v@) =~= service_args().map_values(
            |s: Seq<char>| string_line(s),
        ));
    }
    let mut s = String::from_str(
        "<?xml version=\"1.0\" encoding=\"UTF-8\"?>\n<!DOCTYPE plist PUBLIC \"-//Apple//DTD PLIST 1.0//EN\" \"http://www.apple.com/DTDs/PropertyList-1.0.dtd\">\n<plist version=\"1.0\">\n<dict>\n    <key>Label</key><string>",
    );
    s.append(LABEL);
    s.append("</string>\n    <key>ProgramArguments</key>\n    <array>\n");
    s.append(crate::text::page_of(&v).as_str());
    s.append(
        "    </array>\n    <key>RunAtLoad</key><true/>\n    <key>KeepAlive</key><true/>\n    <key>ThrottleInterval</key><integer>1</integer>\n    <key>ExitTimeOut</key><integer>60</integer>\n    <key>StandardErrorPath</key><string>",
    );
    s.append(ERRLOG);
    s.append("</string>\n</dict>\n</plist>\n");
    s
}

// ---------------------------------------------------------------------
// What is installed.
// ---------------------------------------------------------------------

/// The directory of the settings, where their file sources are.
pub fn base_of(settings: &str) -> (r: String)
    ensures
        r@ == crate::paths::directory(settings@),
{
    dir_of(settings)
}

/// What `id -u` prints of root, or why not to go on.
pub fn require_root(id: &str) -> (r: Result<(), String>)
    ensures
        match r {
            Ok(()) => crate::text::trim(id@) == "0"@,
            Err(e) => crate::text::trim(id@) != "0"@ && e@ == "run with sudo"@,
        },
{
    if same(trim_of(id).as_str(), "0") {
        Ok(())
    } else {
        Err(String::from_str("run with sudo"))
    }
}

/// A file to be put beside the installed settings, and its mode.
#[derive(Debug)]
pub struct Put {
    pub path: String,
    pub mode: u32,
}

pub open spec fn puts_seen(v: Seq<Put>) -> Seq<(Seq<char>, u32)> {
    v.map_values(|p: Put| (p.path@, p.mode))
}

/// The file sources may be read by all, the tunnel files only by root:
/// they hold the keys.
pub open spec fn files_of(plan: crate::config::Plan) -> Seq<(Seq<char>, u32)> {
    crate::config::source_files(crate::config::all_sources(plan.lists)).map_values(
        |p: Seq<char>| (p, 0o644u32),
    ) + plan.tunnels.map_values(|t: crate::config::WrittenTunnel| (t.conf, 0o600u32))
}

/// The file sources and the tunnel files, at their paths beside the
/// settings.
pub fn put_files(settings: &Settings) -> (r: Vec<Put>)
    ensures
        puts_seen(r@) == files_of(settings@),
{
    let files = settings.files();
    let ghost a = crate::text::seen(files@).map_values(|p: Seq<char>| (p, 0o644u32));
    let ghost b = settings@.tunnels.map_values(
        |t: crate::config::WrittenTunnel| (t.conf, 0o600u32),
    );
    let mut v: Vec<Put> = Vec::new();
    let mut i: usize = 0;
    proof {
        assert(puts_seen(v@) =~= a.take(0));
    }
    while i < files.len()
        invariant
            i <= files@.len(),
            a == crate::text::seen(files@).map_values(|p: Seq<char>| (p, 0o644u32)),
            puts_seen(v@) == a.take(i as int),
        decreases files@.len() - i,
    {
        let p = Put { path: files[i].clone(), mode: 0o644 };
        proof {
            assert(puts_seen(v@.push(p)) =~= puts_seen(v@).push((p.path@, p.mode)));
            assert(a.take(i + 1) =~= a.take(i as int).push(a[i as int]));
        }
        v.push(p);
        i += 1;
    }
    proof {
        assert(a.take(i as int) =~= a);
        assert(a + b.take(0) =~= a);
    }
    let mut i: usize = 0;
    while i < settings.tunnels.len()
        invariant
            i <= settings.tunnels@.len(),
            b == settings@.tunnels.map_values(
                |t: crate::config::WrittenTunnel| (t.conf, 0o600u32),
            ),
            b.len() == settings.tunnels@.len(),
            puts_seen(v@) == a + b.take(i as int),
        decreases settings.tunnels@.len() - i,
    {
        let p = Put { path: settings.tunnels[i].conf.clone(), mode: 0o600 };
        proof {
            assert(settings@.tunnels[i as int] == settings.tunnels@[i as int]@);
            assert(puts_seen(v@.push(p)) =~= puts_seen(v@).push((p.path@, p.mode)));
            assert(a + b.take(i + 1) =~= (a + b.take(i as int)).push(b[i as int]));
        }
        v.push(p);
        i += 1;
    }
    proof {
        assert(b.take(i as int) =~= b);
    }
    v
}

pub open spec fn entries_line(source: Seq<char>, text: Seq<char>) -> Seq<char> {
    "source "@ + source + ": "@ + crate::text::decimal(
        crate::sources::entries(crate::sources::alone(text)),
    ) + " entries"@
}

fn show_entries(source: &str, n: usize) -> (r: String)
    ensures
        r@ == "source "@ + source@ + ": "@ + crate::text::decimal(n as nat) + " entries"@,
{
    let mut s = String::from_str("source ");
    s.append(source);
    s.append(": ");
    s.append(show(n as u128).as_str());
    s.append(" entries");
    s
}

/// A file source that was read: the line for the owner, or why the install
/// fails.
pub fn check_file(path: &str, got: &Result<String, String>) -> (r: Result<String, String>)
    ensures
        match crate::sources::got_seen(*got) {
            Err(e) => r matches Err(m) && m@ == path@ + ": "@ + e,
            Ok(text) => match crate::sources::refusal(text) {
                Some(e) => r matches Err(m) && m@ == path@ + ": "@ + e,
                None => r matches Ok(l) && l@ == entries_line(path@, text),
            },
        },
{
    let e = match got {
        Err(e) => e.clone(),
        Ok(text) => match check(text.as_str()) {
            Ok(n) => return Ok(show_entries(path, n)),
            Err(e) => e,
        },
    };
    let mut m = path.to_owned();
    m.append(": ");
    m.append(e.as_str());
    Err(m)
}

/// A URL that was fetched: the line for the owner, and whether the text
/// goes to the cache. One that fails keeps the copy in the cache if there
/// is one; without one, the install fails.
pub fn check_url(url: &str, got: &Result<String, String>, cached: bool) -> (r: Result<
    (String, bool),
    String,
>)
    ensures
        ({
            let fault = match crate::sources::got_seen(*got) {
                Err(e) => Some(e),
                Ok(text) => crate::sources::refusal(text),
            };
            match fault {
                None => r matches Ok((l, true)) && l@ == entries_line(url@, got->Ok_0@),
                Some(e) => if cached {
                    r matches Ok((l, false)) && l@ == "source "@ + url@ + ": "@ + e
                        + "; the cached copy stays"@
                } else {
                    r matches Err(m) && m@ == "source "@ + url@ + ": "@ + e
                },
            }
        }),
{
    let e = match got {
        Err(e) => e.clone(),
        Ok(text) => match check(text.as_str()) {
            Ok(n) => return Ok((show_entries(url, n), true)),
            Err(e) => e,
        },
    };
    let mut m = String::from_str("source ");
    m.append(url);
    m.append(": ");
    m.append(e.as_str());
    if cached {
        m.append("; the cached copy stays");
        Ok((m, false))
    } else {
        Err(m)
    }
}

/// What was installed, for the owner.
pub fn installed(settings: &Settings, files: usize, fetched: usize) -> (r: String)
    ensures
        r@ == "installed: "@ + LIBEXEC@ + "; settings with "@ + crate::text::decimal(
            settings@.rules.len(),
        ) + " rules, "@ + crate::text::decimal(settings@.tunnels.len()) + " tunnels, "@
            + crate::text::decimal(settings@.lists.len()) + " lists and "@ + crate::text::decimal(
            files as nat,
        ) + " files in "@ + ETC@ + "; "@ + crate::text::decimal(fetched as nat)
            + " sources fetched"@,
{
    proof {
        assert(settings@.rules.len() == settings.rules@.len());
        assert(settings@.tunnels.len() == settings.tunnels@.len());
        assert(settings@.lists.len() == settings.lists@.len());
    }
    let mut s = String::from_str("installed: ");
    s.append(LIBEXEC);
    s.append("; settings with ");
    s.append(show(settings.rules.len() as u128).as_str());
    s.append(" rules, ");
    s.append(show(settings.tunnels.len() as u128).as_str());
    s.append(" tunnels, ");
    s.append(show(settings.lists.len() as u128).as_str());
    s.append(" lists and ");
    s.append(show(files as u128).as_str());
    s.append(" files in ");
    s.append(ETC);
    s.append("; ");
    s.append(show(fetched as u128).as_str());
    s.append(" sources fetched");
    s
}

/// What is done about the command on the path.
#[derive(Clone, Copy, Debug, PartialEq, Eq, Structural)]
pub enum Linking {
    /// It is there.
    Done,
    /// A file of someone else is left alone.
    Left,
    /// It is made.
    Make,
}

/// The path of the command, however it is written.
pub open spec fn ours(t: Seq<char>) -> bool {
    &&& t.len() > 0 && t[0] == '/'
    &&& crate::config::path(t) == crate::config::path(bin_path("mac-gate"@))
}

fn is_ours(t: &str) -> (r: bool)
    ensures
        r == ours(t@),
{
    let v = chars_of(t);
    v.len() > 0 && v[0] == '/' && same_path(t, bin("mac-gate").as_str())
}

/// `points` is where the link points if it is one, `there` whether there
/// is anything by its name.
pub fn link(points: Option<&str>, there: bool) -> (r: Linking)
    ensures
        r == if (points matches Some(t) && ours(t@)) {
            Linking::Done
        } else if there {
            Linking::Left
        } else {
            Linking::Make
        },
{
    if let Some(t) = points {
        if is_ours(t) {
            return Linking::Done;
        }
    }
    if there {
        Linking::Left
    } else {
        Linking::Make
    }
}

/// Whether the link is ours to remove.
pub fn unlink(points: Option<&str>) -> (r: bool)
    ensures
        r == (points matches Some(t) && ours(t@)),
{
    match points {
        Some(t) => is_ours(t),
        None => false,
    }
}

/// What pgrep finds the daemon by.
pub fn daemon_pattern() -> (r: String)
    ensures
        r@ == bin_path("mac-gate"@) + " run .*"@,
{
    let mut s = bin("mac-gate");
    s.append(" run .*");
    s
}

// ---------------------------------------------------------------------
// The start.
// ---------------------------------------------------------------------

/// The last `n` of the lines.
pub open spec fn last_lines(text: Seq<char>, n: nat) -> Seq<Seq<char>> {
    let l = crate::text::lines(text);
    if l.len() <= n {
        l
    } else {
        l.skip(l.len() - n)
    }
}

pub fn tail(text: &str, n: usize) -> (r: String)
    ensures
        r@ == crate::text::join(last_lines(text@, n as nat), "\n"@),
{
    let lines = lines_of(text);
    let ghost all = crate::text::seen(lines@);
    let from: usize = if lines.len() > n {
        lines.len() - n
    } else {
        0
    };
    let mut v: Vec<String> = Vec::new();
    let mut i: usize = from;
    proof {
        assert(crate::text::seen(v@) =~= all.subrange(from as int, from as int));
    }
    while i < lines.len()
        invariant
            from <= i <= lines@.len(),
            all == crate::text::seen(lines@),
            crate::text::seen(v@) == all.subrange(from as int, i as int),
        decreases lines@.len() - i,
    {
        let s = lines[i].clone();
        proof {
            crate::text::lemma_seen_push(v@, s);
            assert(all.subrange(from as int, i + 1) =~= all.subrange(from as int, i as int).push(
                all[i as int],
            ));
        }
        v.push(s);
        i += 1;
    }
    proof {
        assert(all.subrange(from as int, all.len() as int) =~= last_lines(text@, n as nat));
    }
    join_of(&v, "\n")
}

/// What a start does next.
#[derive(Debug)]
pub enum Starting {
    /// The service is asked, then `answered`.
    Ask,
    /// A while passes, then `starting`.
    Again,
    /// On; the line for the owner.
    On(String),
    /// No answer in time: everything is taken back, lest the Mac stay
    /// without names. The line for the owner.
    TakeBack(String),
}

/// Whether the service is asked on 127.0.0.1:53 once more, so long after
/// its start: past the wait nothing is asked any more.
pub fn starting(took: u128) -> (r: Starting)
    ensures
        if took < READY_WAIT {
            r is Ask
        } else {
            r matches Starting::TakeBack(s) && s@ == "no answer on 127.0.0.1:53 in "@
                + crate::text::decimal((READY_WAIT / SECOND) as nat) + "s; taking back"@
        },
{
    if took < READY_WAIT {
        Starting::Ask
    } else {
        let mut s = String::from_str("no answer on 127.0.0.1:53 in ");
        s.append(show(READY_WAIT / SECOND).as_str());
        s.append("s; taking back");
        Starting::TakeBack(s)
    }
}

/// Whether the service answered, so long after its start. An answer counts
/// whenever it comes.
pub fn answered(yes: bool, took: u128) -> (r: Starting)
    ensures
        if yes {
            r matches Starting::On(s) && s@ == "on: answers on 127.0.0.1:53 after "@
                + crate::text::decimal((took / MILLI) as nat) + "ms"@
        } else {
            r is Again
        },
{
    if yes {
        let mut s = String::from_str("on: answers on 127.0.0.1:53 after ");
        s.append(show(took / MILLI).as_str());
        s.append("ms");
        Starting::On(s)
    } else {
        Starting::Again
    }
}

/// Why a start failed: the last lines of the journal since then, and of
/// the errors.
pub fn not_started(journal: &str, errors: &str) -> (r: String)
    ensures
        r@ == "not started\njournal:\n"@ + crate::text::join(last_lines(journal@, 10), "\n"@)
            + "\nerrors:\n"@ + crate::text::join(last_lines(errors@, 10), "\n"@),
{
    let mut s = String::from_str("not started\njournal:\n");
    s.append(tail(journal, 10).as_str());
    s.append("\nerrors:\n");
    s.append(tail(errors, 10).as_str());
    s
}

/// The first of the lines that has `word` in it.
pub open spec fn first_with(lines: Seq<Seq<char>>, word: Seq<char>) -> Option<Seq<char>>
    decreases lines.len(),
{
    if lines.len() == 0 {
        None
    } else if crate::text::has(lines[0], word) {
        Some(lines[0])
    } else {
        first_with(lines.drop_first(), word)
    }
}

/// A line of the journal without its time.
pub open spec fn untimed(line: Seq<char>) -> Seq<char> {
    match crate::text::around(line, ' ') {
        Some((_, rest)) => rest,
        None => line,
    }
}

fn find_line(lines: &Vec<String>, word: &str) -> (r: Option<String>)
    ensures
        crate::tunnel::text_seen(r) == first_with(crate::text::seen(lines@), word@),
{
    let ghost all = crate::text::seen(lines@);
    let mut i: usize = 0;
    proof {
        assert(all.skip(0) =~= all);
    }
    while i < lines.len()
        invariant
            i <= lines@.len(),
            all == crate::text::seen(lines@),
            first_with(all, word@) == first_with(all.skip(i as int), word@),
        decreases lines@.len() - i,
    {
        proof {
            assert(all.skip(i as int)[0] == lines@[i as int]@);
            assert(all.skip(i as int).drop_first() =~= all.skip(i + 1));
        }
        if has_of(lines[i].as_str(), word) {
            return Some(lines[i].clone());
        }
        i += 1;
    }
    None
}

fn without_time(line: &str) -> (r: String)
    ensures
        r@ == untimed(line@),
{
    match around_of(line, ' ') {
        Some((_, rest)) => rest,
        None => line.to_owned(),
    }
}

/// What the owner is told once the journal says that a tunnel carries.
pub open spec fn carried(journal: Seq<char>) -> Option<Seq<Seq<char>>> {
    let lines = crate::text::lines(journal);
    match first_with(lines, " confirm "@) {
        None => None,
        Some(l) => Some(
            match first_with(lines, " dns "@) {
                Some(d) => seq!["tunnel: "@ + untimed(l), untimed(d)],
                None => seq!["tunnel: "@ + untimed(l)],
            },
        ),
    }
}

/// What a wait for the first tunnel comes to.
#[derive(Debug)]
pub enum Confirming {
    /// Looked again in a while.
    Again,
    /// Over; the lines for the owner.
    Done(Vec<String>),
}

/// The journal since the start, so long after it. A tunnel that is not
/// confirmed in time is no failure: listed names are refused meanwhile.
pub fn confirming(journal: &str, took: u128) -> (r: Confirming)
    ensures
        match r {
            Confirming::Again => took < CONFIRM_WAIT && carried(journal@) is None,
            Confirming::Done(v) => if took < CONFIRM_WAIT {
                carried(journal@) == Some(crate::text::seen(v@))
            } else {
                crate::text::seen(v@) == seq![
                    "tunnel not confirmed yet; listed names are refused meanwhile; journal "@
                        + JOURNAL@,
                ]
            },
        },
{
    let mut v: Vec<String> = Vec::new();
    if took >= CONFIRM_WAIT {
        let mut s = String::from_str(
            "tunnel not confirmed yet; listed names are refused meanwhile; journal ",
        );
        s.append(JOURNAL);
        proof {
            crate::text::lemma_seen_push(v@, s);
        }
        v.push(s);
        proof {
            assert(crate::text::seen(v@) =~= seq![s@]);
        }
        return Confirming::Done(v);
    }
    let lines = lines_of(journal);
    match find_line(&lines, " confirm ") {
        None => Confirming::Again,
        Some(l) => {
            let mut s = String::from_str("tunnel: ");
            s.append(without_time(l.as_str()).as_str());
            proof {
                crate::text::lemma_seen_push(v@, s);
            }
            v.push(s);
            if let Some(d) = find_line(&lines, " dns ") {
                let t = without_time(d.as_str());
                proof {
                    crate::text::lemma_seen_push(v@, t);
                }
                v.push(t);
            }
            proof {
                assert(crate::text::seen(v@) =~= carried(journal@)->0);
            }
            Confirming::Done(v)
        },
    }
}

/// Whether the service that was stopped is still waited for; an error once
/// that is too long.
pub fn exit_wait(running: bool, took: u128) -> (r: Result<bool, String>)
    ensures
        if !running {
            r == Ok::<bool, String>(false)
        } else if took < EXIT_WAIT {
            r == Ok::<bool, String>(true)
        } else {
            r matches Err(e) && e@ == "the daemon does not exit"@
        },
{
    if !running {
        Ok(false)
    } else if took < EXIT_WAIT {
        Ok(true)
    } else {
        Err(String::from_str("the daemon does not exit"))
    }
}

// ---------------------------------------------------------------------
// Laws.
// ---------------------------------------------------------------------

/// The service runs the installed program on the installed settings and the
/// state, as the DNS of the Mac.
pub proof fn lemma_what_the_service_runs(s: Seq<char>)
    ensures
        bin_path(s) == crate::pf::below("/usr/local/libexec/mac-gate"@, s),
        settings_file() == crate::pf::below("/usr/local/etc/mac-gate"@, "mac-gate.toml"@),
        service_args() == seq![
            bin_path("mac-gate"@),
            "run"@,
            "--config"@,
            settings_file(),
            "--state"@,
            "/var/db/mac-gate/routes"@,
            "--journal"@,
            "/var/log/mac-gate.log"@,
            "--libexec"@,
            "/usr/local/libexec/mac-gate"@,
            "--system-dns"@,
        ],
        string_line(s) == "        <string>"@ + s + "</string>"@,
{
}

/// Copied are the file sources of every list, to be read by all, and the
/// tunnel files, to be read by root alone: they hold the keys.
pub proof fn lemma_what_is_copied(plan: crate::config::Plan, i: int)
    ensures
        ({
            let s = crate::config::source_files(crate::config::all_sources(plan.lists));
            let f = files_of(plan);
            &&& f.len() == s.len() + plan.tunnels.len()
            &&& 0 <= i < s.len() ==> f[i] == (s[i], 0o644u32)
            &&& 0 <= i < plan.tunnels.len() ==> f[s.len() + i] == (plan.tunnels[i].conf, 0o600u32)
        }),
{
}

/// A link is ours when it points at the installed program from the root,
/// however the path is written.
pub proof fn lemma_which_links_are_ours(t: Seq<char>)
    ensures
        ours(t) <==> t.len() > 0 && t[0] == '/' && crate::config::path(t) == crate::config::path(
            crate::pf::below("/usr/local/libexec/mac-gate"@, "mac-gate"@),
        ),
{
}

/// The last lines are the end of the lines, as many as there are up to the
/// number asked for.
pub proof fn lemma_the_last_lines(text: Seq<char>, n: nat)
    ensures
        ({
            let l = crate::text::lines(text);
            let r = last_lines(text, n);
            &&& r.len() == if l.len() <= n {
                l.len()
            } else {
                n
            }
            &&& forall|i: int| 0 <= i < r.len() ==> #[trigger] r[i] == l[l.len() - r.len() + i]
        }),
{
}

/// The first line with a word in it, and none before it.
pub proof fn lemma_the_first_line_with(lines: Seq<Seq<char>>, word: Seq<char>, i: int)
    requires
        0 <= i <= lines.len(),
        forall|j: int| 0 <= j < i ==> !crate::text::has(#[trigger] lines[j], word),
        i < lines.len() ==> crate::text::has(lines[i], word),
    ensures
        first_with(lines, word) == if i < lines.len() {
            Some(lines[i])
        } else {
            None
        },
    decreases i,
{
    if i > 0 {
        let r = lines.drop_first();
        assert(!crate::text::has(lines[0], word));
        assert forall|j: int| 0 <= j < i - 1 implies !crate::text::has(
            #[trigger] r[j],
            word,
        ) by {
            assert(r[j] == lines[j + 1]);
        }
        lemma_the_first_line_with(r, word, i - 1);
    }
}

/// A line is told without the time before its first space.
pub proof fn lemma_a_line_without_its_time(time: Seq<char>, rest: Seq<char>)
    requires
        !time.contains(' '),
    ensures
        untimed(time + seq![' '] + rest) == rest,
        untimed(time) == time,
{
    crate::text::lemma_parted(time, ' ', rest);
}

/// The owner is told of the tunnel once a line of the journal confirms one,
/// and then of the DNS if a line speaks of it.
pub proof fn lemma_what_the_owner_is_told(journal: Seq<char>)
    ensures
        ({
            let lines = crate::text::lines(journal);
            let up = first_with(lines, " confirm "@);
            let dns = first_with(lines, " dns "@);
            &&& carried(journal) is Some <==> up is Some
            &&& up is Some && dns is None ==> carried(journal) == Some(
                seq!["tunnel: "@ + untimed(up->0)],
            )
            &&& up is Some && dns is Some ==> carried(journal) == Some(
                seq!["tunnel: "@ + untimed(up->0), untimed(dns->0)],
            )
        }),
{
}

/// How long is waited: half a minute for the first answer, as long for the
/// first tunnel, and seventy seconds for the end.
pub proof fn lemma_how_long_is_waited(took: u128)
    ensures
        took < READY_WAIT <==> took < 30_000_000_000,
        took < CONFIRM_WAIT <==> took < 30_000_000_000,
        took < EXIT_WAIT <==> took < 70_000_000_000,
        READY_WAIT / SECOND == 30,
{
}

} // verus!
