//! Sources of the lists: files beside the settings, read again when they
//! change, and URLs, fetched once a day into a cache the lists are built
//! from. A fetch that fails or brings no entries leaves the last good copy
//! in place, and is tried again in an hour.

use vstd::prelude::*;
use vstd::string::*;

use crate::config::{Settings, Source};
use crate::degraded::{elapsed, LONGEST, MINUTE};
use crate::lists::Lists;
use crate::pf::join_path;
use crate::text::{same, show, show_bool, show_hex};

verus! {

pub const HOUR: u128 = 60 * MINUTE;

pub const EVERY: u128 = 24 * HOUR;

pub const RETRY: u128 = HOUR;

/// How long a fetch may take, in seconds.
pub const FETCH_LIMIT: u64 = 60;

pub const MAX_BYTES: &'static str = "20000000";

pub const CURL: &'static str = "/usr/bin/curl";

/// The owner asks for a fetch now; next to the state file.
pub const UPDATE_FLAG: &'static str = "update";

/// The cached copies of the URLs, next to the state file.
pub const CACHE: &'static str = "sources";

// ---------------------------------------------------------------------
// The cache.
// ---------------------------------------------------------------------

/// FNV-1a, of 64 bits.
pub open spec fn fnv(bytes: Seq<u8>) -> u64
    decreases bytes.len(),
{
    if bytes.len() == 0 {
        0xcbf2_9ce4_8422_2325
    } else {
        let h = fnv(bytes.drop_last()) ^ (bytes.last() as u64);
        ((h * 0x0100_0000_01b3) % 0x1_0000_0000_0000_0000) as u64
    }
}

fn fnv1a(text: &str) -> (r: u64)
    ensures
        r == fnv(vstd::utf8::encode_utf8(text@)),
{
    let b = text.as_bytes();
    let mut h: u64 = 0xcbf2_9ce4_8422_2325;
    let mut i: usize = 0;
    proof {
        assert(b@.take(0) =~= seq![]);
    }
    while i < b.len()
        invariant
            i <= b@.len(),
            h == fnv(b@.take(i as int)),
        decreases b@.len() - i,
    {
        proof {
            assert(b@.take(i + 1).drop_last() =~= b@.take(i as int));
            assert(b@.take(i + 1).last() == b@[i as int]);
        }
        h = (h ^ (b[i] as u64)).wrapping_mul(0x0100_0000_01b3);
        i += 1;
    }
    proof {
        assert(b@.take(i as int) =~= b@);
    }
    h
}

/// The cached copy of a URL.
pub open spec fn cached(dir: Seq<char>, url: Seq<char>) -> Seq<char> {
    crate::pf::below(
        dir,
        crate::text::hex(fnv(vstd::utf8::encode_utf8(url)) as nat, 16) + ".lst"@,
    )
}

/// The cached copy of a URL: named by a hash of it, so that a changed URL
/// does not read the copy of the old one.
pub fn cache_file(dir: &str, url: &str) -> (r: String)
    ensures
        r@ == cached(dir@, url@),
{
    let mut s = show_hex(fnv1a(url), 16);
    s.append(".lst");
    join_path(dir, s.as_str())
}

// ---------------------------------------------------------------------
// What passes for a list.
// ---------------------------------------------------------------------

/// What a text holds as a list of its own.
pub open spec fn alone(text: Seq<char>) -> crate::lists::Contents {
    crate::lists::Contents::empty().with("check"@, text)
}

pub open spec fn entries(c: crate::lists::Contents) -> nat {
    c.suffixes.len() + c.subnets.len()
}

/// Why a text is refused: no entry at all, or more lines that are no entry
/// than entries, a page of something else.
pub open spec fn refusal(text: Seq<char>) -> Option<Seq<char>> {
    let c = alone(text);
    if entries(c) == 0 {
        Some("no entries"@)
    } else if c.rejected.len() > entries(c) {
        Some(
            crate::text::decimal(c.rejected.len()) + " lines that are no entry against "@
                + crate::text::decimal(entries(c)) + " entries"@,
        )
    } else {
        None
    }
}

proof fn lemma_entries(c: crate::lists::Contents, name: Seq<char>, raw: Seq<Seq<char>>)
    requires
        c.suffixes.dom().finite(),
    ensures
        c.with_lines(name, raw).suffixes.dom().finite(),
        entries(c.with_lines(name, raw)) <= entries(c) + raw.len(),
    decreases raw.len(),
{
    if raw.len() > 0 {
        lemma_entries(c, name, raw.drop_last());
    }
}

proof fn lemma_lines_len(s: Seq<char>)
    ensures
        crate::text::lines(s).len() <= s.len(),
    decreases s.len(),
{
    crate::text::lemma_first(s, crate::text::one('\n'));
    let n = crate::text::first(s, crate::text::one('\n')) as int;
    if s.len() > 0 && n < s.len() {
        lemma_lines_len(s.skip(n + 1));
    }
}

/// The entries of a source, or why it is refused.
pub fn check(text: &str) -> (r: Result<usize, String>)
    ensures
        match r {
            Ok(n) => refusal(text@) is None && n == entries(alone(text@)),
            Err(e) => refusal(text@) == Some(e@),
        },
{
    let mut l = Lists::new();
    l.add("check", text);
    let room = text.unicode_len();
    proof {
        let c = crate::lists::Contents::empty();
        let named = crate::lists::Contents {
            names: crate::lists::joined(c.names, "check"@),
            ..c
        };
        assert(c.suffixes.dom() =~= Set::empty());
        lemma_entries(named, "check"@, crate::text::lines(text@));
        lemma_lines_len(text@);
        assert(entries(named) == 0);
    }
    let n = l.entry_count();
    let rejected = l.rejected();
    let bad = rejected.len();
    proof {
        assert(crate::text::seen(rejected@).len() == l@.rejected.len());
    }
    if n == 0 {
        return Err(String::from_str("no entries"));
    }
    if bad > n {
        let mut e = show(bad as u128);
        e.append(" lines that are no entry against ");
        e.append(show(n as u128).as_str());
        e.append(" entries");
        return Err(e);
    }
    Ok(n)
}

// ---------------------------------------------------------------------
// A fetch.
// ---------------------------------------------------------------------

/// What curl is run with.
pub open spec fn curl_args(url: Seq<char>, iface: Option<Seq<char>>) -> Seq<Seq<char>> {
    let flags = seq![
        "-f"@,
        "-s"@,
        "-S"@,
        "-L"@,
        "--max-redirs"@,
        "5"@,
        "--proto"@,
        "=http,https"@,
        "--max-time"@,
        crate::text::decimal(FETCH_LIMIT as nat),
        "--max-filesize"@,
        MAX_BYTES@,
    ];
    (match iface {
        Some(i) => flags + seq!["--interface"@, i],
        None => flags,
    }) + seq![url]
}

fn add_arg(v: &mut Vec<String>, a: &str)
    ensures
        crate::text::seen(final(v)@) == crate::text::seen(old(v)@).push(a@),
{
    let s = a.to_owned();
    proof {
        crate::text::lemma_seen_push(v@, s);
    }
    v.push(s);
}

/// The arguments of curl. An HTTP error, a redirect loop or an oversize
/// body fails; the body of an error page never passes for the list.
pub fn fetch_args(url: &str, iface: Option<&str>) -> (r: Vec<String>)
    ensures
        crate::text::seen(r@) == curl_args(
            url@,
            match iface {
                Some(i) => Some(i@),
                None => None,
            },
        ),
{
    let mut v: Vec<String> = Vec::new();
    proof {
        assert(crate::text::seen(v@) =~= seq![]);
    }
    add_arg(&mut v, "-f");
    add_arg(&mut v, "-s");
    add_arg(&mut v, "-S");
    add_arg(&mut v, "-L");
    add_arg(&mut v, "--max-redirs");
    add_arg(&mut v, "5");
    add_arg(&mut v, "--proto");
    add_arg(&mut v, "=http,https");
    add_arg(&mut v, "--max-time");
    add_arg(&mut v, show(FETCH_LIMIT as u128).as_str());
    add_arg(&mut v, "--max-filesize");
    add_arg(&mut v, MAX_BYTES);
    if let Some(i) = iface {
        add_arg(&mut v, "--interface");
        add_arg(&mut v, i);
    }
    add_arg(&mut v, url);
    proof {
        assert(crate::text::seen(v@) =~= curl_args(
            url@,
            match iface {
                Some(i) => Some(i@),
                None => None,
            },
        ));
    }
    v
}

/// The way a text came.
#[derive(Clone, Copy, Debug, PartialEq, Eq, Structural)]
pub enum Via {
    Tunnel,
    Direct,
}

impl Via {
    pub open spec fn shown(self) -> Seq<char> {
        match self {
            Via::Tunnel => "tunnel"@,
            Via::Direct => "direct"@,
        }
    }

    pub fn name(self) -> (r: &'static str)
        ensures
            r@ == self.shown(),
    {
        match self {
            Via::Tunnel => "tunnel",
            Via::Direct => "direct",
        }
    }
}

pub open spec fn got_seen(r: Result<String, String>) -> Result<Seq<char>, Seq<char>> {
    match r {
        Ok(s) => Ok(s@),
        Err(e) => Err(e@),
    }
}

pub open spec fn fetched_seen(r: Result<(String, Via), String>) -> Result<
    (Seq<char>, Via),
    Seq<char>,
> {
    match r {
        Ok((s, v)) => Ok((s@, v)),
        Err(e) => Err(e@),
    }
}

/// What the next try of a fetch is.
#[derive(Debug)]
pub enum Fetching {
    /// Over: the text and the way it came.
    Done(String, Via),
    /// Directly; what failed before.
    Direct(String),
}

/// Through the tunnel when there is one, else or failing that, directly:
/// after the tunnel, or without one.
pub fn after_tunnel(got: Option<Result<String, String>>) -> (r: Fetching)
    ensures
        match r {
            Fetching::Done(text, via) => got matches Some(Ok(t)) && text@ == t@ && via
                == Via::Tunnel,
            Fetching::Direct(tried) => match got {
                None => tried@ == Seq::<char>::empty(),
                Some(Err(e)) => tried@ == "tunnel: "@ + e@ + "; "@,
                Some(Ok(_)) => false,
            },
        },
{
    match got {
        None => Fetching::Direct(String::new()),
        Some(Ok(text)) => Fetching::Done(text, Via::Tunnel),
        Some(Err(e)) => {
            let mut s = String::from_str("tunnel: ");
            s.append(e.as_str());
            s.append("; ");
            Fetching::Direct(s)
        },
    }
}

/// After the direct way; `tried` is what failed before it.
pub fn after_direct(tried: String, got: Result<String, String>) -> (r: Result<
    (String, Via),
    String,
>)
    ensures
        match got {
            Ok(text) => r matches Ok((t, via)) && t@ == text@ && via == Via::Direct,
            Err(e) => r matches Err(m) && m@ == tried@ + "direct: "@ + e@,
        },
{
    match got {
        Ok(text) => Ok((text, Via::Direct)),
        Err(e) => {
            let mut s = tried;
            s.append("direct: ");
            s.append(e.as_str());
            Err(s)
        },
    }
}

// ---------------------------------------------------------------------
// The lists from their sources.
// ---------------------------------------------------------------------

/// Where a source is read from.
#[derive(Debug)]
pub struct Place {
    /// The list it is of.
    pub list: String,
    /// The source as it is shown.
    pub shown: String,
    pub path: String,
}

/// A place as a mathematical value.
pub struct Spot {
    pub list: Seq<char>,
    pub shown: Seq<char>,
    pub path: Seq<char>,
}

impl Place {
    pub open spec fn view(&self) -> Spot {
        Spot { list: self.list@, shown: self.shown@, path: self.path@ }
    }
}

pub open spec fn spots(v: Seq<Place>) -> Seq<Spot> {
    v.map_values(|p: Place| p@)
}

/// A file stands beside the settings, the copy of a URL in the cache.
pub open spec fn spot(
    list: Seq<char>,
    o: crate::config::Origin,
    base: Seq<char>,
    cache: Seq<char>,
) -> Spot {
    match o {
        crate::config::Origin::File(p) => Spot {
            list,
            shown: p,
            path: crate::pf::below(base, p),
        },
        crate::config::Origin::Url(u) => Spot { list, shown: u, path: cached(cache, u) },
    }
}

pub open spec fn list_spots(f: crate::config::Feed, base: Seq<char>, cache: Seq<char>) -> Seq<
    Spot,
> {
    f.sources.map_values(|o: crate::config::Origin| spot(f.name, o, base, cache))
}

/// The places of every source, in the order of the settings.
pub open spec fn all_spots(l: Seq<crate::config::Feed>, base: Seq<char>, cache: Seq<char>) -> Seq<
    Spot,
>
    decreases l.len(),
{
    if l.len() == 0 {
        seq![]
    } else {
        all_spots(l.drop_last(), base, cache) + list_spots(l.last(), base, cache)
    }
}

fn place(list: &str, source: &Source, base: &str, cache: &str) -> (r: Place)
    ensures
        r@ == spot(list@, source@, base@, cache@),
{
    let path = match source {
        Source::File(p) => join_path(base, p.as_str()),
        Source::Url(u) => cache_file(cache, u.as_str()),
    };
    Place { list: list.to_owned(), shown: source.to_string(), path }
}

/// Where every source is read from, in the order of the settings.
pub fn places(settings: &Settings, base: &str, cache: &str) -> (r: Vec<Place>)
    ensures
        spots(r@) == all_spots(settings@.lists, base@, cache@),
{
    let ghost all = settings@.lists;
    let mut v: Vec<Place> = Vec::new();
    let mut i: usize = 0;
    proof {
        assert(all.take(0) =~= seq![]);
        assert(spots(v@) =~= seq![]);
    }
    while i < settings.lists.len()
        invariant
            i <= settings.lists@.len(),
            all == settings@.lists,
            spots(v@) == all_spots(all.take(i as int), base@, cache@),
        decreases settings.lists@.len() - i,
    {
        let ghost before = spots(v@);
        let ghost f = settings.lists@[i as int]@;
        let ghost mine = list_spots(f, base@, cache@);
        let mut j: usize = 0;
        proof {
            assert(all.take(i + 1).drop_last() =~= all.take(i as int));
            assert(all.take(i + 1).last() == f);
            assert(before + mine.take(0) =~= before);
            assert(f.sources.len() == settings.lists@[i as int].sources@.len());
        }
        while j < settings.lists[i].sources.len()
            invariant
                i < settings.lists@.len(),
                j <= settings.lists@[i as int].sources@.len(),
                f == settings.lists@[i as int]@,
                mine == list_spots(f, base@, cache@),
                f.sources.len() == settings.lists@[i as int].sources@.len(),
                spots(v@) == before + mine.take(j as int),
            decreases settings.lists@[i as int].sources@.len() - j,
        {
            let p = place(
                settings.lists[i].name.as_str(),
                &settings.lists[i].sources[j],
                base,
                cache,
            );
            proof {
                assert(f.sources[j as int] == settings.lists@[i as int].sources@[j as int]@);
                assert(mine[j as int] == p@);
                assert(spots(v@.push(p)) =~= spots(v@).push(p@));
                assert(before + mine.take(j + 1) =~= (before + mine.take(j as int)).push(
                    mine[j as int],
                ));
            }
            v.push(p);
            j += 1;
        }
        proof {
            assert(mine.take(j as int) =~= mine);
        }
        i += 1;
    }
    proof {
        assert(all.take(i as int) =~= all);
    }
    v
}

/// The lists with one more source read.
pub open spec fn with_read(
    c: crate::lists::Contents,
    s: Spot,
    got: Result<Seq<char>, Seq<char>>,
) -> crate::lists::Contents {
    match got {
        Ok(text) => c.with(s.list, text),
        Err(_) => c,
    }
}

/// What was read, in order: one text or error for each place.
pub open spec fn reads_seen(v: Seq<Result<String, String>>) -> Seq<Result<Seq<char>, Seq<char>>> {
    v.map_values(|r: Result<String, String>| got_seen(r))
}

pub open spec fn all_read(s: Seq<Spot>, got: Seq<Result<Seq<char>, Seq<char>>>) -> crate::lists::Contents
    decreases s.len(),
{
    if s.len() == 0 || got.len() != s.len() {
        crate::lists::Contents::empty()
    } else {
        with_read(all_read(s.drop_last(), got.drop_last()), s.last(), got.last())
    }
}

/// The sources that could not be read, named.
pub open spec fn missing(s: Seq<Spot>, got: Seq<Result<Seq<char>, Seq<char>>>) -> Seq<Seq<char>>
    decreases s.len(),
{
    if s.len() == 0 || got.len() != s.len() {
        seq![]
    } else {
        let rest = missing(s.drop_last(), got.drop_last());
        match got.last() {
            Ok(_) => rest,
            Err(e) => rest.push(s.last().list + " "@ + s.last().shown + ": "@ + e),
        }
    }
}

/// The lists from the files and the cached copies, in the order of the
/// settings. A source that cannot be read is missing, and named.
pub fn build(places: &Vec<Place>, got: &Vec<Result<String, String>>) -> (r: (Lists, Vec<String>))
    requires
        got@.len() == places@.len(),
    ensures
        r.0.sound(),
        r.0@ == all_read(spots(places@), reads_seen(got@)),
        crate::text::seen(r.1@) == missing(spots(places@), reads_seen(got@)),
{
    let ghost s = spots(places@);
    let ghost g = reads_seen(got@);
    let mut lists = Lists::new();
    let mut gone: Vec<String> = Vec::new();
    let mut i: usize = 0;
    proof {
        assert(s.take(0) =~= seq![]);
        assert(crate::text::seen(gone@) =~= seq![]);
    }
    while i < places.len()
        invariant
            i <= places@.len(),
            got@.len() == places@.len(),
            s == spots(places@),
            g == reads_seen(got@),
            lists.sound(),
            lists@ == all_read(s.take(i as int), g.take(i as int)),
            crate::text::seen(gone@) == missing(s.take(i as int), g.take(i as int)),
        decreases places@.len() - i,
    {
        proof {
            assert(s.take(i + 1).drop_last() =~= s.take(i as int));
            assert(g.take(i + 1).drop_last() =~= g.take(i as int));
            assert(s.take(i + 1).last() == places@[i as int]@);
            assert(g.take(i + 1).last() == got_seen(got@[i as int]));
        }
        match &got[i] {
            Ok(text) => {
                lists.add(places[i].list.as_str(), text.as_str());
            },
            Err(e) => {
                let mut m = places[i].list.clone();
                m.append(" ");
                m.append(places[i].shown.as_str());
                m.append(": ");
                m.append(e.as_str());
                proof {
                    crate::text::lemma_seen_push(gone@, m);
                }
                gone.push(m);
            },
        }
        i += 1;
    }
    proof {
        assert(s.take(i as int) =~= s);
        assert(g.take(i as int) =~= g);
    }
    (lists, gone)
}

// ---------------------------------------------------------------------
// Keeping them current.
// ---------------------------------------------------------------------

/// How long until a copy fetched at `fetched` is due again; now without
/// one.
pub open spec fn wait(fetched: Option<u128>, now: u128) -> u128 {
    match fetched {
        Some(t) => crate::degraded::since(now, (t + EVERY) as u128),
        None => 0,
    }
}

pub fn due_in(fetched: Option<u128>, now: u128) -> (r: u128)
    requires
        fetched matches Some(t) ==> t <= LONGEST,
    ensures
        r == wait(fetched, now),
{
    match fetched {
        Some(t) => elapsed(now, t + EVERY),
        None => 0,
    }
}

/// When each URL is due, a URL once.
pub type Times = Seq<(Seq<char>, u128)>;

pub open spec fn times_seen(v: Seq<(String, u128)>) -> Times {
    v.map_values(|e: (String, u128)| (e.0@, e.1))
}

/// Where a URL stands; past the end without it.
pub open spec fn at_url(t: Times, url: Seq<char>) -> nat
    decreases t.len(),
{
    if t.len() == 0 {
        0
    } else if t[0].0 == url {
        0
    } else {
        1 + at_url(t.drop_first(), url)
    }
}

/// A URL due at a time, in place of what it was.
pub open spec fn with_due(t: Times, url: Seq<char>, at: u128) -> Times {
    let i = at_url(t, url) as int;
    if i < t.len() {
        t.update(i, (url, at))
    } else {
        t.push((url, at))
    }
}

pub proof fn lemma_at_url(t: Times, url: Seq<char>, n: int)
    requires
        0 <= n <= t.len(),
        forall|i: int| 0 <= i < n ==> (#[trigger] t[i]).0 != url,
        n < t.len() ==> t[n].0 == url,
    ensures
        at_url(t, url) == n,
    decreases n,
{
    if n > 0 {
        let rest = t.drop_first();
        assert forall|i: int| 0 <= i < n - 1 implies (#[trigger] rest[i]).0 != url by {
            assert(rest[i] == t[i + 1]);
        }
        assert(t[0].0 != url);
        lemma_at_url(rest, url, n - 1);
    }
}

/// The URLs that are due.
pub open spec fn due_urls(t: Times, now: u128) -> Seq<Seq<char>>
    decreases t.len(),
{
    if t.len() == 0 {
        seq![]
    } else if t.last().1 <= now {
        due_urls(t.drop_last(), now).push(t.last().0)
    } else {
        due_urls(t.drop_last(), now)
    }
}

/// The URLs that are due put off, to be set again by their result.
pub open spec fn put_off(t: Times, now: u128) -> Times {
    t.map_values(
        |e: (Seq<char>, u128)|
            if e.1 <= now {
                (e.0, (now + RETRY) as u128)
            } else {
                e
            },
    )
}

/// A file source and its modification time as last read.
#[derive(Debug)]
pub struct Stamp {
    pub path: String,
    pub time: Option<u128>,
}

pub open spec fn stamps_seen(v: Seq<Stamp>) -> Seq<(Seq<char>, Option<u128>)> {
    v.map_values(|s: Stamp| (s.path@, s.time))
}

/// The lines for files whose time is another than it was.
pub open spec fn changes(s: Seq<(Seq<char>, Option<u128>)>, now: Seq<Option<u128>>) -> Seq<
    Seq<char>,
>
    decreases s.len(),
{
    if s.len() == 0 || now.len() != s.len() {
        seq![]
    } else {
        let rest = changes(s.drop_last(), now.drop_last());
        if now.last() != s.last().1 {
            rest.push("source "@ + s.last().0 + " changed"@)
        } else {
            rest
        }
    }
}

/// What a fetched text comes to.
#[derive(Debug)]
pub enum Taken {
    /// Refused, or not fetched: the copy in place stays. The line for the
    /// journal.
    Kept(String),
    /// The copy is written, even when the same: its time says when it was
    /// fetched.
    Write { path: String, entries: usize, new: bool },
}

/// Keeps the lists current: looks at the files every step, fetches the
/// URLs when due.
#[derive(Debug)]
pub struct Updater {
    pub cache: String,
    /// The file sources and their modification times as last read.
    pub stamps: Vec<Stamp>,
    pub due: Vec<(String, u128)>,
    /// A fetch is under way.
    pub busy: bool,
}

pub open spec fn due_later(n: Times, urls: Seq<Seq<char>>, fetched: Seq<Option<u128>>, wall: u128, now: u128) -> Times
    decreases urls.len(),
{
    if urls.len() == 0 || fetched.len() != urls.len() {
        n
    } else {
        with_due(
            due_later(n, urls.drop_last(), fetched.drop_last(), wall, now),
            urls.last(),
            (now + wait(fetched.last(), wall)) as u128,
        )
    }
}

impl Updater {
    pub open spec fn times(&self) -> Times {
        times_seen(self.due@)
    }

    fn set_due(&mut self, url: &str, at: u128)
        ensures
            final(self).times() == with_due(old(self).times(), url@, at),
            final(self).cache == old(self).cache,
            final(self).stamps == old(self).stamps,
            final(self).busy == old(self).busy,
    {
        let ghost t = self.times();
        let mut i: usize = 0;
        while i < self.due.len() && !same(self.due[i].0.as_str(), url)
            invariant
                *self == *old(self),
                t == self.times(),
                i <= self.due@.len(),
                forall|j: int| 0 <= j < i ==> (#[trigger] t[j]).0 != url@,
            decreases self.due@.len() - i,
        {
            proof {
                assert(t[i as int].0 == self.due@[i as int].0@);
            }
            i += 1;
        }
        proof {
            if i < self.due@.len() {
                assert(t[i as int].0 == self.due@[i as int].0@);
            }
            lemma_at_url(t, url@, i as int);
        }
        if i < self.due.len() {
            let ghost before = self.due@;
            self.due[i] = (url.to_owned(), at);
            proof {
                assert(self.times() =~= t.update(i as int, (url@, at)));
            }
        } else {
            let ghost before = self.due@;
            self.due.push((url.to_owned(), at));
            proof {
                assert(self.times() =~= t.push((url@, at)));
            }
        }
    }

    /// A URL is due a day after its cached copy was written: the copy's
    /// time says when, across restarts. `fetched` has the times of the
    /// copies, `stamps` those of the files.
    pub fn new(
        cache: &str,
        urls: &Vec<String>,
        fetched: &Vec<Option<u128>>,
        stamps: Vec<Stamp>,
        wall: u128,
        now: u128,
    ) -> (r: Updater)
        requires
            fetched@.len() == urls@.len(),
            now <= LONGEST,
            forall|i: int|
                0 <= i < fetched@.len() ==> ((#[trigger] fetched@[i]) matches Some(t) ==> t
                    <= LONGEST),
        ensures
            r.cache@ == cache@,
            r.stamps == stamps,
            !r.busy,
            r.times() == due_later(
                seq![],
                crate::text::seen(urls@),
                fetched@,
                wall,
                now,
            ),
    {
        let mut u = Updater { cache: cache.to_owned(), stamps, due: Vec::new(), busy: false };
        let ghost all = crate::text::seen(urls@);
        let mut i: usize = 0;
        proof {
            assert(u.times() =~= seq![]);
            assert(all.take(0) =~= seq![]);
        }
        while i < urls.len()
            invariant
                i <= urls@.len(),
                fetched@.len() == urls@.len(),
                now <= LONGEST,
                forall|i: int|
                    0 <= i < fetched@.len() ==> ((#[trigger] fetched@[i]) matches Some(t) ==> t
                        <= LONGEST),
                all == crate::text::seen(urls@),
                u.cache@ == cache@,
                u.stamps == stamps,
                !u.busy,
                u.times() == due_later(
                    seq![],
                    all.take(i as int),
                    fetched@.take(i as int),
                    wall,
                    now,
                ),
            decreases urls@.len() - i,
        {
            proof {
                assert(all.take(i + 1).drop_last() =~= all.take(i as int));
                assert(all.take(i + 1).last() == urls@[i as int]@);
                assert(fetched@.take(i + 1).drop_last() =~= fetched@.take(i as int));
                assert(fetched@.take(i + 1).last() == fetched@[i as int]);
            }
            let f = fetched[i];
            u.set_due(urls[i].as_str(), now + due_in(f, wall));
            i += 1;
        }
        proof {
            assert(all.take(i as int) =~= all);
            assert(fetched@.take(i as int) =~= fetched@);
        }
        u
    }

    /// The owner asked for every source: all are due now.
    pub fn requested(&mut self, now: u128) -> (r: String)
        ensures
            r@ == "sources update requested"@,
            final(self).times() == old(self).times().map_values(
                |e: (Seq<char>, u128)| (e.0, now),
            ),
            final(self).cache == old(self).cache,
            final(self).stamps == old(self).stamps,
            final(self).busy == old(self).busy,
    {
        let ghost t = self.times();
        let mut i: usize = 0;
        while i < self.due.len()
            invariant
                t == old(self).times(),
                self.due@.len() == t.len(),
                i <= t.len(),
                forall|j: int|
                    0 <= j < t.len() ==> #[trigger] times_seen(self.due@)[j] == if j < i {
                        (t[j].0, now)
                    } else {
                        t[j]
                    },
                self.cache == old(self).cache,
                self.stamps == old(self).stamps,
                self.busy == old(self).busy,
            decreases t.len() - i,
        {
            let ghost before = self.due@;
            proof {
                assert(times_seen(before)[i as int] == t[i as int]);
            }
            self.due[i].1 = now;
            proof {
                assert forall|j: int| 0 <= j < t.len() implies #[trigger] times_seen(self.due@)[j]
                    == if j < i + 1 {
                    (t[j].0, now)
                } else {
                    t[j]
                } by {
                    assert(times_seen(before)[j] == (before[j].0@, before[j].1));
                }
            }
            i += 1;
        }
        proof {
            assert(self.times() =~= t.map_values(|e: (Seq<char>, u128)| (e.0, now)));
        }
        String::from_str("sources update requested")
    }

    /// The times of the files as they are now; returns a line for each that
    /// changed. A source changed when there is one.
    pub fn look(&mut self, times: &Vec<Option<u128>>) -> (r: Vec<String>)
        requires
            times@.len() == old(self).stamps@.len(),
        ensures
            crate::text::seen(r@) == changes(stamps_seen(old(self).stamps@), times@),
            stamps_seen(final(self).stamps@) == Seq::new(
                times@.len(),
                |i: int| (old(self).stamps@[i].path@, times@[i]),
            ),
            final(self).due == old(self).due,
            final(self).cache == old(self).cache,
            final(self).busy == old(self).busy,
    {
        let ghost s = stamps_seen(self.stamps@);
        let mut lines: Vec<String> = Vec::new();
        let mut i: usize = 0;
        proof {
            assert(s.take(0) =~= seq![]);
            assert(crate::text::seen(lines@) =~= seq![]);
        }
        while i < self.stamps.len()
            invariant
                s == stamps_seen(old(self).stamps@),
                self.stamps@.len() == s.len(),
                times@.len() == s.len(),
                i <= s.len(),
                crate::text::seen(lines@) == changes(s.take(i as int), times@.take(i as int)),
                forall|j: int|
                    0 <= j < s.len() ==> #[trigger] stamps_seen(self.stamps@)[j] == if j < i {
                        (s[j].0, times@[j])
                    } else {
                        s[j]
                    },
                self.due == old(self).due,
                self.cache == old(self).cache,
                self.busy == old(self).busy,
            decreases s.len() - i,
        {
            let ghost before = self.stamps@;
            proof {
                assert(s.take(i + 1).drop_last() =~= s.take(i as int));
                assert(s.take(i + 1).last() == s[i as int]);
                assert(times@.take(i + 1).drop_last() =~= times@.take(i as int));
                assert(times@.take(i + 1).last() == times@[i as int]);
                assert(stamps_seen(before)[i as int] == s[i as int]);
            }
            if times[i] != self.stamps[i].time {
                let mut l = String::from_str("source ");
                l.append(self.stamps[i].path.as_str());
                l.append(" changed");
                proof {
                    crate::text::lemma_seen_push(lines@, l);
                }
                lines.push(l);
                self.stamps[i].time = times[i];
            }
            proof {
                assert forall|j: int| 0 <= j < s.len() implies #[trigger] stamps_seen(
                    self.stamps@,
                )[j] == if j < i + 1 {
                    (s[j].0, times@[j])
                } else {
                    s[j]
                } by {
                    assert(stamps_seen(before)[j] == (before[j].path@, before[j].time));
                }
            }
            i += 1;
        }
        proof {
            assert(s.take(i as int) =~= s);
            assert(times@.take(i as int) =~= times@);
            assert(stamps_seen(self.stamps@) =~= Seq::new(
                times@.len(),
                |i: int| (old(self).stamps@[i].path@, times@[i]),
            ));
        }
        lines
    }

    /// The URLs to fetch now: those that are due, unless a fetch is under
    /// way. With any, one is.
    pub fn start(&mut self, now: u128) -> (r: Vec<String>)
        requires
            now <= LONGEST,
        ensures
            old(self).busy ==> r@.len() == 0 && *final(self) == *old(self),
            !old(self).busy ==> {
                &&& crate::text::seen(r@) == due_urls(old(self).times(), now)
                &&& final(self).times() == put_off(old(self).times(), now)
                &&& final(self).busy == (r@.len() > 0)
                &&& final(self).cache == old(self).cache
                &&& final(self).stamps == old(self).stamps
            },
    {
        let mut urls: Vec<String> = Vec::new();
        if self.busy {
            return urls;
        }
        let ghost t = self.times();
        let ghost want = put_off(t, now);
        let mut i: usize = 0;
        proof {
            assert(t.take(0) =~= seq![]);
            assert(crate::text::seen(urls@) =~= seq![]);
        }
        while i < self.due.len()
            invariant
                now <= LONGEST,
                t == old(self).times(),
                want == put_off(t, now),
                self.due@.len() == t.len(),
                i <= t.len(),
                crate::text::seen(urls@) == due_urls(t.take(i as int), now),
                forall|j: int|
                    0 <= j < t.len() ==> #[trigger] times_seen(self.due@)[j] == if j < i {
                        want[j]
                    } else {
                        t[j]
                    },
                self.cache == old(self).cache,
                self.stamps == old(self).stamps,
                !self.busy,
            decreases t.len() - i,
        {
            let ghost before = self.due@;
            proof {
                assert(t.take(i + 1).drop_last() =~= t.take(i as int));
                assert(t.take(i + 1).last() == t[i as int]);
                assert(times_seen(before)[i as int] == t[i as int]);
            }
            if self.due[i].1 <= now {
                let u = self.due[i].0.clone();
                proof {
                    crate::text::lemma_seen_push(urls@, u);
                }
                urls.push(u);
                self.due[i].1 = now + RETRY;
            }
            proof {
                assert forall|j: int| 0 <= j < t.len() implies #[trigger] times_seen(self.due@)[j]
                    == if j < i + 1 {
                    want[j]
                } else {
                    t[j]
                } by {
                    assert(times_seen(before)[j] == (before[j].0@, before[j].1));
                }
            }
            i += 1;
        }
        proof {
            assert(t.take(i as int) =~= t);
            assert(self.times() =~= want);
            assert(crate::text::seen(urls@).len() == urls@.len());
        }
        self.busy = urls.len() > 0;
        urls
    }

    /// The fetch is over.
    pub fn finish(&mut self)
        ensures
            *final(self) == (Updater { busy: false, ..*old(self) }),
    {
        self.busy = false;
    }

    /// What was fetched of a URL, beside its copy in the cache.
    pub fn take(
        &mut self,
        url: &str,
        got: &Result<(String, Via), String>,
        copy: &Option<String>,
        now: u128,
    ) -> (r: Taken)
        requires
            now <= LONGEST,
        ensures
            match r {
                Taken::Kept(line) => {
                    &&& refused(fetched_seen(*got)) matches Some(e) && line@ == "source-fail "@
                        + url@ + ": "@ + e
                    &&& final(self).times() == with_due(
                        old(self).times(),
                        url@,
                        (now + RETRY) as u128,
                    )
                    &&& final(self).cache == old(self).cache
                    &&& final(self).stamps == old(self).stamps
                    &&& final(self).busy == old(self).busy
                },
                Taken::Write { path, entries: n, new } => {
                    &&& refused(fetched_seen(*got)) is None
                    &&& path@ == cached(old(self).cache@, url@)
                    &&& n == entries(alone(got->Ok_0.0@))
                    &&& new == (crate::tunnel::text_seen(*copy) != Some(got->Ok_0.0@))
                    &&& *final(self) == *old(self)
                },
            },
    {
        let e = match got {
            Err(e) => e.clone(),
            Ok((text, _)) => match check(text.as_str()) {
                Err(e) => e,
                Ok(n) => {
                    let new = match copy {
                        Some(c) => !same(c.as_str(), text.as_str()),
                        None => true,
                    };
                    return Taken::Write {
                        path: cache_file(self.cache.as_str(), url),
                        entries: n,
                        new,
                    };
                },
            },
        };
        let mut l = String::from_str("source-fail ");
        l.append(url);
        l.append(": ");
        l.append(e.as_str());
        self.set_due(url, now + RETRY);
        Taken::Kept(l)
    }

    /// What came of writing the copy; returns the line for the journal. A
    /// source changed when it was written and is new.
    pub fn written(
        &mut self,
        url: &str,
        via: Via,
        entries: usize,
        new: bool,
        done: Result<(), String>,
        now: u128,
    ) -> (r: String)
        requires
            now <= LONGEST,
        ensures
            final(self).cache == old(self).cache,
            final(self).stamps == old(self).stamps,
            final(self).busy == old(self).busy,
            match done {
                Ok(()) => {
                    &&& r@ == "source "@ + url@ + " via="@ + via.shown() + " entries="@
                        + crate::text::decimal(entries as nat) + " changed="@
                        + crate::text::shown_bool(new)
                    &&& final(self).times() == with_due(
                        old(self).times(),
                        url@,
                        (now + EVERY) as u128,
                    )
                },
                Err(e) => {
                    &&& r@ == "source-fail "@ + url@ + ": cache: "@ + e@
                    &&& final(self).times() == with_due(
                        old(self).times(),
                        url@,
                        (now + RETRY) as u128,
                    )
                },
            },
    {
        match done {
            Err(e) => {
                let mut l = String::from_str("source-fail ");
                l.append(url);
                l.append(": cache: ");
                l.append(e.as_str());
                self.set_due(url, now + RETRY);
                l
            },
            Ok(()) => {
                let mut l = String::from_str("source ");
                l.append(url);
                l.append(" via=");
                l.append(via.name());
                l.append(" entries=");
                l.append(show(entries as u128).as_str());
                l.append(" changed=");
                l.append(show_bool(new));
                self.set_due(url, now + EVERY);
                l
            },
        }
    }
}

/// Why a fetched text is not taken: it did not come, or is no list.
pub open spec fn refused(got: Result<(Seq<char>, Via), Seq<char>>) -> Option<Seq<char>> {
    match got {
        Err(e) => Some(e),
        Ok((text, _)) => refusal(text),
    }
}

// ---------------------------------------------------------------------
// Laws.
// ---------------------------------------------------------------------

/// A URL set to a time is due then, and the others are due when they were.
pub proof fn lemma_due_is_set(t: Times, url: Seq<char>, at: u128, i: int)
    requires
        0 <= i < t.len(),
    ensures
        at_url(t, url) <= t.len(),
        at_url(with_due(t, url, at), url) < with_due(t, url, at).len(),
        with_due(t, url, at)[at_url(t, url) as int] == (url, at),
        t[i].0 != url ==> with_due(t, url, at)[i] == t[i],
{
    lemma_at_url_bound(t, url);
    let w = with_due(t, url, at);
    let n = at_url(t, url) as int;
    assert forall|j: int| 0 <= j < n implies (#[trigger] w[j]).0 != url by {
        assert(w[j] == t[j]);
    }
    lemma_at_url(w, url, n);
}

proof fn lemma_at_url_bound(t: Times, url: Seq<char>)
    ensures
        at_url(t, url) <= t.len(),
        at_url(t, url) < t.len() ==> t[at_url(t, url) as int].0 == url,
        forall|i: int| 0 <= i < at_url(t, url) ==> (#[trigger] t[i]).0 != url,
    decreases t.len(),
{
    if t.len() > 0 && t[0].0 != url {
        let rest = t.drop_first();
        lemma_at_url_bound(rest, url);
        assert forall|i: int| 0 <= i < at_url(t, url) implies (#[trigger] t[i]).0 != url by {
            if i > 0 {
                assert(rest[i - 1] == t[i]);
            }
        }
    }
}

/// A copy that was just fetched is due in a day, one older than a day is
/// due now, and so is one that is not there.
pub proof fn lemma_due_a_day_after(t: u128, now: u128)
    requires
        t <= now <= LONGEST,
    ensures
        wait(None, now) == 0,
        wait(Some(t), now) == if now - t >= EVERY {
            0
        } else {
            EVERY - (now - t)
        },
{
}

/// Nothing is due once it was put off: the next look starts no second
/// fetch before an hour has passed.
pub proof fn lemma_no_second_fetch(t: Times, now: u128, later: u128)
    requires
        now <= later < now + RETRY,
        now <= LONGEST,
        forall|i: int| 0 <= i < t.len() ==> ((#[trigger] t[i]).1 <= now || t[i].1 > later),
    ensures
        due_urls(put_off(t, now), later) == Seq::<Seq<char>>::empty(),
    decreases t.len(),
{
    if t.len() > 0 {
        let r = t.drop_last();
        assert forall|i: int| 0 <= i < r.len() implies ((#[trigger] r[i]).1 <= now || r[i].1
            > later) by {
            assert(r[i] == t[i]);
        }
        lemma_no_second_fetch(r, now, later);
        assert(put_off(t, now).drop_last() =~= put_off(r, now));
        assert(t[t.len() - 1] == t.last());
    }
}

/// A page without a single entry never passes for a list, nor does one of
/// more lines that are no entry than entries.
pub proof fn lemma_only_lists_are_taken(text: Seq<char>, via: Via)
    requires
        refused(Ok::<(Seq<char>, Via), Seq<char>>((text, via))) is None,
    ensures
        entries(alone(text)) > 0,
        alone(text).rejected.len() <= entries(alone(text)),
{
}

/// The cached copy of a URL is named by the sixteen digits of a hash of it
/// that takes in every byte.
pub proof fn lemma_the_name_of_a_copy(dir: Seq<char>, url: Seq<char>, bytes: Seq<u8>, b: u8)
    ensures
        fnv(seq![]) == 0xcbf2_9ce4_8422_2325,
        fnv(bytes.push(b)) == ((fnv(bytes) ^ (b as u64)) * 0x0100_0000_01b3)
            % 0x1_0000_0000_0000_0000,
        cached(dir, url) == crate::pf::below(
            dir,
            crate::text::hex(fnv(vstd::utf8::encode_utf8(url)) as nat, 16) + ".lst"@,
        ),
{
    assert(bytes.push(b).drop_last() =~= bytes);
}

/// A text is refused when nothing in it is an entry, or when more of its
/// lines are none than are one; with as many of the one as of the other it
/// is taken.
pub proof fn lemma_what_is_refused(text: Seq<char>)
    ensures
        ({
            let c = crate::lists::Contents::empty().with("check"@, text);
            let n = c.suffixes.len() + c.subnets.len();
            &&& entries(c) == n
            &&& refusal(text) == if n == 0 {
                Some("no entries"@)
            } else if c.rejected.len() > n {
                Some(
                    crate::text::decimal(c.rejected.len()) + " lines that are no entry against "@
                        + crate::text::decimal(n) + " entries"@,
                )
            } else {
                None
            }
            &&& forall|via: Via, e: Seq<char>|
                {
                    &&& #[trigger] refused(Ok::<(Seq<char>, Via), Seq<char>>((text, via)))
                        == refusal(text)
                    &&& #[trigger] refused(Err::<(Seq<char>, Via), Seq<char>>(e)) == Some(e)
                }
        }),
{
}

/// A fetch fails on an HTTP error, follows five redirects at most, over
/// HTTP alone, takes a minute and twenty million bytes at most, goes out
/// through the interface when there is one, and asks for the URL last.
pub proof fn lemma_how_a_url_is_fetched(url: Seq<char>, iface: Seq<char>)
    ensures
        ({
            let flags = seq![
                "-f"@,
                "-s"@,
                "-S"@,
                "-L"@,
                "--max-redirs"@,
                "5"@,
                "--proto"@,
                "=http,https"@,
                "--max-time"@,
                crate::text::decimal(60),
                "--max-filesize"@,
                "20000000"@,
            ];
            &&& curl_args(url, None) == flags + seq![url]
            &&& curl_args(url, Some(iface)) == flags + seq!["--interface"@, iface] + seq![url]
        }),
{
}

/// The sources are read in the order of the settings: those of a list
/// after those of the lists before it, a file from beside the settings, a
/// URL from its cached copy.
pub proof fn lemma_where_sources_are(
    l: Seq<crate::config::Feed>,
    f: crate::config::Feed,
    base: Seq<char>,
    cache: Seq<char>,
    j: int,
)
    ensures
        all_spots(seq![], base, cache) == Seq::<Spot>::empty(),
        all_spots(l.push(f), base, cache).len() == all_spots(l, base, cache).len()
            + f.sources.len(),
        all_spots(l, base, cache).is_prefix_of(all_spots(l.push(f), base, cache)),
        0 <= j < f.sources.len() ==> {
            let s = all_spots(l.push(f), base, cache)[all_spots(l, base, cache).len() + j];
            &&& s.list == f.name
            &&& match f.sources[j] {
                crate::config::Origin::File(p) => s.shown == p && s.path == crate::pf::below(
                    base,
                    p,
                ),
                crate::config::Origin::Url(u) => s.shown == u && s.path == cached(cache, u),
            }
        },
{
    let (a, b) = (all_spots(l, base, cache), all_spots(l.push(f), base, cache));
    assert(l.push(f).drop_last() =~= l);
    assert(b =~= a + list_spots(f, base, cache));
    assert(b.take(a.len() as int) =~= a);
}

/// A source that is read adds to its list after those before it; one that
/// is not adds nothing, and is named with its list and the reason.
pub proof fn lemma_what_is_read(
    s: Seq<Spot>,
    got: Seq<Result<Seq<char>, Seq<char>>>,
    x: Spot,
    text: Seq<char>,
    e: Seq<char>,
)
    requires
        s.len() == got.len(),
    ensures
        all_read(seq![], seq![]) == crate::lists::Contents::empty(),
        missing(seq![], seq![]) == Seq::<Seq<char>>::empty(),
        all_read(s.push(x), got.push(Ok(text))) == all_read(s, got).with(x.list, text),
        missing(s.push(x), got.push(Ok(text))) == missing(s, got),
        all_read(s.push(x), got.push(Err(e))) == all_read(s, got),
        missing(s.push(x), got.push(Err(e))) == missing(s, got).push(
            x.list + " "@ + x.shown + ": "@ + e,
        ),
{
    assert(s.push(x).drop_last() =~= s);
    assert(got.push(Ok(text)).drop_last() =~= got);
    assert(got.push(Err(e)).drop_last() =~= got);
}

/// A copy is due twenty-four hours after it was fetched, to the nanosecond.
pub proof fn lemma_a_copy_lasts_a_day(t: u128, now: u128)
    requires
        t <= LONGEST,
    ensures
        wait(None, now) == 0,
        wait(Some(t), now) == if now >= t + 86_400_000_000_000 {
            0
        } else {
            t + 86_400_000_000_000 - now
        },
        EVERY == 86_400_000_000_000,
        RETRY == 3_600_000_000_000,
{
}

/// Fetched are the URLs whose time has come, in their order, and no others;
/// those alone are put off, by an hour.
pub proof fn lemma_what_is_due(t: Times, now: u128)
    requires
        now <= LONGEST,
    ensures
        due_urls(t, now) == t.filter(|e: (Seq<char>, u128)| e.1 <= now).map_values(
            |e: (Seq<char>, u128)| e.0,
        ),
        put_off(t, now).len() == t.len(),
        forall|i: int|
            0 <= i < t.len() ==> #[trigger] put_off(t, now)[i] == (if t[i].1 <= now {
                (t[i].0, (now + 3_600_000_000_000) as u128)
            } else {
                t[i]
            }),
    decreases t.len(),
{
    reveal(Seq::filter);
    let p = |e: (Seq<char>, u128)| e.1 <= now;
    let f = |e: (Seq<char>, u128)| e.0;
    if t.len() > 0 {
        lemma_what_is_due(t.drop_last(), now);
        assert(due_urls(t, now) =~= t.filter(p).map_values(f));
    } else {
        assert(due_urls(t, now) =~= t.filter(p).map_values(f));
    }
}

/// A time set for a URL takes the place of the one it had, or comes last;
/// nothing else is moved.
pub proof fn lemma_a_time_is_set(t: Times, url: Seq<char>, at: u128)
    ensures
        (forall|i: int| 0 <= i < t.len() ==> (#[trigger] t[i]).0 != url) ==> with_due(t, url, at)
            == t.push((url, at)),
        forall|i: int|
            0 <= i < t.len() && (#[trigger] t[i]).0 == url && (forall|j: int|
                0 <= j < i ==> (#[trigger] t[j]).0 != url) ==> with_due(t, url, at) == t.update(
                i,
                (url, at),
            ),
{
    if forall|i: int| 0 <= i < t.len() ==> (#[trigger] t[i]).0 != url {
        lemma_at_url(t, url, t.len() as int);
    }
    assert forall|i: int|
        0 <= i < t.len() && (#[trigger] t[i]).0 == url && (forall|j: int|
            0 <= j < i ==> (#[trigger] t[j]).0 != url) implies with_due(t, url, at) == t.update(
        i,
        (url, at),
    ) by {
        lemma_at_url(t, url, i);
    }
}

/// At the start every URL is given the time that its copy runs out at, and
/// one without a copy is due at once.
pub proof fn lemma_due_at_the_start(
    n: Times,
    urls: Seq<Seq<char>>,
    fetched: Seq<Option<u128>>,
    url: Seq<char>,
    copy: Option<u128>,
    wall: u128,
    now: u128,
)
    requires
        urls.len() == fetched.len(),
        now <= LONGEST,
        copy matches Some(t) ==> t <= LONGEST,
    ensures
        due_later(n, seq![], seq![], wall, now) == n,
        due_later(n, urls.push(url), fetched.push(copy), wall, now) == with_due(
            due_later(n, urls, fetched, wall, now),
            url,
            (match copy {
                Some(t) => if wall >= t + 86_400_000_000_000 {
                    now
                } else {
                    (now + (t + 86_400_000_000_000 - wall)) as u128
                },
                None => now,
            }),
        ),
{
    assert(urls.push(url).drop_last() =~= urls);
    assert(fetched.push(copy).drop_last() =~= fetched);
}

/// A file is told of when its time is another than it was, also when it
/// came or went.
pub proof fn lemma_a_file_changed(
    s: Seq<(Seq<char>, Option<u128>)>,
    now: Seq<Option<u128>>,
    path: Seq<char>,
    was: Option<u128>,
    found: Option<u128>,
)
    requires
        s.len() == now.len(),
    ensures
        changes(seq![], seq![]) == Seq::<Seq<char>>::empty(),
        changes(s.push((path, was)), now.push(found)) == if was == found {
            changes(s, now)
        } else {
            changes(s, now).push("source "@ + path + " changed"@)
        },
{
    assert(s.push((path, was)).drop_last() =~= s);
    assert(now.push(found).drop_last() =~= now);
}

/// The way a text came, in words.
pub proof fn lemma_the_way(way: Via)
    ensures
        way.shown() == if way == Via::Tunnel {
            "tunnel"@
        } else {
            "direct"@
        },
{
}

} // verus!
