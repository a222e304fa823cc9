//! The daemon at its start: the resolver as the DNS of the Mac, with the
//! tunnels of the settings, the country, and the hosts it had before.
//!
//! The kill switch has reasons of its own, per rule, each set and cleared
//! apart: no tunnel of the rule carries, work is under way, the owner said
//! so. Any one of them refuses the names of the rule. pf holds the
//! addresses to the tunnels of their rule all the time, reasons or not, so
//! that neither a dead amneziawg-go nor a dead daemon lets them out; a stop
//! takes it all back, a crash does not.

use vstd::prelude::*;
use vstd::string::*;

use crate::addr::Ipv4Addr;
use crate::config::{Rule, Settings};
use crate::holding::Loaded;
use crate::links::{Health, LinkState};
use crate::lists::Lists;
use crate::net::Network;
use crate::paths::dir_of;
use crate::pf::join_path;
use crate::resolver::Resolver;
use crate::socket::SocketAddr;
use crate::sources::UPDATE_FLAG;
use crate::state::Hosts;
use crate::text::{among, chars_of, join_of, number_of, quote, same, show, trim_of, words_of};
use crate::tunnel::Conf;

verus! {

/// While nothing is known of the country: the rules written for this one
/// hold, so that a mistake sends nothing past a tunnel.
pub const COUNTRY_DEFAULT: &'static str = "RU";

/// After a wake on the same network, the country is asked again only when
/// the last answer is older than this many seconds.
pub const COUNTRY_AFTER: u64 = 10_800;

/// The owner's reason for the kill switch, next to the state file.
pub const OWNER_FLAG: &'static str = "killswitch";

/// The owner's country, next to the state file; without it, the country
/// is asked of the services.
pub const COUNTRY_FLAG: &'static str = "country";

/// The last country the services agreed on, and when.
pub const COUNTRY_SEEN: &'static str = "country-seen";

#[derive(Debug)]
pub struct Config {
    /// The settings file: the lists and their sources, the tunnels and the
    /// rules.
    pub settings: String,
    pub state: String,
    pub journal: Option<String>,
    pub listen: SocketAddr,
    pub tunnel_dns: Ipv4Addr,
    /// Holds amneziawg-go and awg.
    pub libexec: String,
    /// Seconds a host route lives after its last answer.
    pub window: u64,
    /// Listed names go first to a network whose DNS answers with fake
    /// addresses, and its subnets are left to the router.
    pub use_fakeip: bool,
    /// Every network service of the Mac asks the resolver; a stop puts
    /// back what they had.
    pub system_dns: bool,
}

// ---------------------------------------------------------------------
// The country.
// ---------------------------------------------------------------------

/// The two capital letters a text is, the space around them apart.
pub open spec fn code_in(text: Seq<char>) -> Option<Seq<char>> {
    let t = crate::text::trim(text);
    if crate::config::country_code(t) {
        Some(t)
    } else {
        None
    }
}

/// Two capital letters, as the flag and the settings have them.
pub fn country_code(text: &str) -> (r: Option<String>)
    ensures
        crate::tunnel::text_seen(r) == code_in(text@),
{
    let t = trim_of(text);
    let v = chars_of(t.as_str());
    if v.len() == 2 && 'A' <= v[0] && v[0] <= 'Z' && 'A' <= v[1] && v[1] <= 'Z' {
        Some(t)
    } else {
        None
    }
}

/// The country: the owner's, else the last the services agreed on, else
/// the default.
#[derive(Debug)]
pub struct Country {
    pub owner: Option<String>,
    /// The code and the unix seconds of the answer.
    pub seen: Option<(String, u64)>,
    /// The network of the last answer: a wake on it asks again only after
    /// a while.
    pub seen_on: Option<Network>,
}

/// A country as a mathematical value.
pub struct Known {
    pub owner: Option<Seq<char>>,
    pub seen: Option<(Seq<char>, u64)>,
    pub seen_on: Option<crate::net::Place>,
}

impl Known {
    pub open spec fn code(self) -> Seq<char> {
        match (self.owner, self.seen) {
            (Some(c), _) => c,
            (None, Some((c, _))) => c,
            (None, None) => COUNTRY_DEFAULT@,
        }
    }

    /// Where it is from.
    pub open spec fn from(self) -> Seq<char> {
        match (self.owner, self.seen) {
            (Some(_), _) => "owner"@,
            (None, Some(_)) => "services"@,
            (None, None) => "default"@,
        }
    }

    /// The services are to be asked again.
    pub open spec fn aged(self, now: u64) -> bool {
        match self.seen {
            Some((_, at)) => now > at && now - at > COUNTRY_AFTER,
            None => true,
        }
    }
}

/// What the file says the services agreed on: a code and when.
pub open spec fn seen_in(text: Seq<char>) -> Option<(Seq<char>, u64)> {
    let w = crate::text::words(text);
    if w.len() < 2 {
        None
    } else {
        match (code_in(w[0]), crate::text::number(w[1], u64::MAX as nat)) {
            (Some(c), Some(at)) => Some((c, at as u64)),
            _ => None,
        }
    }
}

fn read_seen(text: &str) -> (r: Option<(String, u64)>)
    ensures
        match r {
            Some((c, at)) => seen_in(text@) == Some((c@, at)),
            None => seen_in(text@) is None,
        },
{
    let w = words_of(text);
    proof {
        assert(crate::text::seen(w@).len() == w@.len());
    }
    if w.len() < 2 {
        return None;
    }
    proof {
        assert(crate::text::seen(w@)[0] == w@[0]@);
        assert(crate::text::seen(w@)[1] == w@[1]@);
    }
    match (country_code(w[0].as_str()), number_of(w[1].as_str(), u64::MAX)) {
        (Some(c), Some(at)) => Some((c, at)),
        _ => None,
    }
}

/// The owner's country, from the flag if it is there.
pub open spec fn owner_in(text: Option<Seq<char>>) -> Option<Seq<char>> {
    match text {
        Some(t) => code_in(t),
        None => None,
    }
}

pub fn owner_of(text: Option<&str>) -> (r: Option<String>)
    ensures
        crate::tunnel::text_seen(r) == owner_in(
            match text {
                Some(t) => Some(t@),
                None => None,
            },
        ),
{
    match text {
        Some(t) => country_code(t),
        None => None,
    }
}

impl Country {
    pub open spec fn view(&self) -> Known {
        Known {
            owner: crate::tunnel::text_seen(self.owner),
            seen: match self.seen {
                Some((c, at)) => Some((c@, at)),
                None => None,
            },
            seen_on: crate::link::place_seen(self.seen_on),
        }
    }

    /// From the owner's flag and from what the services last agreed on, as
    /// far as those are there.
    pub fn load(owner: Option<&str>, seen: Option<&str>) -> (r: Country)
        ensures
            r@.owner == owner_in(
                match owner {
                    Some(t) => Some(t@),
                    None => None,
                },
            ),
            r@.seen == match seen {
                Some(t) => seen_in(t@),
                None => None,
            },
            r@.seen_on is None,
    {
        let seen = match seen {
            Some(t) => read_seen(t),
            None => None,
        };
        Country { owner: owner_of(owner), seen, seen_on: None }
    }

    /// The code, and where it is from.
    pub fn now(&self) -> (r: (&str, &'static str))
        ensures
            r.0@ == self@.code(),
            r.1@ == self@.from(),
    {
        match (&self.owner, &self.seen) {
            (Some(c), _) => (c.as_str(), "owner"),
            (None, Some((c, _))) => (c.as_str(), "services"),
            (None, None) => (COUNTRY_DEFAULT, "default"),
        }
    }

    pub fn stale(&self, now: u64) -> (r: bool)
        ensures
            r == self@.aged(now),
    {
        match &self.seen {
            Some((_, at)) => now > *at && now - *at > COUNTRY_AFTER,
            None => true,
        }
    }
}

// ---------------------------------------------------------------------
// The owner's flags, next to the state file.
// ---------------------------------------------------------------------

/// What is done to a flag.
#[derive(Debug)]
pub enum Flag {
    /// Made, unless it is there.
    Raise(String),
    /// Holds the second text from now on.
    Write(String, String),
    /// Taken away, if it is there.
    Lower(String),
}

pub enum Mark {
    Raise(Seq<char>),
    Write(Seq<char>, Seq<char>),
    Lower(Seq<char>),
}

impl Flag {
    pub open spec fn view(&self) -> Mark {
        match *self {
            Flag::Raise(p) => Mark::Raise(p@),
            Flag::Write(p, t) => Mark::Write(p@, t@),
            Flag::Lower(p) => Mark::Lower(p@),
        }
    }
}

impl Mark {
    /// The path of the flag.
    pub open spec fn file(self) -> Seq<char> {
        match self {
            Mark::Raise(p) => p,
            Mark::Write(p, _) => p,
            Mark::Lower(p) => p,
        }
    }

    /// The files there are after it, each with what it holds, from those
    /// there were before.
    pub open spec fn done(self, files: Map<Seq<char>, Seq<char>>) -> Map<Seq<char>, Seq<char>> {
        match self {
            Mark::Raise(p) => if files.dom().contains(p) {
                files
            } else {
                files.insert(p, seq![])
            },
            Mark::Write(p, text) => files.insert(p, text),
            Mark::Lower(p) => files.remove(p),
        }
    }
}

/// A file next to the state file.
pub open spec fn beside(state: Seq<char>, name: Seq<char>) -> Seq<char> {
    crate::pf::below(crate::paths::directory(state), name)
}

fn next_to(state: &str, name: &str) -> (r: String)
    ensures
        r@ == beside(state@, name@),
{
    join_path(dir_of(state).as_str(), name)
}

/// Asks the daemon to fetch every source now; it looks every second.
pub fn request_update(state: &str) -> (r: Flag)
    ensures
        r@ == Mark::Raise(beside(state@, UPDATE_FLAG@)),
{
    Flag::Raise(next_to(state, UPDATE_FLAG))
}

/// The owner's reason, set or taken away.
pub open spec fn killswitch_mark(state: Seq<char>, on: bool) -> Mark {
    if on {
        Mark::Raise(beside(state, OWNER_FLAG@))
    } else {
        Mark::Lower(beside(state, OWNER_FLAG@))
    }
}

/// The owner's country, set or taken away.
pub open spec fn country_mark(state: Seq<char>, code: Option<Seq<char>>) -> Mark {
    match code {
        Some(c) => Mark::Write(beside(state, COUNTRY_FLAG@), c + "\n"@),
        None => Mark::Lower(beside(state, COUNTRY_FLAG@)),
    }
}

/// Sets or takes away the owner's reason; the daemon looks every second.
pub fn owner_killswitch(state: &str, on: bool) -> (r: Flag)
    ensures
        r@ == killswitch_mark(state@, on),
{
    let flag = next_to(state, OWNER_FLAG);
    if on {
        Flag::Raise(flag)
    } else {
        Flag::Lower(flag)
    }
}

/// Sets the owner's country, or none to ask the services; the daemon
/// looks every second.
pub fn owner_country(state: &str, code: Option<&str>) -> (r: Flag)
    ensures
        r@ == country_mark(
            state@,
            match code {
                Some(c) => Some(c@),
                None => None,
            },
        ),
{
    let flag = next_to(state, COUNTRY_FLAG);
    match code {
        Some(c) => {
            let mut text = c.to_owned();
            text.append("\n");
            Flag::Write(flag, text)
        },
        None => Flag::Lower(flag),
    }
}

// ---------------------------------------------------------------------
// The tunnel files.
// ---------------------------------------------------------------------

pub open spec fn confs_seen(v: Seq<Conf>) -> Seq<crate::tunnel::File> {
    v.map_values(|c: Conf| c@)
}

/// The first of the files with this address; past the end without one.
pub open spec fn same_address(files: Seq<crate::tunnel::File>, address: Ipv4Addr) -> nat
    decreases files.len(),
{
    if files.len() == 0 {
        0
    } else if files[0].address == address {
        0
    } else {
        1 + same_address(files.drop_first(), address)
    }
}

/// One more tunnel file, or why the settings are refused: it cannot be
/// read, is no tunnel file, or has the address of an earlier one, and the
/// two would fight over it on the Mac.
pub open spec fn with_conf(
    files: Seq<crate::tunnel::File>,
    tunnels: Seq<crate::config::WrittenTunnel>,
    base: Seq<char>,
    got: Result<Seq<char>, Seq<char>>,
) -> Result<Seq<crate::tunnel::File>, Seq<char>> {
    let t = tunnels[files.len() as int];
    let path = crate::pf::below(base, t.conf);
    match got {
        Err(e) => Err(path + ": "@ + e),
        Ok(text) => match crate::tunnel::conf(text) {
            Err(e) => Err(path + ": "@ + e),
            Ok(f) => {
                let o = same_address(files, f.address) as int;
                if o < files.len() {
                    Err(
                        "tunnel "@ + t.name + ": address "@ + f.address.shown() + " as in tunnel "@
                            + tunnels[o].name,
                    )
                } else {
                    Ok(files.push(f))
                }
            },
        },
    }
}

pub open spec fn all_confs(
    tunnels: Seq<crate::config::WrittenTunnel>,
    base: Seq<char>,
    got: Seq<Result<Seq<char>, Seq<char>>>,
) -> Result<Seq<crate::tunnel::File>, Seq<char>>
    decreases got.len(),
{
    if got.len() == 0 {
        Ok(seq![])
    } else {
        match all_confs(tunnels, base, got.drop_last()) {
            Err(e) => Err(e),
            Ok(files) => with_conf(files, tunnels, base, got.last()),
        }
    }
}

proof fn lemma_same_address(files: Seq<crate::tunnel::File>, address: Ipv4Addr, n: int)
    requires
        0 <= n <= files.len(),
        forall|i: int| 0 <= i < n ==> (#[trigger] files[i]).address != address,
        n < files.len() ==> files[n].address == address,
    ensures
        same_address(files, address) == n,
    decreases n,
{
    if n > 0 {
        let rest = files.drop_first();
        assert forall|i: int| 0 <= i < n - 1 implies (#[trigger] rest[i]).address != address by {
            assert(rest[i] == files[i + 1]);
        }
        assert(files[0].address != address);
        lemma_same_address(rest, address, n - 1);
    }
}

fn taken(confs: &Vec<Conf>, address: Ipv4Addr) -> (r: usize)
    ensures
        r == same_address(confs_seen(confs@), address),
        r <= confs@.len(),
{
    let ghost f = confs_seen(confs@);
    let mut i: usize = 0;
    while i < confs.len() && confs[i].address != address
        invariant
            i <= confs@.len(),
            f == confs_seen(confs@),
            forall|j: int| 0 <= j < i ==> (#[trigger] f[j]).address != address,
        decreases confs@.len() - i,
    {
        proof {
            assert(f[i as int].address == confs@[i as int].address);
        }
        i += 1;
    }
    proof {
        if i < confs@.len() {
            assert(f[i as int].address == confs@[i as int].address);
        }
        lemma_same_address(f, address, i as int);
    }
    i
}

proof fn lemma_confs_refused(
    tunnels: Seq<crate::config::WrittenTunnel>,
    base: Seq<char>,
    got: Seq<Result<Seq<char>, Seq<char>>>,
    n: int,
    e: Seq<char>,
)
    requires
        0 <= n <= got.len(),
        all_confs(tunnels, base, got.take(n)) == Err::<Seq<crate::tunnel::File>, Seq<char>>(e),
    ensures
        all_confs(tunnels, base, got) == Err::<Seq<crate::tunnel::File>, Seq<char>>(e),
    decreases got.len() - n,
{
    if n < got.len() {
        assert(got.take(n + 1).drop_last() =~= got.take(n));
        lemma_confs_refused(tunnels, base, got, n + 1, e);
    } else {
        assert(got.take(n) =~= got);
    }
}

/// The tunnel files of the settings, each parsed: `got` is what was read of
/// them, in order.
pub fn load_confs(settings: &Settings, base: &str, got: &Vec<Result<String, String>>) -> (r: Result<
    Vec<Conf>,
    String,
>)
    requires
        got@.len() == settings.tunnels@.len(),
    ensures
        match r {
            Ok(v) => all_confs(
                settings@.tunnels,
                base@,
                crate::sources::reads_seen(got@),
            ) == Ok::<Seq<crate::tunnel::File>, Seq<char>>(confs_seen(v@)) && v@.len()
                == got@.len(),
            Err(e) => all_confs(
                settings@.tunnels,
                base@,
                crate::sources::reads_seen(got@),
            ) == Err::<Seq<crate::tunnel::File>, Seq<char>>(e@),
        },
{
    let ghost t = settings@.tunnels;
    let ghost g = crate::sources::reads_seen(got@);
    let mut confs: Vec<Conf> = Vec::new();
    let mut i: usize = 0;
    proof {
        assert(g.take(0) =~= seq![]);
        assert(confs_seen(confs@) =~= seq![]);
    }
    while i < settings.tunnels.len()
        invariant
            i <= settings.tunnels@.len(),
            got@.len() == settings.tunnels@.len(),
            t == settings@.tunnels,
            g == crate::sources::reads_seen(got@),
            confs@.len() == i,
            all_confs(t, base@, g.take(i as int)) == Ok::<Seq<crate::tunnel::File>, Seq<char>>(
                confs_seen(confs@),
            ),
        decreases settings.tunnels@.len() - i,
    {
        let tunnel = &settings.tunnels[i];
        proof {
            assert(g.take(i + 1).drop_last() =~= g.take(i as int));
            assert(g.take(i + 1).last() == crate::sources::got_seen(got@[i as int]));
            assert(t[i as int] == tunnel@);
        }
        let path = join_path(base, tunnel.conf.as_str());
        let fault: String = match &got[i] {
            Err(e) => {
                let mut m = path;
                m.append(": ");
                m.append(e.as_str());
                m
            },
            Ok(text) => match Conf::parse(text.as_str()) {
                Err(e) => {
                    let mut m = path;
                    m.append(": ");
                    m.append(e.as_str());
                    m
                },
                Ok(c) => {
                    let o = taken(&confs, c.address);
                    if o == confs.len() {
                        proof {
                            assert(confs_seen(confs@.push(c)) =~= confs_seen(confs@).push(c@));
                        }
                        confs.push(c);
                        i += 1;
                        continue;
                    }
                    proof {
                        assert(t[o as int] == settings.tunnels@[o as int]@);
                    }
                    let mut m = String::from_str("tunnel ");
                    m.append(tunnel.name.as_str());
                    m.append(": address ");
                    m.append(c.address.to_string().as_str());
                    m.append(" as in tunnel ");
                    m.append(settings.tunnels[o].name.as_str());
                    m
                },
            },
        };
        proof {
            lemma_confs_refused(t, base@, g, i + 1, fault@);
        }
        return Err(fault);
    }
    proof {
        assert(g.take(i as int) =~= g);
    }
    Ok(confs)
}

// ---------------------------------------------------------------------
// The hosts of before.
// ---------------------------------------------------------------------

pub open spec fn rule_named(rules: Seq<crate::config::Routing>, name: Seq<char>) -> Option<int> {
    crate::resolver::lowest(|i: int| rules[i].name == name, rules.len() as int)
}

pub open spec fn rule_with_list(rules: Seq<crate::config::Routing>, list: Seq<char>) -> Option<
    int,
> {
    crate::resolver::lowest(|i: int| rules[i].lists.contains(list), rules.len() as int)
}

/// The rule a saved address goes to: its rule by name, or, in a file of an
/// earlier version, the first rule that has its list.
pub open spec fn rule_for(rules: Seq<crate::config::Routing>, name: Seq<char>) -> Option<int> {
    match rule_named(rules, name) {
        Some(i) => Some(i),
        None => rule_with_list(rules, name),
    }
}

pub fn rule_of(settings: &Settings, name: &str) -> (r: Option<usize>)
    ensures
        match r {
            Some(i) => rule_for(settings@.rules, name@) == Some(i as int) && i
                < settings.rules@.len(),
            None => rule_for(settings@.rules, name@) is None,
        },
{
    let ghost rules = settings@.rules;
    let ghost n = rules.len() as int;
    let ghost p = |i: int| rules[i].name == name@;
    let mut i: usize = 0;
    while i < settings.rules.len()
        invariant
            i <= settings.rules@.len(),
            rules == settings@.rules,
            n == rules.len(),
            n == settings.rules@.len(),
            p == (|i: int| rules[i].name == name@),
            forall|j: int| 0 <= j < i ==> !(#[trigger] p(j)),
        decreases settings.rules@.len() - i,
    {
        proof {
            assert(rules[i as int] == settings.rules@[i as int]@);
        }
        if same(settings.rules[i].name.as_str(), name) {
            proof {
                crate::resolver::lemma_lowest_is(p, i as int, n);
            }
            return Some(i);
        }
        i += 1;
    }
    proof {
        crate::resolver::lemma_lowest(p, n);
    }
    let ghost q = |i: int| rules[i].lists.contains(name@);
    let mut i: usize = 0;
    while i < settings.rules.len()
        invariant
            i <= settings.rules@.len(),
            rules == settings@.rules,
            n == rules.len(),
            n == settings.rules@.len(),
            rule_named(rules, name@) is None,
            q == (|i: int| rules[i].lists.contains(name@)),
            forall|j: int| 0 <= j < i ==> !(#[trigger] q(j)),
        decreases settings.rules@.len() - i,
    {
        proof {
            assert(rules[i as int] == settings.rules@[i as int]@);
        }
        if among(&settings.rules[i].lists, name) {
            proof {
                crate::resolver::lemma_lowest_is(q, i as int, n);
            }
            return Some(i);
        }
        i += 1;
    }
    proof {
        crate::resolver::lemma_lowest(q, n);
    }
    None
}

/// The saved hosts whose rule is still there.
pub open spec fn still_ruled(
    saved: Seq<(Ipv4Addr, crate::state::Kept)>,
    rules: Seq<crate::config::Routing>,
) -> Seq<Loaded>
    decreases saved.len(),
{
    if saved.len() == 0 {
        seq![]
    } else {
        let rest = still_ruled(saved.drop_last(), rules);
        let (ip, k) = saved.last();
        match rule_for(rules, k.rule) {
            Some(i) => rest.push(Loaded { ip, rule: i as usize, last: k.last }),
            None => rest,
        }
    }
}

pub open spec fn knows(v: Seq<Loaded>, ip: Ipv4Addr) -> bool {
    exists|i: int| 0 <= i < v.len() && (#[trigger] v[i]).ip == ip
}

/// With the hosts that pf holds and the state does not know: their last
/// answer is unknown; now it is.
pub open spec fn with_held(v: Seq<Loaded>, held: Seq<(usize, Ipv4Addr)>, now: u64) -> Seq<Loaded>
    decreases held.len(),
{
    if held.len() == 0 {
        v
    } else {
        let w = with_held(v, held.drop_last(), now);
        let (rule, ip) = held.last();
        if knows(w, ip) {
            w
        } else {
            w.push(Loaded { ip, rule, last: now })
        }
    }
}

fn does_know(v: &Vec<Loaded>, ip: Ipv4Addr) -> (r: bool)
    ensures
        r == knows(v@, ip),
{
    let mut i: usize = 0;
    while i < v.len()
        invariant
            i <= v@.len(),
            forall|j: int| 0 <= j < i ==> (#[trigger] v@[j]).ip != ip,
        decreases v@.len() - i,
    {
        if v[i].ip == ip {
            return true;
        }
        i += 1;
    }
    false
}

proof fn lemma_held_grows(v: Seq<Loaded>, held: Seq<(usize, Ipv4Addr)>, now: u64)
    ensures
        with_held(v, held, now).len() >= v.len(),
    decreases held.len(),
{
    if held.len() > 0 {
        lemma_held_grows(v, held.drop_last(), now);
    }
}

/// The saved hosts by rule, and those a crash left in the tables of pf:
/// answered since the last save, missing from the state, they would lose
/// both route and block. The line for the journal, when there are such.
pub fn hosts_to_restore(
    settings: &Settings,
    saved: &Hosts,
    held: &Vec<(usize, Ipv4Addr)>,
    now: u64,
) -> (r: (Vec<Loaded>, Option<String>))
    ensures
        r.0@ == with_held(still_ruled(saved.entries(), settings@.rules), held@, now),
        ({
            let added = r.0@.len() - still_ruled(saved.entries(), settings@.rules).len();
            match r.1 {
                Some(line) => added > 0 && line@ == "pf held hosts added="@
                    + crate::text::decimal(added as nat),
                None => added == 0,
            }
        }),
{
    let ghost e = saved.entries();
    let ghost rules = settings@.rules;
    let mut v: Vec<Loaded> = Vec::new();
    let mut i: usize = 0;
    proof {
        assert(e.take(0) =~= seq![]);
    }
    while i < saved.len()
        invariant
            i <= e.len(),
            e == saved.entries(),
            rules == settings@.rules,
            v@ == still_ruled(e.take(i as int), rules),
        decreases e.len() - i,
    {
        let (ip, h) = saved.at(i);
        proof {
            assert(e.take(i + 1).drop_last() =~= e.take(i as int));
            assert(e.take(i + 1).last() == (ip, h@));
        }
        if let Some(rule) = rule_of(settings, h.rule.as_str()) {
            v.push(Loaded { ip, rule, last: h.last });
        }
        i += 1;
    }
    proof {
        assert(e.take(i as int) =~= e);
    }
    let ghost first = v@;
    let known = v.len();
    let mut i: usize = 0;
    proof {
        assert(held@.take(0) =~= seq![]);
    }
    while i < held.len()
        invariant
            i <= held@.len(),
            v@ == with_held(first, held@.take(i as int), now),
        decreases held@.len() - i,
    {
        proof {
            assert(held@.take(i + 1).drop_last() =~= held@.take(i as int));
            assert(held@.take(i + 1).last() == held@[i as int]);
        }
        let (rule, ip) = held[i];
        if !does_know(&v, ip) {
            v.push(Loaded { ip, rule, last: now });
        }
        i += 1;
    }
    proof {
        assert(held@.take(i as int) =~= held@);
        lemma_held_grows(first, held@, now);
    }
    if v.len() > known {
        let mut s = String::from_str("pf held hosts added=");
        s.append(show((v.len() - known) as u128).as_str());
        (v, Some(s))
    } else {
        (v, None)
    }
}

// ---------------------------------------------------------------------
// The start.
// ---------------------------------------------------------------------

/// A list of texts as it is shown: in quotes, between brackets.
pub open spec fn debug_list(v: Seq<Seq<char>>) -> Seq<char> {
    "["@ + crate::text::join(v.map_values(|s: Seq<char>| crate::text::quoted(s)), ", "@) + "]"@
}

fn show_list(v: &Vec<String>) -> (r: String)
    ensures
        r@ == debug_list(crate::text::seen(v@)),
{
    let ghost want = crate::text::seen(v@).map_values(|s: Seq<char>| crate::text::quoted(s));
    let mut q: Vec<String> = Vec::new();
    let mut i: usize = 0;
    while i < v.len()
        invariant
            i <= v@.len(),
            q@.len() == i,
            forall|j: int| 0 <= j < i ==> (#[trigger] q@[j])@ == crate::text::quoted(v@[j]@),
        decreases v@.len() - i,
    {
        q.push(quote(v[i].as_str()));
        i += 1;
    }
    proof {
        assert(crate::text::seen(q@) =~= want);
    }
    let mut s = String::from_str("[");
    s.append(join_of(&q, ", ").as_str());
    s.append("]");
    s
}

/// The tunnels whose files have keys that are dropped, each with those.
pub open spec fn ignored(
    tunnels: Seq<crate::config::WrittenTunnel>,
    files: Seq<crate::tunnel::File>,
) -> Seq<Seq<char>>
    decreases files.len(),
{
    if files.len() == 0 {
        seq![]
    } else {
        let rest = ignored(tunnels, files.drop_last());
        let f = files.last();
        if f.ignored.len() == 0 {
            rest
        } else {
            rest.push(
                tunnels[files.len() - 1].name + ":"@ + crate::text::join(f.ignored, ","@),
            )
        }
    }
}

fn ignored_of(settings: &Settings, confs: &Vec<Conf>) -> (r: Vec<String>)
    requires
        confs@.len() == settings.tunnels@.len(),
    ensures
        crate::text::seen(r@) == ignored(settings@.tunnels, confs_seen(confs@)),
{
    let ghost t = settings@.tunnels;
    let ghost f = confs_seen(confs@);
    let mut v: Vec<String> = Vec::new();
    let mut i: usize = 0;
    proof {
        assert(f.take(0) =~= seq![]);
        assert(crate::text::seen(v@) =~= seq![]);
    }
    while i < confs.len()
        invariant
            i <= confs@.len(),
            confs@.len() == settings.tunnels@.len(),
            t == settings@.tunnels,
            f == confs_seen(confs@),
            crate::text::seen(v@) == ignored(t, f.take(i as int)),
        decreases confs@.len() - i,
    {
        proof {
            assert(f.take(i + 1).drop_last() =~= f.take(i as int));
            assert(f.take(i + 1).last() == confs@[i as int]@);
            assert(t[i as int] == settings.tunnels@[i as int]@);
            assert(confs@[i as int]@.ignored.len() == confs@[i as int].ignored@.len());
        }
        if confs[i].ignored.len() > 0 {
            let mut s = settings.tunnels[i].name.clone();
            s.append(":");
            s.append(join_of(&confs[i].ignored, ",").as_str());
            proof {
                crate::text::lemma_seen_push(v@, s);
            }
            v.push(s);
        }
        i += 1;
    }
    proof {
        assert(f.take(i as int) =~= f);
    }
    v
}

/// The first line of the journal.
pub open spec fn start_line(
    plan: crate::config::Plan,
    files: Seq<crate::tunnel::File>,
    lists: crate::lists::Contents,
    missing: nat,
    stale: nat,
    saved: nat,
    listen: (Seq<char>, u16),
    tunnel_dns: Ipv4Addr,
    window: u64,
    use_fakeip: bool,
) -> Seq<char> {
    "start daemon rules="@ + crate::text::decimal(plan.rules.len()) + " tunnels="@
        + crate::text::decimal(plan.tunnels.len()) + " lists="@ + crate::text::decimal(
        plan.lists.len(),
    ) + " suffixes="@ + crate::text::decimal(lists.suffixes.len()) + " subnets="@
        + crate::text::decimal(lists.subnets.len()) + " rejected="@ + crate::text::decimal(
        lists.rejected.len(),
    ) + " missing="@ + crate::text::decimal(missing) + " stale="@ + crate::text::decimal(stale)
        + " saved_hosts="@ + crate::text::decimal(saved) + " listen="@ + (listen.0 + ":"@
        + crate::text::decimal(listen.1 as nat)) + " tunnel_dns="@ + tunnel_dns.shown()
        + " window="@ + crate::text::decimal(window as nat) + "s use_fakeip="@ + (if use_fakeip {
        "auto"@
    } else {
        "off"@
    }) + " conf_ignored="@ + debug_list(ignored(plan.tunnels, files))
}

/// Every text after a word.
pub open spec fn after_word(word: Seq<char>, v: Seq<Seq<char>>) -> Seq<Seq<char>> {
    v.map_values(|s: Seq<char>| word + s)
}

/// Every line after a word, behind those there are.
pub fn add_lines(lines: &mut Vec<String>, word: &str, v: &Vec<String>)
    ensures
        crate::text::seen(final(lines)@) == crate::text::seen(old(lines)@) + after_word(
            word@,
            crate::text::seen(v@),
        ),
{
    let ghost before = crate::text::seen(lines@);
    let ghost want = after_word(word@, crate::text::seen(v@));
    let mut i: usize = 0;
    proof {
        assert(before + want.take(0) =~= before);
    }
    while i < v.len()
        invariant
            i <= v@.len(),
            want == after_word(word@, crate::text::seen(v@)),
            crate::text::seen(lines@) == before + want.take(i as int),
        decreases v@.len() - i,
    {
        let mut s = word.to_owned();
        s.append(v[i].as_str());
        proof {
            crate::text::lemma_seen_push(lines@, s);
            assert(s@ == want[i as int]);
            assert(before + want.take(i + 1) =~= (before + want.take(i as int)).push(
                want[i as int],
            ));
        }
        lines.push(s);
        i += 1;
    }
    proof {
        assert(want.take(i as int) =~= want);
    }
}

/// What the daemon writes when it starts: what it has, and what is wrong
/// with the lists.
pub fn log_start(
    cfg: &Config,
    settings: &Settings,
    confs: &Vec<Conf>,
    lists: &Lists,
    missing: &Vec<String>,
    stale: &Vec<String>,
    saved: usize,
) -> (r: Vec<String>)
    requires
        confs@.len() == settings.tunnels@.len(),
        lists.sound(),
    ensures
        crate::text::seen(r@) == seq![
            start_line(
                settings@,
                confs_seen(confs@),
                lists@,
                missing@.len(),
                stale@.len(),
                saved as nat,
                cfg.listen@,
                cfg.tunnel_dns,
                cfg.window,
                cfg.use_fakeip,
            ),
        ] + after_word("rejected "@, lists@.rejected) + after_word(
            "source-missing "@,
            crate::text::seen(missing@),
        ) + after_word("source-stale "@, crate::text::seen(stale@)),
{
    let nets = lists.subnets();
    let rejected = lists.rejected();
    proof {
        assert(nets@.map_values(|e: (crate::addr::Subnet, String)| (e.0, e.1@)).len()
            == nets@.len());
        assert(crate::text::seen(rejected@).len() == rejected@.len());
        assert(settings@.rules.len() == settings.rules@.len());
        assert(settings@.tunnels.len() == settings.tunnels@.len());
        assert(settings@.lists.len() == settings.lists@.len());
    }
    let mut s = String::from_str("start daemon rules=");
    s.append(show(settings.rules.len() as u128).as_str());
    s.append(" tunnels=");
    s.append(show(settings.tunnels.len() as u128).as_str());
    s.append(" lists=");
    s.append(show(settings.lists.len() as u128).as_str());
    s.append(" suffixes=");
    s.append(show(lists.suffix_count() as u128).as_str());
    s.append(" subnets=");
    s.append(show(nets.len() as u128).as_str());
    s.append(" rejected=");
    s.append(show(rejected.len() as u128).as_str());
    s.append(" missing=");
    s.append(show(missing.len() as u128).as_str());
    s.append(" stale=");
    s.append(show(stale.len() as u128).as_str());
    s.append(" saved_hosts=");
    s.append(show(saved as u128).as_str());
    s.append(" listen=");
    s.append(cfg.listen.to_string().as_str());
    s.append(" tunnel_dns=");
    s.append(cfg.tunnel_dns.to_string().as_str());
    s.append(" window=");
    s.append(show(cfg.window as u128).as_str());
    s.append("s use_fakeip=");
    if cfg.use_fakeip {
        s.append("auto");
    } else {
        s.append("off");
    }
    s.append(" conf_ignored=");
    s.append(show_list(&ignored_of(settings, confs)).as_str());
    let mut lines: Vec<String> = Vec::new();
    proof {
        crate::text::lemma_seen_push(lines@, s);
    }
    lines.push(s);
    proof {
        assert(crate::text::seen(lines@) =~= seq![s@]);
    }
    add_lines(&mut lines, "rejected ", rejected);
    add_lines(&mut lines, "source-missing ", missing);
    add_lines(&mut lines, "source-stale ", stale);
    lines
}

/// A rule that came into force, or out of it.
pub open spec fn rule_line(e: (Seq<char>, bool)) -> Seq<char> {
    "rule "@ + e.0 + " "@ + if e.1 {
        "in force"@
    } else {
        "out of force"@
    }
}

pub open spec fn rule_lines(v: Seq<(Seq<char>, bool)>) -> Seq<Seq<char>> {
    v.map_values(|e: (Seq<char>, bool)| rule_line(e))
}

/// The lines for the rules that changed, behind those there are.
pub fn add_rule_lines(lines: &mut Vec<String>, v: &Vec<(String, bool)>)
    ensures
        crate::text::seen(final(lines)@) == crate::text::seen(old(lines)@) + rule_lines(
            crate::status::named(v@),
        ),
{
    let ghost before = crate::text::seen(lines@);
    let ghost want = rule_lines(crate::status::named(v@));
    let mut i: usize = 0;
    proof {
        assert(before + want.take(0) =~= before);
    }
    while i < v.len()
        invariant
            i <= v@.len(),
            want == rule_lines(crate::status::named(v@)),
            want.len() == v@.len(),
            crate::text::seen(lines@) == before + want.take(i as int),
        decreases v@.len() - i,
    {
        let mut s = String::from_str("rule ");
        s.append(v[i].0.as_str());
        s.append(" ");
        if v[i].1 {
            s.append("in force");
        } else {
            s.append("out of force");
        }
        proof {
            crate::text::lemma_seen_push(lines@, s);
            assert(s@ == want[i as int]);
            assert(before + want.take(i + 1) =~= (before + want.take(i as int)).push(
                want[i as int],
            ));
        }
        lines.push(s);
        i += 1;
    }
    proof {
        assert(want.take(i as int) =~= want);
    }
}

fn tunnel_names(settings: &Settings) -> (r: Vec<String>)
    ensures
        r@.len() == settings.tunnels@.len(),
        forall|i: int| 0 <= i < r@.len() ==> (#[trigger] r@[i])@ == settings.tunnels@[i].name@,
{
    let mut v: Vec<String> = Vec::new();
    let mut i: usize = 0;
    while i < settings.tunnels.len()
        invariant
            i <= settings.tunnels@.len(),
            v@.len() == i,
            forall|j: int| 0 <= j < i ==> (#[trigger] v@[j])@ == settings.tunnels@[j].name@,
        decreases settings.tunnels@.len() - i,
    {
        v.push(settings.tunnels[i].name.clone());
        i += 1;
    }
    v
}

/// A link before its tunnel: its server is let out if it is written as an
/// address.
pub open spec fn let_out(l: LinkState, c: Conf) -> bool {
    &&& l.iface is None
    &&& l.generation == 0
    &&& l.health == Health::Down
    &&& !l.works
    &&& l.since is None
    &&& l.endpoint == crate::addr::address(c@.endpoint_host)
}

/// The rules as the country of now puts them in force.
pub open spec fn ruled(run: crate::resolver::RuleRun, rule: Rule, country: Seq<char>) -> bool {
    &&& run.name@ == rule.name@
    &&& run.when@ == rule.when@
    &&& crate::text::seen(run.lists@) == crate::text::seen(rule.lists@)
    &&& run.tunnels@ == rule.tunnels@
    &&& run.active == rule.when@.holds(country)
    &&& run.current is None
}

/// The rules that are in force from the start, as lines.
pub open spec fn first_rules(rules: Seq<Rule>, country: Seq<char>) -> Seq<(Seq<char>, bool)>
    decreases rules.len(),
{
    if rules.len() == 0 {
        seq![]
    } else if rules.last().when@.holds(country) {
        first_rules(rules.drop_last(), country).push((rules.last().name@, true))
    } else {
        first_rules(rules.drop_last(), country)
    }
}

proof fn lemma_first_rules(
    runs: Seq<crate::resolver::RuleRun>,
    rules: Seq<Rule>,
    country: Seq<char>,
)
    requires
        runs.len() == rules.len(),
        forall|i: int|
            0 <= i < rules.len() ==> crate::status::fresh(#[trigger] runs[i], rules[i]),
    ensures
        crate::status::changes(runs, country) == first_rules(rules, country),
    decreases rules.len(),
{
    if rules.len() > 0 {
        let a = runs.drop_last();
        let b = rules.drop_last();
        assert forall|i: int| 0 <= i < b.len() implies crate::status::fresh(
            #[trigger] a[i],
            b[i],
        ) by {
            assert(a[i] == runs[i] && b[i] == rules[i]);
        }
        lemma_first_rules(a, b, country);
        assert(crate::status::fresh(runs[runs.len() - 1], rules[rules.len() - 1]));
    }
}

/// The resolver before its first answer: every server written as an
/// address is let out, the rules of the country are in force, the hosts of
/// before are there, and nothing is routed yet. With the lines for the
/// journal.
pub fn open(
    lists: Lists,
    settings: &Settings,
    confs: &Vec<Conf>,
    tunnel_dns: Ipv4Addr,
    country: &Country,
    hosts: &Vec<Loaded>,
) -> (r: (Resolver, Vec<String>))
    requires
        lists.sound(),
        confs@.len() == settings.tunnels@.len(),
    ensures
        r.0.wf(),
        r.0.lists == lists,
        r.0.tunnel_dns == tunnel_dns,
        r.0.upstream is None && r.0.network is None,
        r.0.core.links@.len() == confs@.len(),
        forall|i: int|
            0 <= i < confs@.len() ==> (#[trigger] r.0.core.links@[i]).0@
                == settings.tunnels@[i].name@ && let_out(r.0.core.links@[i].1, confs@[i]),
        r.0.core.rules@.len() == settings.rules@.len(),
        forall|i: int|
            0 <= i < settings.rules@.len() ==> ruled(
                #[trigger] r.0.core.rules@[i],
                settings.rules@[i],
                country@.code(),
            ),
        !r.0.core.owner && !r.0.core.use_fakeip && !r.0.core.stopped,
        r.0.hosts@ == crate::holding::with_all_loaded(
            Map::empty(),
            hosts@,
            settings.rules@.len(),
        ),
        r.0.subnets@ == Map::<u64, crate::resolver::NetRun>::empty(),
        r.0.unrouted@ == Map::<u64, crate::addr::Subnet>::empty(),
        r.0.pf_stale && r.0.pf_shape is None && !r.0.dirty,
        crate::text::seen(r.1@) == seq![
            "country "@ + country@.code() + " from="@ + country@.from(),
        ] + rule_lines(first_rules(settings.rules@, country@.code())),
{
    let mut res = Resolver::new(lists, &settings.rules, tunnel_names(settings), tunnel_dns);
    let ghost start = res;
    let mut i: usize = 0;
    while i < confs.len()
        invariant
            i <= confs@.len(),
            confs@.len() == settings.tunnels@.len(),
            start.core.links@.len() == confs@.len(),
            res.core.links@.len() == confs@.len(),
            forall|j: int|
                0 <= j < confs@.len() ==> (#[trigger] start.core.links@[j]).0@
                    == settings.tunnels@[j].name@ && crate::status::unheard(
                    start.core.links@[j].1,
                ),
            forall|j: int|
                0 <= j < confs@.len() ==> (#[trigger] res.core.links@[j]).0@
                    == settings.tunnels@[j].name@,
            forall|j: int| 0 <= j < i ==> let_out((#[trigger] res.core.links@[j]).1, confs@[j]),
            forall|j: int|
                i <= j < confs@.len() ==> #[trigger] res.core.links@[j] == start.core.links@[j],
            res == (Resolver {
                core: crate::resolver::Core { links: res.core.links, ..start.core },
                ..start
            }),
        decreases confs@.len() - i,
    {
        if let Some(ip) = confs[i].endpoint_ip() {
            let mut l = LinkState::new();
            l.endpoint = Some(ip);
            res.set_link(i, l);
        }
        proof {
            assert(start.core.links@[i as int].1.endpoint is None);
        }
        i += 1;
    }
    let ghost opened = res;
    let (code, from) = country.now();
    let mut s = String::from_str("country ");
    s.append(code);
    s.append(" from=");
    s.append(from);
    let mut lines: Vec<String> = Vec::new();
    proof {
        crate::text::lemma_seen_push(lines@, s);
    }
    lines.push(s);
    proof {
        assert(crate::text::seen(lines@) =~= seq![s@]);
        lemma_first_rules(opened.core.rules@, settings.rules@, country@.code());
    }
    let changed = res.set_country(code);
    add_rule_lines(&mut lines, &changed);
    proof {
        assert forall|i: int| 0 <= i < settings.rules@.len() implies ruled(
            #[trigger] res.core.rules@[i],
            settings.rules@[i],
            country@.code(),
        ) by {
            assert(crate::status::fresh(opened.core.rules@[i], settings.rules@[i]));
        }
    }
    res.load_hosts(hosts);
    (res, lines)
}

// ---------------------------------------------------------------------
// Laws.
// ---------------------------------------------------------------------

proof fn lemma_trim_feed(s: Seq<char>)
    ensures
        crate::text::trim(s + "\n"@) == crate::text::trim(s),
    decreases s.len(),
{
    reveal_strlit("\n");
    let t = s + "\n"@;
    if s.len() == 0 {
        let e = Seq::<char>::empty();
        assert(s =~= e);
        assert(t.drop_first() =~= e);
        assert(crate::text::strip_start(e, crate::text::spaces()) == e);
    } else if crate::text::space(s[0]) {
        assert(t[0] == s[0]);
        assert(t.drop_first() =~= s.drop_first() + "\n"@);
        lemma_trim_feed(s.drop_first());
    } else {
        assert(t[0] == s[0]);
        assert(t.last() == '\n');
        assert(t.drop_last() =~= s);
    }
}

/// Done twice, a mark leaves what it leaves done once, and no file but
/// its own is touched.
pub proof fn lemma_mark_done_twice(m: Mark, files: Map<Seq<char>, Seq<char>>)
    ensures
        m.done(m.done(files)) == m.done(files),
        m.done(files).remove(m.file()) == files.remove(m.file()),
{
    assert(m.done(m.done(files)) =~= m.done(files));
    assert(m.done(files).remove(m.file()) =~= files.remove(m.file()));
}

/// However often the owner's reason is set, its flag is there, and however
/// often it is taken away, it is not; every other file stays as it was.
pub proof fn lemma_killswitch_flag(state: Seq<char>, on: bool, files: Map<Seq<char>, Seq<char>>)
    ensures
        ({
            let m = killswitch_mark(state, on);
            let flag = beside(state, OWNER_FLAG@);
            &&& m.done(files).dom().contains(flag) == on
            &&& m.done(m.done(files)) == m.done(files)
            &&& m.done(files).remove(flag) == files.remove(flag)
        }),
{
    lemma_mark_done_twice(killswitch_mark(state, on), files);
}

/// However often the owner's country is set, the daemon reads that code
/// from its flag, and however often it is taken away, there is none to
/// read; every other file stays as it was.
pub proof fn lemma_country_flag(
    state: Seq<char>,
    code: Option<Seq<char>>,
    files: Map<Seq<char>, Seq<char>>,
)
    ensures
        ({
            let m = country_mark(state, code);
            let flag = beside(state, COUNTRY_FLAG@);
            let held = if m.done(files).dom().contains(flag) {
                Some(m.done(files)[flag])
            } else {
                None
            };
            &&& owner_in(held) == match code {
                Some(c) => code_in(c),
                None => None,
            }
            &&& m.done(m.done(files)) == m.done(files)
            &&& m.done(files).remove(flag) == files.remove(flag)
        }),
{
    let m = country_mark(state, code);
    lemma_mark_done_twice(m, files);
    match code {
        Some(c) => {
            lemma_owner_country_is_read(c);
        },
        None => {},
    }
}

/// The flags of the owner are three files.
pub proof fn lemma_flags_differ(state: Seq<char>)
    ensures
        beside(state, OWNER_FLAG@) != beside(state, COUNTRY_FLAG@),
        beside(state, OWNER_FLAG@) != beside(state, UPDATE_FLAG@),
        beside(state, COUNTRY_FLAG@) != beside(state, UPDATE_FLAG@),
{
    reveal_strlit("killswitch");
    reveal_strlit("country");
    reveal_strlit("update");
    let (o, c, u) = (
        beside(state, OWNER_FLAG@),
        beside(state, COUNTRY_FLAG@),
        beside(state, UPDATE_FLAG@),
    );
    assert(o.len() == c.len() + 3 && c.len() == u.len() + 1);
}

/// The country the owner sets is the one the daemon reads, and taking it
/// away leaves the services to be asked.
pub proof fn lemma_owner_country_is_read(text: Seq<char>)
    ensures
        owner_in(Some(text + "\n"@)) == code_in(text),
        owner_in(None) is None,
{
    lemma_trim_feed(text);
}

/// What is saved of the services' answer is read back: the code and when.
pub proof fn lemma_seen_country_is_read(code: Seq<char>, at: u64)
    requires
        crate::config::country_code(code),
    ensures
        seen_in(code + " "@ + crate::text::decimal(at as nat) + "\n"@) == Some((code, at)),
{
    reveal_strlit("\n");
    reveal_strlit(" ");
    let d = crate::text::decimal(at as nat);
    let e = Seq::<char>::empty();
    crate::text::lemma_decimal(at as nat);
    crate::text::lemma_number_decimal(at as nat, u64::MAX as nat);
    assert(crate::text::word(code));
    assert(crate::text::word(d));
    crate::text::lemma_words_one(code);
    crate::text::lemma_words_one(d);
    crate::text::lemma_words_join(seq![]);
    assert(crate::text::join(seq![], " "@) =~= e);
    crate::text::lemma_words_add(code, ' ', d + seq!['\n']);
    crate::text::lemma_words_add(d, '\n', e);
    assert(d + seq!['\n'] + e =~= d + seq!['\n']);
    assert(code + " "@ + d + "\n"@ =~= code + seq![' '] + (d + seq!['\n']));
    assert(seq![code] + (seq![d] + Seq::<Seq<char>>::empty()) =~= seq![code, d]);
    assert(crate::text::trim(code) == code) by {
        assert(crate::text::strip_start(code, crate::text::spaces()) == code);
        assert(crate::text::strip_end(code, crate::text::spaces()) == code);
    }
}

/// The owner's word on the country is the last: what the services say does
/// not count beside it.
pub proof fn lemma_owner_decides(k: Known, seen: Option<(Seq<char>, u64)>)
    requires
        k.owner is Some,
    ensures
        (Known { seen, ..k }).code() == k.code(),
        k.code() == k.owner->0,
{
}

/// No two tunnels of settings that are accepted have one address.
pub proof fn lemma_addresses_differ(
    tunnels: Seq<crate::config::WrittenTunnel>,
    base: Seq<char>,
    got: Seq<Result<Seq<char>, Seq<char>>>,
    i: int,
    j: int,
)
    requires
        all_confs(tunnels, base, got) is Ok,
        0 <= i < j < all_confs(tunnels, base, got)->Ok_0.len(),
    ensures
        all_confs(tunnels, base, got)->Ok_0[i].address != all_confs(
            tunnels,
            base,
            got,
        )->Ok_0[j].address,
    decreases got.len(),
{
    if got.len() > 0 {
        let files = all_confs(tunnels, base, got.drop_last())->Ok_0;
        let all = all_confs(tunnels, base, got)->Ok_0;
        assert(all.drop_last() =~= files);
        if j < files.len() {
            lemma_addresses_differ(tunnels, base, got.drop_last(), i, j);
        } else {
            let a = all[j].address;
            lemma_not_taken(files, a, i);
        }
    }
}

proof fn lemma_not_taken(files: Seq<crate::tunnel::File>, address: Ipv4Addr, i: int)
    requires
        same_address(files, address) >= files.len(),
        0 <= i < files.len(),
    ensures
        files[i].address != address,
    decreases files.len(),
{
    if i > 0 {
        lemma_not_taken(files.drop_first(), address, i - 1);
    }
}

/// No host that pf still holds is lost: it is among those restored, and a
/// saved one keeps the time of its last answer.
pub proof fn lemma_held_hosts_are_restored(
    v: Seq<Loaded>,
    held: Seq<(usize, Ipv4Addr)>,
    now: u64,
    i: int,
)
    requires
        0 <= i < held.len(),
    ensures
        knows(with_held(v, held, now), held[i].1),
        with_held(v, held, now).len() >= v.len(),
        with_held(v, held, now).take(v.len() as int) == v,
    decreases held.len(),
{
    let rest = held.drop_last();
    let w = with_held(v, rest, now);
    let all = with_held(v, held, now);
    lemma_keeps_saved(v, held, now);
    if i < rest.len() {
        lemma_held_hosts_are_restored(v, rest, now, i);
        let k = choose|k: int| 0 <= k < w.len() && (#[trigger] w[k]).ip == held[i].1;
        assert(all[k] == w[k]);
    } else if !knows(w, held[i].1) {
        assert(all.last().ip == held[i].1);
        assert(all[all.len() - 1].ip == held[i].1);
    }
}

proof fn lemma_keeps_saved(v: Seq<Loaded>, held: Seq<(usize, Ipv4Addr)>, now: u64)
    ensures
        with_held(v, held, now).len() >= v.len(),
        with_held(v, held, now).take(v.len() as int) == v,
    decreases held.len(),
{
    if held.len() > 0 {
        lemma_keeps_saved(v, held.drop_last(), now);
        let w = with_held(v, held.drop_last(), now);
        assert(with_held(v, held, now).take(v.len() as int) =~= w.take(v.len() as int));
    } else {
        assert(v.take(v.len() as int) =~= v);
    }
}

/// The country is the owner's, else the one the services agreed on, else
/// Russia, so that a mistake sends nothing past a tunnel; the services are
/// asked again when they never answered, or more than three hours ago.
pub proof fn lemma_which_country(k: Known, now: u64)
    ensures
        k.code() == if k.owner is Some {
            k.owner->0
        } else if k.seen is Some {
            (k.seen->0).0
        } else {
            "RU"@
        },
        k.from() == if k.owner is Some {
            "owner"@
        } else if k.seen is Some {
            "services"@
        } else {
            "default"@
        },
        k.aged(now) <==> k.seen is None || now > (k.seen->0).1 + 10_800,
{
}

/// A code is two capital letters with white space round them at most, and
/// the file of the services has one and the time.
pub proof fn lemma_what_is_read_of_a_country(text: Seq<char>)
    ensures
        ({
            let t = crate::text::trim(text);
            code_in(text) == if t.len() == 2 && 'A' <= t[0] <= 'Z' && 'A' <= t[1] <= 'Z' {
                Some(t)
            } else {
                None
            }
        }),
        owner_in(None) is None,
        owner_in(Some(text)) == code_in(text),
        ({
            let w = crate::text::words(text);
            seen_in(text) == if w.len() >= 2 && code_in(w[0]) is Some && crate::text::number(
                w[1],
                u64::MAX as nat,
            ) is Some {
                Some((code_in(w[0])->0, crate::text::number(w[1], u64::MAX as nat)->0 as u64))
            } else {
                None
            }
        }),
{
}

/// A flag raised is there and, if it was before, keeps what it held; one
/// written holds the text; one lowered is gone.
pub proof fn lemma_what_a_mark_does(p: Seq<char>, text: Seq<char>, files: Map<Seq<char>, Seq<char>>)
    ensures
        Mark::Raise(p).done(files).dom() == files.dom().insert(p),
        Mark::Raise(p).done(files)[p] == if files.dom().contains(p) {
            files[p]
        } else {
            seq![]
        },
        Mark::Write(p, text).done(files) == files.insert(p, text),
        Mark::Lower(p).done(files) == files.remove(p),
{
    if files.dom().contains(p) {
        assert(files.dom().insert(p) =~= files.dom());
    }
    assert(Mark::Raise(p).done(files).dom() =~= files.dom().insert(p));
}

/// The flags of the owner stand beside the state file, under their names.
pub proof fn lemma_where_the_flags_are(state: Seq<char>, code: Seq<char>)
    ensures
        ({
            let dir = crate::paths::directory(state);
            &&& killswitch_mark(state, true) == Mark::Raise(
                crate::pf::below(dir, "killswitch"@),
            )
            &&& killswitch_mark(state, false) == Mark::Lower(crate::pf::below(dir, "killswitch"@))
            &&& country_mark(state, Some(code)) == Mark::Write(
                crate::pf::below(dir, "country"@),
                code + "\n"@,
            )
            &&& country_mark(state, None) == Mark::Lower(crate::pf::below(dir, "country"@))
            &&& beside(state, UPDATE_FLAG@) == crate::pf::below(dir, "update"@)
        }),
{
}

proof fn lemma_same_address_is(files: Seq<crate::tunnel::File>, a: Ipv4Addr, i: int)
    requires
        0 <= i <= files.len(),
        forall|j: int| 0 <= j < i ==> (#[trigger] files[j]).address != a,
        i < files.len() ==> files[i].address == a,
    ensures
        same_address(files, a) == i,
    decreases i,
{
    if i > 0 {
        let r = files.drop_first();
        assert(files[0].address != a);
        assert forall|j: int| 0 <= j < i - 1 implies (#[trigger] r[j]).address != a by {
            assert(r[j] == files[j + 1]);
        }
        lemma_same_address_is(r, a, i - 1);
    }
}

/// The tunnel files are read in the order of the settings, and the first
/// that is wrong ends it: one that could not be read or is no tunnel file
/// is named by its path, and one with the address of an earlier one by the
/// names of both.
pub proof fn lemma_how_tunnel_files_are_read(
    tunnels: Seq<crate::config::WrittenTunnel>,
    base: Seq<char>,
    got: Seq<Result<Seq<char>, Seq<char>>>,
    text: Seq<char>,
    why: Seq<char>,
    i: int,
)
    ensures
        all_confs(tunnels, base, seq![]) == Ok::<Seq<crate::tunnel::File>, Seq<char>>(seq![]),
        all_confs(tunnels, base, got) matches Err(e) ==> all_confs(
            tunnels,
            base,
            got.push(Ok(text)),
        ) == Err::<Seq<crate::tunnel::File>, Seq<char>>(e),
        all_confs(tunnels, base, got) matches Ok(files) ==> {
            let t = tunnels[files.len() as int];
            let more = all_confs(tunnels, base, got.push(Ok(text)));
            &&& all_confs(tunnels, base, got.push(Err(why))) == Err::<
                Seq<crate::tunnel::File>,
                Seq<char>,
            >(crate::pf::below(base, t.conf) + ": "@ + why)
            &&& crate::tunnel::conf(text) matches Err(e) ==> more == Err::<
                Seq<crate::tunnel::File>,
                Seq<char>,
            >(crate::pf::below(base, t.conf) + ": "@ + e)
            &&& crate::tunnel::conf(text) matches Ok(f) ==> {
                &&& (forall|j: int| 0 <= j < files.len() ==> (#[trigger] files[j]).address
                    != f.address) ==> more == Ok::<Seq<crate::tunnel::File>, Seq<char>>(
                    files.push(f),
                )
                &&& 0 <= i < files.len() && files[i].address == f.address && (forall|j: int|
                    0 <= j < i ==> (#[trigger] files[j]).address != f.address) ==> more == Err::<
                    Seq<crate::tunnel::File>,
                    Seq<char>,
                >(
                    "tunnel "@ + t.name + ": address "@ + f.address.shown() + " as in tunnel "@
                        + tunnels[i].name,
                )
            }
        },
{
    assert(got.push(Ok(text)).drop_last() =~= got);
    assert(got.push(Err(why)).drop_last() =~= got);
    if let Ok(files) = all_confs(tunnels, base, got) {
        if let Ok(f) = crate::tunnel::conf(text) {
            if forall|j: int| 0 <= j < files.len() ==> (#[trigger] files[j]).address != f.address {
                lemma_same_address_is(files, f.address, files.len() as int);
            }
            if 0 <= i < files.len() && files[i].address == f.address && forall|j: int|
                0 <= j < i ==> (#[trigger] files[j]).address != f.address {
                lemma_same_address_is(files, f.address, i);
            }
        }
    }
}

/// A saved host goes to the rule of its name; where no rule has the name,
/// to the first that has a list of the name; else to none.
pub proof fn lemma_which_rule_a_host_has(
    rules: Seq<crate::config::Routing>,
    name: Seq<char>,
    i: int,
)
    requires
        0 <= i < rules.len(),
    ensures
        rules[i].name == name && (forall|j: int| 0 <= j < i ==> (#[trigger] rules[j]).name != name)
            ==> rule_for(rules, name) == Some(i),
        (forall|j: int| 0 <= j < rules.len() ==> (#[trigger] rules[j]).name != name)
            && rules[i].lists.contains(name) && (forall|j: int|
            0 <= j < i ==> !(#[trigger] rules[j]).lists.contains(name)) ==> rule_for(rules, name)
            == Some(i),
        (forall|j: int|
            0 <= j < rules.len() ==> (#[trigger] rules[j]).name != name
                && !rules[j].lists.contains(name)) ==> rule_for(rules, name) is None,
{
    let n = rules.len() as int;
    let p = |k: int| rules[k].name == name;
    let q = |k: int| rules[k].lists.contains(name);
    crate::resolver::lemma_lowest(p, n);
    crate::resolver::lemma_lowest(q, n);
    if rules[i].name == name && forall|j: int| 0 <= j < i ==> (#[trigger] rules[j]).name != name {
        assert forall|j: int| 0 <= j < i implies !#[trigger] p(j) by {}
        crate::resolver::lemma_lowest_is(p, i, n);
    }
    if forall|j: int| 0 <= j < n ==> (#[trigger] rules[j]).name != name {
        if let Some(k) = crate::resolver::lowest(p, n) {
            assert(p(k));
            assert(rules[k].name == name);
        }
        if rules[i].lists.contains(name) && forall|j: int|
            0 <= j < i ==> !(#[trigger] rules[j]).lists.contains(name) {
            assert forall|j: int| 0 <= j < i implies !#[trigger] q(j) by {}
            crate::resolver::lemma_lowest_is(q, i, n);
        }
    }
    if forall|j: int|
        0 <= j < n ==> (#[trigger] rules[j]).name != name && !rules[j].lists.contains(name) {
        if let Some(k) = crate::resolver::lowest(q, n) {
            assert(q(k));
            assert(!rules[k].lists.contains(name));
        }
    }
}

/// Of the saved hosts those are restored whose rule is still there, with
/// the time of their last answer; of those that pf holds, the ones not
/// saved, as if they were answered now.
pub proof fn lemma_which_hosts_are_restored(
    saved: Seq<(Ipv4Addr, crate::state::Kept)>,
    rules: Seq<crate::config::Routing>,
    v: Seq<Loaded>,
    held: Seq<(usize, Ipv4Addr)>,
    rule: usize,
    ip: Ipv4Addr,
    now: u64,
)
    ensures
        still_ruled(saved, rules) == saved.filter(
            |e: (Ipv4Addr, crate::state::Kept)| rule_for(rules, e.1.rule) is Some,
        ).map_values(
            |e: (Ipv4Addr, crate::state::Kept)|
                Loaded {
                    ip: e.0,
                    rule: (rule_for(rules, e.1.rule)->0) as usize,
                    last: e.1.last,
                },
        ),
        with_held(v, seq![], now) == v,
        with_held(v, held.push((rule, ip)), now) == if (exists|i: int|
            0 <= i < with_held(v, held, now).len() && (#[trigger] with_held(v, held, now)[i]).ip
                == ip) {
            with_held(v, held, now)
        } else {
            with_held(v, held, now).push(Loaded { ip, rule, last: now })
        },
    decreases saved.len(),
{
    reveal(Seq::filter);
    let p = |e: (Ipv4Addr, crate::state::Kept)| rule_for(rules, e.1.rule) is Some;
    let f = |e: (Ipv4Addr, crate::state::Kept)|
        Loaded { ip: e.0, rule: (rule_for(rules, e.1.rule)->0) as usize, last: e.1.last };
    if saved.len() > 0 {
        lemma_which_hosts_are_restored(saved.drop_last(), rules, v, held, rule, ip, now);
    }
    assert(still_ruled(saved, rules) =~= saved.filter(p).map_values(f));
    assert(held.push((rule, ip)).drop_last() =~= held);
}

/// The rules in force at the start are those whose condition holds, in
/// order.
pub proof fn lemma_the_first_rules(rules: Seq<Rule>, country: Seq<char>)
    ensures
        first_rules(rules, country) == rules.filter(
            |r: Rule| r.when@.holds(country),
        ).map_values(|r: Rule| (r.name@, true)),
    decreases rules.len(),
{
    reveal(Seq::filter);
    let p = |r: Rule| r.when@.holds(country);
    let f = |r: Rule| (r.name@, true);
    if rules.len() > 0 {
        lemma_the_first_rules(rules.drop_last(), country);
    }
    assert(first_rules(rules, country) =~= rules.filter(p).map_values(f));
}

/// A rule that came into force or out of it is told so, by its name.
pub proof fn lemma_a_rule_line(name: Seq<char>, on: bool)
    ensures
        rule_line((name, true)) == "rule "@ + name + " "@ + "in force"@,
        rule_line((name, false)) == "rule "@ + name + " "@ + "out of force"@,
{
}

/// The keys that are dropped from tunnel files are told by the tunnel,
/// where there are any.
pub proof fn lemma_which_keys_are_dropped(
    tunnels: Seq<crate::config::WrittenTunnel>,
    files: Seq<crate::tunnel::File>,
    f: crate::tunnel::File,
)
    ensures
        ignored(tunnels, seq![]) == Seq::<Seq<char>>::empty(),
        ignored(tunnels, files.push(f)) == if f.ignored.len() == 0 {
            ignored(tunnels, files)
        } else {
            ignored(tunnels, files).push(
                tunnels[files.len() as int].name + ":"@ + crate::text::join(f.ignored, ","@),
            )
        },
{
    assert(files.push(f).drop_last() =~= files);
}

/// At the start every server that is written as an address is let out, and
/// no tunnel is there; the rules are in force as their conditions say for
/// the country, and run over nothing yet.
pub proof fn lemma_how_it_begins(
    l: LinkState,
    c: Conf,
    run: crate::resolver::RuleRun,
    rule: Rule,
    country: Seq<char>,
)
    ensures
        let_out(l, c) ==> l.endpoint == crate::addr::address(c.endpoint_host@) && l.iface is None
            && l.health == Health::Down && !l.works && l.since is None && l.generation == 0,
        ruled(run, rule, country) ==> run.active == rule.when@.holds(country) && run.current is None
            && run.tunnels@ == rule.tunnels@ && run.name@ == rule.name@ && run.when@ == rule.when@,
        ruled(run, rule, country) ==> crate::text::seen(run.lists@) == crate::text::seen(rule.lists@),
{
}

/// The lines about sources and refused entries come after their word, one
/// each and in order.
pub proof fn lemma_lines_after_a_word(word: Seq<char>, v: Seq<Seq<char>>, i: int)
    requires
        0 <= i < v.len(),
    ensures
        after_word(word, v).len() == v.len(),
        after_word(word, v)[i] == word + v[i],
{
}

/// The first line says what there is of everything.
pub proof fn lemma_the_first_line_of_the_journal(
    plan: crate::config::Plan,
    files: Seq<crate::tunnel::File>,
    lists: crate::lists::Contents,
    missing: nat,
    stale: nat,
    saved: nat,
    listen: (Seq<char>, u16),
    dns: Ipv4Addr,
    window: u64,
    use_fakeip: bool,
)
    ensures
        start_line(plan, files, lists, missing, stale, saved, listen, dns, window, use_fakeip)
            == "start daemon rules="@ + crate::text::decimal(plan.rules.len()) + " tunnels="@
            + crate::text::decimal(plan.tunnels.len()) + " lists="@ + crate::text::decimal(
            plan.lists.len(),
        ) + " suffixes="@ + crate::text::decimal(lists.suffixes.len()) + " subnets="@
            + crate::text::decimal(lists.subnets.len()) + " rejected="@ + crate::text::decimal(
            lists.rejected.len(),
        ) + " missing="@ + crate::text::decimal(missing) + " stale="@ + crate::text::decimal(stale)
            + " saved_hosts="@ + crate::text::decimal(saved) + " listen="@ + (listen.0 + ":"@
            + crate::text::decimal(listen.1 as nat)) + " tunnel_dns="@ + dns.shown() + " window="@
            + crate::text::decimal(window as nat) + "s use_fakeip="@ + (if use_fakeip {
            "auto"@
        } else {
            "off"@
        }) + " conf_ignored="@ + ("["@ + crate::text::join(
            ignored(plan.tunnels, files).map_values(|s: Seq<char>| crate::text::quoted(s)),
            ", "@,
        ) + "]"@),
{
}

} // verus!
