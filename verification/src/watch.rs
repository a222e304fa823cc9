//! The watch of the daemon: it follows the network, sleep, upstream fake
//! addresses and the country, puts the rules in force, and says when the
//! hosts are expired and saved.

use vstd::prelude::*;
use vstd::string::*;

use crate::daemon::{add_lines, add_rule_lines, owner_of, Country};
use crate::degraded::{elapsed, LONGEST, MINUTE, SECOND};
use crate::geo::Asked;
use crate::link::{same_network, Ctl};
use crate::links::Reasons;
use crate::lists::Lists;
use crate::net::Network;
use crate::resolver::Resolver;
use crate::text::{same, show, show_bool};
use crate::upstream::Upstream;

verus! {

pub const NET_POLL: u128 = 30 * SECOND;

pub const FAKEIP_EVERY: u128 = 5 * MINUTE;

pub const SAVE_EVERY: u128 = MINUTE;

pub const SWEEP_EVERY: u128 = 10 * MINUTE;

pub const STATUS_EVERY: u128 = 10 * MINUTE;

pub const COUNTRY_RETRY: u128 = 5 * MINUTE;

/// The tunnels of a daemon that died keep carrying until the new ones take
/// the routes, or this long.
pub const STRAYS_WAIT: u128 = 20 * SECOND;

/// amneziawg-go of a daemon that died.
#[derive(Debug)]
pub struct Strays {
    pub pids: Vec<u32>,
    /// Since when they wait.
    pub since: u128,
}

pub struct Watch {
    pub network: Option<Network>,
    pub fakeip_at: u128,
    pub save_at: u128,
    pub sweep_at: u128,
    pub status_at: u128,
    /// Trust a resolver answering with fake addresses in the network.
    pub use_fakeip: bool,
    pub wakes: u64,
    /// The reasons of the rules in force, as last written.
    pub reasons: Vec<(String, Reasons)>,
    pub country: Country,
    /// The country whose rules are in force.
    pub ruled: String,
    /// The country is asked at this time.
    pub country_at: Option<u128>,
    /// The network the country is being asked on.
    pub asking: Option<Network>,
    /// The DNS of the Mac is ours.
    pub system_dns: bool,
    /// The services are looked at again at this time: a new network may
    /// bring one that does not ask the resolver yet.
    pub dns_at: Option<u128>,
    /// Sources with neither a file nor a copy, and file sources running on
    /// their copy, as the last build found them. Written to the journal
    /// with every status line: a source that never comes back would
    /// otherwise be named once, at the start, and never again.
    pub missing: Vec<String>,
    pub stale: Vec<String>,
    pub strays: Option<Strays>,
}

pub open spec fn network_shown(n: Option<Network>) -> Seq<char> {
    match n {
        Some(n) => n.shown(),
        None => "none"@,
    }
}

/// The network, or that there is none.
pub fn show_network(n: &Option<Network>) -> (r: String)
    ensures
        r@ == network_shown(*n),
{
    match n {
        Some(n) => n.to_string(),
        None => String::from_str("none"),
    }
}

/// What a resolver knows of the network it is on.
pub open spec fn on_network(r: &Resolver, n: Option<Network>) -> bool {
    match n {
        Some(n) => r.upstream == Some(
            Upstream {
                server: n.dns,
                port: crate::upstream::DNS_PORT,
                bound_if: if n.index == 0 {
                    None
                } else {
                    Some(n.index as u32)
                },
            },
        ) && (r.network matches Some((i, d)) && i@ == n.iface@ && d == n.dns),
        None => r.upstream is None && r.network is None,
    }
}

/// A resolver on another network: it asks the DNS of that one, and trusts
/// no fake addresses until they are seen there.
pub open spec fn moved(before: &Resolver, after: &Resolver, n: Option<Network>) -> bool {
    &&& on_network(after, n)
    &&& *after == (Resolver {
        upstream: after.upstream,
        network: after.network,
        core: crate::resolver::Core { use_fakeip: false, ..before.core },
        ..*before
    })
}

fn move_to(r: &mut Resolver, n: &Option<Network>)
    ensures
        moved(old(r), final(r), *n),
{
    match n {
        Some(n) => r.set_network(Some(n)),
        None => r.set_network(None),
    }
    r.set_use_fakeip(false);
}

/// Follows the network apart from the watch and the links, which may sit
/// in a probe for many seconds: the resolver asks the DNS of a new network
/// at once. True when the network is another than `known`.
pub fn track_network(r: &mut Resolver, known: &Option<Network>, n: &Option<Network>) -> (changed:
    bool)
    ensures
        changed == (crate::link::place_seen(*known) != crate::link::place_seen(*n)),
        changed ==> moved(old(r), final(r), *n),
        !changed ==> *final(r) == *old(r),
{
    if same_network(known, n) {
        return false;
    }
    move_to(r, n);
    true
}

/// What a link is told, and whether that is news to it.
pub fn tell_link(ctl: Ctl, wanted: bool, wakes: u64) -> (r: (Ctl, bool))
    ensures
        r.0 == (Ctl { wanted, wakes, ..ctl }),
        r.1 == (r.0 != ctl),
{
    let changed = ctl.wanted != wanted || ctl.wakes != wakes;
    (Ctl { wanted, wakes, stop: ctl.stop }, changed)
}

pub open spec fn reasons_seen(v: Seq<(String, Reasons)>) -> Seq<(Seq<char>, Reasons)> {
    v.map_values(|e: (String, Reasons)| (e.0@, e.1))
}

/// The reasons of a rule, of the first with its name.
pub open spec fn reasons_of(v: Seq<(Seq<char>, Reasons)>, rule: Seq<char>) -> Option<Reasons>
    decreases v.len(),
{
    if v.len() == 0 {
        None
    } else if v[0].0 == rule {
        Some(v[0].1)
    } else {
        reasons_of(v.drop_first(), rule)
    }
}

/// The lines for the rules whose reasons are others than they were.
pub open spec fn reason_lines(
    before: Seq<(Seq<char>, Reasons)>,
    now: Seq<(Seq<char>, Reasons)>,
) -> Seq<Seq<char>>
    decreases now.len(),
{
    if now.len() == 0 {
        seq![]
    } else {
        let rest = reason_lines(before, now.drop_last());
        let (rule, why) = now.last();
        if reasons_of(before, rule) != Some(why) {
            rest.push("killswitch "@ + rule + " "@ + why.shown())
        } else {
            rest
        }
    }
}

fn find_reasons(v: &Vec<(String, Reasons)>, rule: &str) -> (r: Option<Reasons>)
    ensures
        r == reasons_of(reasons_seen(v@), rule@),
{
    let ghost all = reasons_seen(v@);
    let mut i: usize = 0;
    proof {
        assert(all.skip(0) =~= all);
    }
    while i < v.len()
        invariant
            i <= v@.len(),
            all == reasons_seen(v@),
            reasons_of(all, rule@) == reasons_of(all.skip(i as int), rule@),
        decreases v@.len() - i,
    {
        proof {
            assert(all.skip(i as int)[0] == (v@[i as int].0@, v@[i as int].1));
            assert(all.skip(i as int).drop_first() =~= all.skip(i + 1));
        }
        if same(v[i].0.as_str(), rule) {
            return Some(v[i].1);
        }
        i += 1;
    }
    None
}

/// Numbers as a list of them is shown.
pub open spec fn numbers_shown(v: Seq<u32>) -> Seq<char> {
    "["@ + crate::text::join(v.map_values(|n: u32| crate::text::decimal(n as nat)), ", "@) + "]"@
}

pub fn show_numbers(v: &Vec<u32>) -> (r: String)
    ensures
        r@ == numbers_shown(v@),
{
    let ghost want = v@.map_values(|n: u32| crate::text::decimal(n as nat));
    let mut t: Vec<String> = Vec::new();
    let mut i: usize = 0;
    while i < v.len()
        invariant
            i <= v@.len(),
            t@.len() == i,
            forall|j: int| 0 <= j < i ==> (#[trigger] t@[j])@ == crate::text::decimal(v@[j] as nat),
        decreases v@.len() - i,
    {
        t.push(show(v[i] as u128));
        i += 1;
    }
    proof {
        assert(crate::text::seen(t@) =~= want);
    }
    let mut s = String::from_str("[");
    s.append(crate::text::join_of(&t, ", ").as_str());
    s.append("]");
    s
}

/// What of the housekeeping is due.
#[derive(Clone, Copy, Debug, PartialEq, Eq, Structural)]
pub struct Due {
    /// The DNS of the services is taken again.
    pub dns: bool,
    /// The hosts changed and are saved.
    pub save: bool,
    /// The hosts that lived out their window go.
    pub sweep: bool,
    /// The status is written.
    pub status: bool,
}

/// A line for the journal, or none.
#[derive(Debug)]
pub enum Said {
    Nothing,
    Line(String),
    /// Counted with those of its kind.
    Burst(String),
}

impl Watch {
    pub fn new(use_fakeip: bool, system_dns: bool, country: Country, now: u128) -> (r: Watch)
        requires
            now <= LONGEST,
        ensures
            r.network is None,
            r.fakeip_at == now,
            r.save_at == now + SAVE_EVERY,
            r.sweep_at == now + SWEEP_EVERY,
            r.status_at == now + STATUS_EVERY,
            r.use_fakeip == use_fakeip,
            r.wakes == 0,
            r.reasons@.len() == 0,
            r.country == country,
            r.ruled@ == country@.code(),
            r.country_at is None && r.asking is None && r.dns_at is None && r.strays is None,
            r.system_dns == system_dns,
            r.missing@.len() == 0 && r.stale@.len() == 0,
    {
        let ruled = country.now().0.to_owned();
        Watch {
            network: None,
            fakeip_at: now,
            save_at: now + SAVE_EVERY,
            sweep_at: now + SWEEP_EVERY,
            status_at: now + STATUS_EVERY,
            use_fakeip,
            wakes: 0,
            reasons: Vec::new(),
            country,
            ruled,
            country_at: None,
            asking: None,
            system_dns,
            dns_at: None,
            missing: Vec::new(),
            stale: Vec::new(),
            strays: None,
        }
    }

    /// The Mac slept for `gap`: every link hears of it, and a country that
    /// is long known is asked again.
    pub fn woke(&mut self, gap: u128, secs: u64, now: u128) -> (r: String)
        requires
            old(self).wakes < u64::MAX,
        ensures
            r@ == "wake slept="@ + crate::text::decimal((gap / SECOND) as nat) + "s"@,
            *final(self) == (Watch {
                wakes: (old(self).wakes + 1) as u64,
                country_at: if old(self).country@.aged(secs) {
                    Some(now)
                } else {
                    old(self).country_at
                },
                ..*old(self)
            }),
    {
        self.wakes = self.wakes + 1;
        if self.country.stale(secs) {
            self.country_at = Some(now);
        }
        let mut s = String::from_str("wake slept=");
        s.append(show(gap / SECOND).as_str());
        s.append("s");
        s
    }

    /// On another network, or on none. No upstream FakeIP until it is seen
    /// in this network: the subnets are held meanwhile, not let out past
    /// the tunnel. A network of its own may be in another country; back on
    /// the one of the last answer, as after a wake.
    pub fn follow_network(
        &mut self,
        r: &mut Resolver,
        n: Option<Network>,
        secs: u64,
        now: u128,
    ) -> (line: Option<String>)
        ensures
            crate::link::place_seen(old(self).network) == crate::link::place_seen(n) ==> line is None
                && *final(self) == *old(self) && *final(r) == *old(r),
            crate::link::place_seen(old(self).network) != crate::link::place_seen(n) ==> {
                &&& line matches Some(l) && l@ == "network "@ + network_shown(old(self).network)
                    + " -> "@ + network_shown(n)
                &&& moved(old(r), final(r), n)
                &&& *final(self) == (Watch {
                    network: n,
                    fakeip_at: now,
                    dns_at: Some(now),
                    country_at: if n is Some && (crate::link::place_seen(n) != old(
                        self,
                    ).country@.seen_on || old(self).country@.aged(secs)) {
                        Some(now)
                    } else {
                        old(self).country_at
                    },
                    ..*old(self)
                })
            },
    {
        if same_network(&self.network, &n) {
            return None;
        }
        let mut s = String::from_str("network ");
        s.append(show_network(&self.network).as_str());
        s.append(" -> ");
        s.append(show_network(&n).as_str());
        move_to(r, &n);
        self.fakeip_at = now;
        self.dns_at = Some(now);
        if n.is_some() && (!same_network(&n, &self.country.seen_on) || self.country.stale(secs)) {
            self.country_at = Some(now);
        }
        self.network = n;
        Some(s)
    }

    /// Whether the network DNS is to be asked for fake addresses, and
    /// where; without a network there are none.
    pub fn fakeip_due(&mut self, r: &mut Resolver, now: u128) -> (ask: Option<Upstream>)
        requires
            now <= LONGEST,
        ensures
            now < old(self).fakeip_at ==> ask is None && *final(self) == *old(self) && *final(r)
                == *old(r),
            now >= old(self).fakeip_at ==> {
                &&& *final(self) == (Watch {
                    fakeip_at: (now + FAKEIP_EVERY) as u128,
                    ..*old(self)
                })
                &&& match old(self).network {
                    Some(n) => *final(r) == *old(r) && ask == if old(self).use_fakeip {
                        Some(
                            Upstream {
                                server: n.dns,
                                port: crate::upstream::DNS_PORT,
                                bound_if: if n.index == 0 {
                                    None
                                } else {
                                    Some(n.index as u32)
                                },
                            },
                        )
                    } else {
                        None
                    },
                    None => ask is None && *final(r) == if old(self).use_fakeip {
                        Resolver {
                            core: crate::resolver::Core { use_fakeip: false, ..old(r).core },
                            ..*old(r)
                        }
                    } else {
                        *old(r)
                    },
                }
            },
    {
        if now < self.fakeip_at {
            return None;
        }
        self.fakeip_at = now + FAKEIP_EVERY;
        if !self.use_fakeip {
            return None;
        }
        match &self.network {
            Some(n) => Some(n.upstream()),
            None => {
                r.set_use_fakeip(false);
                None
            },
        }
    }

    /// What the network DNS showed; a failure changes nothing.
    pub fn fakeip_said(&self, r: &mut Resolver, got: Result<bool, String>) -> (line: String)
        ensures
            match got {
                Ok(p) => line@ == "upstream-fakeip "@ + crate::text::shown_bool(p) && *final(r) == (
                Resolver {
                    core: crate::resolver::Core { use_fakeip: p, ..old(r).core },
                    ..*old(r)
                }),
                Err(e) => line@ == "upstream-fakeip-fail "@ + e@ && *final(r) == *old(r),
            },
    {
        match got {
            Ok(p) => {
                r.set_use_fakeip(p);
                let mut s = String::from_str("upstream-fakeip ");
                s.append(show_bool(p));
                s
            },
            Err(e) => {
                let mut s = String::from_str("upstream-fakeip-fail ");
                s.append(e.as_str());
                s
            },
        }
    }

    /// The owner's flag as it is now.
    pub fn owner_says(&mut self, flag: Option<&str>)
        ensures
            final(self).country@ == (crate::daemon::Known {
                owner: crate::daemon::owner_in(
                    match flag {
                        Some(t) => Some(t@),
                        None => None,
                    },
                ),
                ..old(self).country@
            }),
            *final(self) == (Watch { country: final(self).country, ..*old(self) }),
    {
        self.country.owner = owner_of(flag);
    }

    /// What the services said, of the asking under way; the line for the
    /// journal, and the text of the file of the country last seen when
    /// there is a new one. An answer from a network that was left is
    /// dropped: it is asked again on the new one.
    pub fn take_country(&mut self, got: Result<Asked, String>, secs: u64, now: u128) -> (r: (
        String,
        Option<String>,
    ))
        requires
            now <= LONGEST,
        ensures
            final(self).asking is None,
            ({
                let here = crate::link::place_seen(old(self).asking) == crate::link::place_seen(
                    old(self).network,
                );
                match got {
                    Err(e) => r.0@ == "country-fail task: "@ + e@ && r.1 is None && *final(self)
                        == (Watch { asking: None, ..*old(self) }),
                    Ok(a) => if !here {
                        &&& r.0@ == "country dropped: network changed; "@ + a.shown@
                        &&& r.1 is None
                        &&& *final(self) == (Watch { asking: None, ..*old(self) })
                    } else {
                        match a.country {
                            None => {
                                &&& r.0@ == "country-fail "@ + a.shown@
                                &&& r.1 is None
                                &&& *final(self) == (Watch {
                                    asking: None,
                                    country_at: Some((now + COUNTRY_RETRY) as u128),
                                    ..*old(self)
                                })
                            },
                            Some(code) => {
                                &&& r.0@ == "country seen "@ + code@ + ": "@ + a.shown@
                                &&& r.1 matches Some(t) && t@ == code@ + " "@
                                    + crate::text::decimal(secs as nat) + "\n"@
                                &&& final(self).country@ == (crate::daemon::Known {
                                    seen: Some((code@, secs)),
                                    seen_on: crate::link::place_seen(old(self).asking),
                                    ..old(self).country@
                                })
                                &&& *final(self) == (Watch {
                                    asking: None,
                                    country: final(self).country,
                                    ..*old(self)
                                })
                            },
                        }
                    },
                }
            }),
    {
        let here = same_network(&self.asking, &self.network);
        let on = self.asking.take();
        match got {
            Err(e) => {
                let mut s = String::from_str("country-fail task: ");
                s.append(e.as_str());
                (s, None)
            },
            Ok(a) => {
                if !here {
                    let mut s = String::from_str("country dropped: network changed; ");
                    s.append(a.shown.as_str());
                    return (s, None);
                }
                match a.country {
                    None => {
                        let mut s = String::from_str("country-fail ");
                        s.append(a.shown.as_str());
                        self.country_at = Some(now + COUNTRY_RETRY);
                        (s, None)
                    },
                    Some(code) => {
                        let mut s = String::from_str("country seen ");
                        s.append(code.as_str());
                        s.append(": ");
                        s.append(a.shown.as_str());
                        let mut t = code.clone();
                        t.append(" ");
                        t.append(show(secs as u128).as_str());
                        t.append("\n");
                        self.country.seen = Some((code, secs));
                        self.country.seen_on = on;
                        (s, Some(t))
                    },
                }
            },
        }
    }

    /// Whether the services are to be asked now, and on which network.
    pub fn ask(&mut self, now: u128) -> (r: Option<Network>)
        ensures
            ({
                let due = old(self).asking is None && old(self).network is Some && (old(
                    self,
                ).country_at matches Some(at) && now >= at);
                &&& r is Some <==> due
                &&& !due ==> *final(self) == *old(self)
                &&& due ==> {
                    &&& crate::link::place_seen(r) == crate::link::place_seen(old(self).network)
                    &&& crate::link::place_seen(final(self).asking) == crate::link::place_seen(
                        old(self).network,
                    )
                    &&& *final(self) == (Watch {
                        country_at: None,
                        asking: final(self).asking,
                        ..*old(self)
                    })
                }
            }),
    {
        let due = match self.country_at {
            Some(at) => now >= at,
            None => false,
        };
        if self.asking.is_some() || !due {
            return None;
        }
        match &self.network {
            None => None,
            Some(n) => {
                let on = n.copy();
                let given = n.copy();
                self.country_at = None;
                self.asking = Some(on);
                Some(given)
            },
        }
    }

    /// A country that changed puts other rules in force.
    pub fn follow_country(&mut self, r: &mut Resolver) -> (lines: Vec<String>)
        ensures
            final(self).ruled@ == old(self).country@.code(),
            *final(self) == (Watch { ruled: final(self).ruled, ..*old(self) }),
            old(self).ruled@ == old(self).country@.code() ==> lines@.len() == 0 && *final(r)
                == *old(r),
            old(self).ruled@ != old(self).country@.code() ==> {
                let code = old(self).country@.code();
                &&& crate::text::seen(lines@) == seq![
                    "country "@ + old(self).ruled@ + " -> "@ + code + " from="@ + old(
                        self,
                    ).country@.from(),
                ] + crate::daemon::rule_lines(crate::status::changes(old(r).core.rules@, code))
                &&& final(r).core.rules@.len() == old(r).core.rules@.len()
                &&& forall|i: int|
                    0 <= i < old(r).core.rules@.len() ==> #[trigger] final(r).core.rules@[i] == (
                    crate::resolver::RuleRun {
                        active: old(r).core.rules@[i].when@.holds(code),
                        ..old(r).core.rules@[i]
                    })
                &&& *final(r) == (Resolver {
                    core: crate::resolver::Core { rules: final(r).core.rules, ..old(r).core },
                    pf_stale: old(r).pf_stale || crate::status::changes(
                        old(r).core.rules@,
                        code,
                    ).len() > 0,
                    ..*old(r)
                })
            },
    {
        let mut lines: Vec<String> = Vec::new();
        let (code, from) = self.country.now();
        if same(code, self.ruled.as_str()) {
            return lines;
        }
        let code = code.to_owned();
        let mut s = String::from_str("country ");
        s.append(self.ruled.as_str());
        s.append(" -> ");
        s.append(code.as_str());
        s.append(" from=");
        s.append(from);
        proof {
            crate::text::lemma_seen_push(lines@, s);
        }
        lines.push(s);
        proof {
            assert(crate::text::seen(lines@) =~= seq![s@]);
        }
        let changed = r.set_country(code.as_str());
        proof {
            assert(crate::status::named(changed@).len() == changed@.len());
        }
        add_rule_lines(&mut lines, &changed);
        self.ruled = code;
        lines
    }

    /// The lines for the rules whose reasons changed.
    pub fn log_reasons(&mut self, r: &Resolver) -> (lines: Vec<String>)
        ensures
            ({
                let now = crate::status::reasons_by_name(&r.core, r.core.rules@.len() as int);
                &&& crate::text::seen(lines@) == reason_lines(reasons_seen(old(self).reasons@), now)
                &&& reasons_seen(final(self).reasons@) == now
            }),
            *final(self) == (Watch { reasons: final(self).reasons, ..*old(self) }),
    {
        let now = r.reasons();
        let ghost all = reasons_seen(now@);
        let ghost before = reasons_seen(self.reasons@);
        let mut lines: Vec<String> = Vec::new();
        let mut i: usize = 0;
        proof {
            assert(all.take(0) =~= seq![]);
            assert(crate::text::seen(lines@) =~= seq![]);
        }
        while i < now.len()
            invariant
                i <= now@.len(),
                all == reasons_seen(now@),
                before == reasons_seen(self.reasons@),
                crate::text::seen(lines@) == reason_lines(before, all.take(i as int)),
            decreases now@.len() - i,
        {
            proof {
                assert(all.take(i + 1).drop_last() =~= all.take(i as int));
                assert(all.take(i + 1).last() == (now@[i as int].0@, now@[i as int].1));
            }
            let why = now[i].1;
            let known = match find_reasons(&self.reasons, now[i].0.as_str()) {
                Some(b) => b == why,
                None => false,
            };
            if !known {
                let mut s = String::from_str("killswitch ");
                s.append(now[i].0.as_str());
                s.append(" ");
                s.append(why.to_string().as_str());
                proof {
                    crate::text::lemma_seen_push(lines@, s);
                }
                lines.push(s);
            }
            i += 1;
        }
        proof {
            assert(all.take(i as int) =~= all);
        }
        self.reasons = now;
        lines
    }

    /// The tunnels a dead daemon left: they go once the new ones have the
    /// routes, or after a while. Returns them with the line for the
    /// journal.
    pub fn stop_strays(&mut self, r: &Resolver, now: u128) -> (gone: Option<(Vec<u32>, String)>)
        ensures
            ({
                let routed = forall|i: int|
                    0 <= i < r.core.rules@.len() && (#[trigger] r.core.rules@[i]).active
                        ==> r.core.aim(i) is Some;
                let due = old(self).strays matches Some(s) && (routed || crate::degraded::since(
                    s.since,
                    now,
                ) >= STRAYS_WAIT);
                &&& gone is Some <==> due
                &&& !due ==> *final(self) == *old(self)
                &&& due ==> {
                    &&& *final(self) == (Watch { strays: None, ..*old(self) })
                    &&& (gone->0).0 == (old(self).strays->0).pids
                    &&& (gone->0).1@ == "stray amneziawg-go stopped "@ + numbers_shown(
                        (gone->0).0@,
                    )
                }
            }),
    {
        let due = match &self.strays {
            Some(s) => r.all_routed() || elapsed(s.since, now) >= STRAYS_WAIT,
            None => false,
        };
        if !due {
            return None;
        }
        match self.strays.take() {
            Some(s) => {
                let mut l = String::from_str("stray amneziawg-go stopped ");
                l.append(show_numbers(&s.pids).as_str());
                Some((s.pids, l))
            },
            None => None,
        }
    }

    /// What is due, and when it is next.
    pub fn housekeeping(&mut self, r: &mut Resolver, now: u128) -> (due: Due)
        requires
            now <= LONGEST,
        ensures
            due == (Due {
                dns: old(self).dns_at matches Some(at) && now >= at,
                save: now >= old(self).save_at && old(r).dirty,
                sweep: now >= old(self).sweep_at,
                status: now >= old(self).status_at,
            }),
            *final(self) == (Watch {
                save_at: if now >= old(self).save_at {
                    (now + SAVE_EVERY) as u128
                } else {
                    old(self).save_at
                },
                sweep_at: if now >= old(self).sweep_at {
                    (now + SWEEP_EVERY) as u128
                } else {
                    old(self).sweep_at
                },
                status_at: if now >= old(self).status_at {
                    (now + STATUS_EVERY) as u128
                } else {
                    old(self).status_at
                },
                ..*old(self)
            }),
            *final(r) == (Resolver {
                dirty: old(r).dirty && now < old(self).save_at,
                ..*old(r)
            }),
    {
        let dns = match self.dns_at {
            Some(at) => now >= at,
            None => false,
        };
        let mut save = false;
        if now >= self.save_at {
            self.save_at = now + SAVE_EVERY;
            save = r.take_dirty();
        }
        let sweep = now >= self.sweep_at;
        if sweep {
            self.sweep_at = now + SWEEP_EVERY;
        }
        let status = now >= self.status_at;
        if status {
            self.status_at = now + STATUS_EVERY;
        }
        Due { dns, save, sweep, status }
    }

    /// What came of taking the DNS of the services over: a failure is tried
    /// again after a while.
    pub fn dns_taken(&mut self, got: Result<usize, String>, now: u128) -> (r: Said)
        requires
            now <= LONGEST,
        ensures
            match got {
                Ok(n) => {
                    &&& *final(self) == (Watch { dns_at: None, ..*old(self) })
                    &&& if n > 0 {
                        r matches Said::Line(s) && s@ == "dns set services="@
                            + crate::text::decimal(n as nat)
                    } else {
                        r is Nothing
                    }
                },
                Err(e) => {
                    &&& *final(self) == (Watch {
                        dns_at: Some((now + NET_POLL) as u128),
                        ..*old(self)
                    })
                    &&& r matches Said::Burst(s) && s@ == "dns-fail "@ + e@
                },
            },
    {
        match got {
            Ok(n) => {
                self.dns_at = None;
                if n == 0 {
                    return Said::Nothing;
                }
                let mut s = String::from_str("dns set services=");
                s.append(show(n as u128).as_str());
                Said::Line(s)
            },
            Err(e) => {
                self.dns_at = Some(now + NET_POLL);
                let mut s = String::from_str("dns-fail ");
                s.append(e.as_str());
                Said::Burst(s)
            },
        }
    }

    /// The status line.
    pub open spec fn status_line(&self, r: &Resolver) -> Seq<char> {
        "status "@ + r.status_text() + " missing="@ + crate::text::decimal(self.missing@.len())
            + " stale="@ + crate::text::decimal(self.stale@.len()) + " country="@
            + self.country@.code() + " from="@ + self.country@.from() + " network="@
            + network_shown(self.network)
    }

    /// The status, with the sources that are not there. They are named
    /// again every time, not only when they appear: a source that stays
    /// away changes nothing and would go quiet.
    pub fn status(&self, r: &Resolver) -> (lines: Vec<String>)
        requires
            r.wf(),
        ensures
            crate::text::seen(lines@) == seq![self.status_line(r)] + crate::daemon::after_word(
                "source-missing "@,
                crate::text::seen(self.missing@),
            ) + crate::daemon::after_word("source-stale "@, crate::text::seen(self.stale@)),
    {
        let mut s = String::from_str("status ");
        s.append(r.status().as_str());
        s.append(" missing=");
        s.append(show(self.missing.len() as u128).as_str());
        s.append(" stale=");
        s.append(show(self.stale.len() as u128).as_str());
        let (code, from) = self.country.now();
        s.append(" country=");
        s.append(code);
        s.append(" from=");
        s.append(from);
        s.append(" network=");
        s.append(show_network(&self.network).as_str());
        let mut lines: Vec<String> = Vec::new();
        proof {
            crate::text::lemma_seen_push(lines@, s);
        }
        lines.push(s);
        proof {
            assert(crate::text::seen(lines@) =~= seq![s@]);
        }
        add_lines(&mut lines, "source-missing ", &self.missing);
        add_lines(&mut lines, "source-stale ", &self.stale);
        lines
    }

    /// Takes in what the sources brought. Lists without a single entry are
    /// refused and the old ones stay. The lines for the journal, and
    /// whether the lists are new.
    pub fn follow_sources(
        &mut self,
        r: &mut Resolver,
        lists: Lists,
        missing: Vec<String>,
        stale: Vec<String>,
    ) -> (done: (Vec<String>, bool))
        requires
            old(r).wf(),
            lists.sound(),
        ensures
            final(r).wf(),
            *final(self) == (Watch { missing, stale, ..*old(self) }),
            ({
                let none = lists@.suffixes.len() == 0 && lists@.subnets.len() == 0;
                &&& done.1 == !none
                &&& *final(r) == if none {
                    *old(r)
                } else {
                    Resolver { lists, pf_stale: true, ..*old(r) }
                }
                &&& crate::text::seen(done.0@) == crate::daemon::after_word(
                    "source-missing "@,
                    crate::text::seen(missing@),
                ) + crate::daemon::after_word("source-stale "@, crate::text::seen(stale@)) + seq![
                    if none {
                        "lists-refused no entries; the lists in place stay"@
                    } else {
                        "lists reload suffixes="@ + crate::text::decimal(lists@.suffixes.len())
                            + " subnets="@ + crate::text::decimal(lists@.subnets.len())
                            + " rejected="@ + crate::text::decimal(lists@.rejected.len())
                    },
                ]
            }),
    {
        let mut lines: Vec<String> = Vec::new();
        proof {
            assert(crate::text::seen(lines@) =~= seq![]);
        }
        add_lines(&mut lines, "source-missing ", &missing);
        add_lines(&mut lines, "source-stale ", &stale);
        let ghost before = crate::text::seen(lines@);
        proof {
            assert(before =~= crate::daemon::after_word(
                "source-missing "@,
                crate::text::seen(missing@),
            ) + crate::daemon::after_word("source-stale "@, crate::text::seen(stale@)));
        }
        self.missing = missing;
        self.stale = stale;
        let nets = lists.subnets();
        let rejected = lists.rejected();
        let suffixes = lists.suffix_count();
        proof {
            assert(nets@.map_values(|e: (crate::addr::Subnet, String)| (e.0, e.1@)).len()
                == nets@.len());
            assert(crate::text::seen(rejected@).len() == rejected@.len());
        }
        if suffixes == 0 && nets.len() == 0 {
            let s = String::from_str("lists-refused no entries; the lists in place stay");
            proof {
                crate::text::lemma_seen_push(lines@, s);
                assert(before.push(s@) =~= before + seq![s@]);
            }
            lines.push(s);
            return (lines, false);
        }
        let mut s = String::from_str("lists reload suffixes=");
        s.append(show(suffixes as u128).as_str());
        s.append(" subnets=");
        s.append(show(nets.len() as u128).as_str());
        s.append(" rejected=");
        s.append(show(rejected.len() as u128).as_str());
        proof {
            crate::text::lemma_seen_push(lines@, s);
            assert(before.push(s@) =~= before + seq![s@]);
        }
        lines.push(s);
        r.set_lists(lists);
        (lines, true)
    }
}

/// The last line of the journal: what was taken back. None of the DNS, or
/// of pf, where it was not ours.
pub open spec fn stop_text(
    dns: Option<Result<usize, Seq<char>>>,
    removed: nat,
    saved: nat,
    pf: Option<Result<(), Seq<char>>>,
) -> Seq<char> {
    "stop dns_back="@ + (match dns {
        Some(Ok(n)) => crate::text::decimal(n as nat),
        Some(Err(e)) => "fail: "@ + e,
        None => "none"@,
    }) + " routes_removed="@ + crate::text::decimal(removed) + " hosts_saved="@
        + crate::text::decimal(saved) + " pf="@ + (match pf {
        Some(Ok(())) => "released"@,
        Some(Err(e)) => "fail: "@ + e,
        None => "none"@,
    })
}

pub open spec fn counted_seen(r: Option<Result<usize, String>>) -> Option<
    Result<usize, Seq<char>>,
> {
    match r {
        Some(Ok(n)) => Some(Ok(n)),
        Some(Err(e)) => Some(Err(e@)),
        None => None,
    }
}

pub open spec fn done_seen(r: Option<Result<(), String>>) -> Option<Result<(), Seq<char>>> {
    match r {
        Some(Ok(())) => Some(Ok(())),
        Some(Err(e)) => Some(Err(e@)),
        None => None,
    }
}

pub fn stop_line(
    dns: Option<Result<usize, String>>,
    removed: usize,
    saved: usize,
    pf: Option<Result<(), String>>,
) -> (r: String)
    ensures
        r@ == stop_text(counted_seen(dns), removed as nat, saved as nat, done_seen(pf)),
{
    let mut s = String::from_str("stop dns_back=");
    let d = match dns {
        Some(Ok(n)) => show(n as u128),
        Some(Err(e)) => {
            let mut t = String::from_str("fail: ");
            t.append(e.as_str());
            t
        },
        None => String::from_str("none"),
    };
    s.append(d.as_str());
    s.append(" routes_removed=");
    s.append(show(removed as u128).as_str());
    s.append(" hosts_saved=");
    s.append(show(saved as u128).as_str());
    s.append(" pf=");
    let p = match pf {
        Some(Ok(())) => String::from_str("released"),
        Some(Err(e)) => {
            let mut t = String::from_str("fail: ");
            t.append(e.as_str());
            t
        },
        None => String::from_str("none"),
    };
    s.append(p.as_str());
    s
}

// ---------------------------------------------------------------------
// Laws.
// ---------------------------------------------------------------------

/// A reason is written when it appears, when it changes, and not again
/// while it stays.
pub proof fn lemma_reasons_are_written_once(v: Seq<(Seq<char>, Reasons)>)
    requires
        forall|i: int, j: int|
            0 <= i < j < v.len() ==> (#[trigger] v[i]).0 != (#[trigger] v[j]).0,
    ensures
        reason_lines(v, v) == Seq::<Seq<char>>::empty(),
{
    lemma_written(v, v.len() as int);
    assert(v.take(v.len() as int) =~= v);
}

proof fn lemma_written(v: Seq<(Seq<char>, Reasons)>, n: int)
    requires
        0 <= n <= v.len(),
        forall|i: int, j: int|
            0 <= i < j < v.len() ==> (#[trigger] v[i]).0 != (#[trigger] v[j]).0,
    ensures
        reason_lines(v, v.take(n)) == Seq::<Seq<char>>::empty(),
    decreases n,
{
    if n > 0 {
        lemma_written(v, n - 1);
        assert(v.take(n).drop_last() =~= v.take(n - 1));
        lemma_reasons_of(v, n - 1);
    }
}

proof fn lemma_reasons_of(v: Seq<(Seq<char>, Reasons)>, n: int)
    requires
        0 <= n < v.len(),
        forall|i: int, j: int|
            0 <= i < j < v.len() ==> (#[trigger] v[i]).0 != (#[trigger] v[j]).0,
    ensures
        reasons_of(v, v[n].0) == Some(v[n].1),
    decreases n,
{
    if n > 0 {
        let rest = v.drop_first();
        assert forall|i: int, j: int| 0 <= i < j < rest.len() implies (#[trigger] rest[i]).0 != (
        #[trigger] rest[j]).0 by {
            assert(rest[i] == v[i + 1] && rest[j] == v[j + 1]);
        }
        assert(v[0].0 != v[n].0);
        lemma_reasons_of(rest, n - 1);
    }
}

proof fn lemma_reasons_of_is(v: Seq<(Seq<char>, Reasons)>, rule: Seq<char>, i: int)
    requires
        0 <= i <= v.len(),
        forall|j: int| 0 <= j < i ==> (#[trigger] v[j]).0 != rule,
        i < v.len() ==> v[i].0 == rule,
    ensures
        reasons_of(v, rule) == if i < v.len() {
            Some(v[i].1)
        } else {
            None
        },
    decreases i,
{
    if i > 0 {
        let r = v.drop_first();
        assert(v[0].0 != rule);
        assert forall|j: int| 0 <= j < i - 1 implies (#[trigger] r[j]).0 != rule by {
            assert(r[j] == v[j + 1]);
        }
        lemma_reasons_of_is(r, rule, i - 1);
    }
}

/// A line is written for a rule whose reasons are new or others than they
/// were, and for no other; the rules keep their order.
pub proof fn lemma_which_reasons_are_written(
    before: Seq<(Seq<char>, Reasons)>,
    now: Seq<(Seq<char>, Reasons)>,
    rule: Seq<char>,
    why: Reasons,
    i: int,
)
    requires
        0 <= i <= before.len(),
        forall|j: int| 0 <= j < i ==> (#[trigger] before[j]).0 != rule,
        i < before.len() ==> before[i].0 == rule,
    ensures
        reason_lines(before, seq![]) == Seq::<Seq<char>>::empty(),
        reason_lines(before, now.push((rule, why))) == if i < before.len() && before[i].1 == why {
            reason_lines(before, now)
        } else {
            reason_lines(before, now).push("killswitch "@ + rule + " "@ + why.shown())
        },
{
    lemma_reasons_of_is(before, rule, i);
    assert(now.push((rule, why)).drop_last() =~= now);
}

/// On a network the resolver asks its DNS, on port 53 and bound to its
/// interface, and trusts no fake address until one is seen there; without
/// one it asks nobody. Nothing else of it is changed.
pub proof fn lemma_what_a_move_does(before: &Resolver, after: &Resolver, n: Option<Network>)
    requires
        moved(before, after, n),
    ensures
        n is None ==> after.upstream is None && after.network is None,
        n matches Some(x) ==> {
            &&& after.upstream matches Some(u) && u.server == x.dns && u.port == 53 && (
            u.bound_if == if x.index == 0 {
                None
            } else {
                Some(x.index as u32)
            })
            &&& after.network matches Some((i, d)) && i@ == x.iface@ && d == x.dns
        },
        !after.core.use_fakeip,
        after.core.rules == before.core.rules,
        after.core.links == before.core.links,
        after.core.owner == before.core.owner,
        after.core.stopped == before.core.stopped,
        after.hosts == before.hosts,
        after.subnets == before.subnets,
        after.unrouted == before.unrouted,
        after.lists == before.lists,
        after.tunnel_dns == before.tunnel_dns,
{
}

/// How often things are done: the network is looked at every half minute,
/// fake addresses every five, the hosts are saved every minute and swept
/// every ten, the status is written every ten; a country that was not told
/// is asked for again in five, and the tunnels of a dead daemon are given
/// twenty seconds.
pub proof fn lemma_how_often(now: u128)
    ensures
        now + NET_POLL == now + 30_000_000_000,
        now + FAKEIP_EVERY == now + 300_000_000_000,
        now + SAVE_EVERY == now + 60_000_000_000,
        now + SWEEP_EVERY == now + 600_000_000_000,
        now + STATUS_EVERY == now + 600_000_000_000,
        now + COUNTRY_RETRY == now + 300_000_000_000,
        now + STRAYS_WAIT == now + 20_000_000_000,
{
}

/// The status line: what the resolver says, the sources that are not there,
/// the country and where it is from, and the network.
pub proof fn lemma_the_status_line(w: &Watch, r: &Resolver)
    ensures
        w.status_line(r) == "status "@ + r.status_text() + " missing="@ + crate::text::decimal(
            w.missing@.len(),
        ) + " stale="@ + crate::text::decimal(w.stale@.len()) + " country="@
            + w.country@.code() + " from="@ + w.country@.from() + " network="@ + (
        if w.network is Some {
            (w.network->0).shown()
        } else {
            "none"@
        }),
{
}

/// The last line: how many services have their DNS back, how many routes
/// went, how many hosts were saved, and whether pf was released.
pub proof fn lemma_the_last_line(
    n: usize,
    e: Seq<char>,
    removed: nat,
    saved: nat,
    pf: Option<Result<(), Seq<char>>>,
    dns: Option<Result<usize, Seq<char>>>,
)
    ensures
        ({
            let tail = " routes_removed="@ + crate::text::decimal(removed) + " hosts_saved="@
                + crate::text::decimal(saved) + " pf="@ + (if pf is None {
                "none"@
            } else if pf->0 is Ok {
                "released"@
            } else {
                "fail: "@ + pf->0->Err_0
            });
            let head = "stop dns_back="@ + (if dns is None {
                "none"@
            } else if dns->0 is Ok {
                crate::text::decimal(dns->0->Ok_0 as nat)
            } else {
                "fail: "@ + dns->0->Err_0
            });
            stop_text(dns, removed, saved, pf) == head + tail
        }),
{
    let d = if dns is None {
        "none"@
    } else if dns->0 is Ok {
        crate::text::decimal(dns->0->Ok_0 as nat)
    } else {
        "fail: "@ + dns->0->Err_0
    };
    let p = if pf is None {
        "none"@
    } else if pf->0 is Ok {
        "released"@
    } else {
        "fail: "@ + pf->0->Err_0
    };
    assert(stop_text(dns, removed, saved, pf) =~= ("stop dns_back="@ + d) + (
    " routes_removed="@ + crate::text::decimal(removed) + " hosts_saved="@ + crate::text::decimal(
        saved,
    ) + " pf="@ + p));
}

/// Numbers are shown in brackets, with a comma and a space between.
pub proof fn lemma_how_numbers_are_shown(v: Seq<u32>)
    ensures
        numbers_shown(v) == "["@ + crate::text::join(
            Seq::new(v.len(), |i: int| crate::text::decimal(v[i] as nat)),
            ", "@,
        ) + "]"@,
{
    assert(v.map_values(|n: u32| crate::text::decimal(n as nat)) =~= Seq::new(
        v.len(),
        |i: int| crate::text::decimal(v[i] as nat),
    ));
}

} // verus!
