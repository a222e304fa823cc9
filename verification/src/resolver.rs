//! One query: to the network DNS as it is, through the tunnel of its rule
//! with routes placed before the answer, or refused. And the rules
//! themselves: which are in force, which tunnel each takes now, and whether
//! that carries.
//!
//! Names outside the lists of the rules in force never touch a tunnel. A
//! listed name whose rules have no tunnel that carries is refused: the kill
//! switch for DNS.

use vstd::prelude::*;
use vstd::string::*;

use crate::addr::{Ipv4Addr, Subnet};
use crate::config::When;
use crate::dns::{
    ascii, decode, has_fakeip, ipv4_answers, reply, Kind, Message, NO_ERROR, NX_DOMAIN, SERV_FAIL,
    TYPE_AAAA, TYPE_HTTPS, TYPE_SVCB,
};
pub use crate::journal::{Journal, BURST};
pub use crate::links::{pick, Health, Iface, LinkState, Reasons, RETURN};
use crate::lists::{normalize, Lists};
use crate::pf::Shape;
use crate::table::Table;
use crate::text::{among, same};
use crate::upstream::{Upstream, DNS_PORT};

verus! {

// ---------------------------------------------------------------------
// What a name comes to.
// ---------------------------------------------------------------------

/// Firefox turns its own DNS over HTTPS off when this name does not resolve.
pub open spec fn firefox_canary() -> Seq<char> {
    "use-application-dns.net"@
}

#[derive(Debug)]
pub enum Plan {
    /// Answered here with this code and no records.
    Reply(u16),
    Network,
    /// A listed name and the lists that have it.
    Listed(Vec<String>),
}

pub fn plan(lists: &Lists, name: &str) -> (r: Plan)
    requires
        lists.wf(),
    ensures
        match r {
            Plan::Reply(code) => crate::lists::normal(name@) == firefox_canary() && code
                == NX_DOMAIN,
            Plan::Network => crate::lists::normal(name@) != firefox_canary() && lists@.matching(
                name@,
            ).len() == 0,
            Plan::Listed(v) => crate::lists::normal(name@) != firefox_canary()
                && crate::text::seen(v@) == lists@.matching(name@) && v@.len() > 0,
        },
{
    if same(normalize(name).as_str(), "use-application-dns.net") {
        return Plan::Reply(NX_DOMAIN);
    }
    let found = lists.match_domain(name);
    proof {
        assert(crate::text::seen(found@).len() == found@.len());
    }
    if found.len() == 0 {
        Plan::Network
    } else {
        Plan::Listed(found)
    }
}

/// IPv6 is not routed, and HTTPS/SVCB carry address hints that would lead
/// the client past the route.
pub open spec fn unwanted(qtype: u16) -> bool {
    qtype == TYPE_AAAA || qtype == TYPE_HTTPS || qtype == TYPE_SVCB
}

pub fn refused_type(qtype: u16) -> (r: bool)
    ensures
        r == unwanted(qtype),
{
    qtype == TYPE_AAAA || qtype == TYPE_HTTPS || qtype == TYPE_SVCB
}

// ---------------------------------------------------------------------
// Addresses that may get a route.
// ---------------------------------------------------------------------

pub open spec fn range(a: nat, b: nat, prefix: u8) -> Subnet {
    Subnet { addr: crate::addr::octets(a, b, 0, 0), prefix }
}

/// Never routed into a tunnel: this host, local networks, multicast and
/// reserved space, and the fake range of the router.
pub open spec fn special(ip: Ipv4Addr) -> bool {
    ||| range(0, 0, 8).has(ip)
    ||| range(10, 0, 8).has(ip)
    ||| range(100, 64, 10).has(ip)
    ||| range(127, 0, 8).has(ip)
    ||| range(169, 254, 16).has(ip)
    ||| range(172, 16, 12).has(ip)
    ||| range(192, 168, 16).has(ip)
    ||| range(224, 0, 3).has(ip)
    ||| crate::dns::fake_range().has(ip)
}

pub open spec fn may_route(ip: Ipv4Addr, endpoints: Seq<Ipv4Addr>) -> bool {
    !endpoints.contains(ip) && !special(ip)
}

fn in_range(a: u8, b: u8, prefix: u8, ip: Ipv4Addr) -> (r: bool)
    requires
        prefix <= 32,
    ensures
        r == range(a as nat, b as nat, prefix).has(ip),
{
    Subnet { addr: Ipv4Addr::new(a, b, 0, 0), prefix }.contains(ip)
}

fn is_special(ip: Ipv4Addr) -> (r: bool)
    ensures
        r == special(ip),
{
    in_range(0, 0, 8, ip) || in_range(10, 0, 8, ip) || in_range(100, 64, 10, ip) || in_range(
        127,
        0,
        8,
        ip,
    ) || in_range(169, 254, 16, ip) || in_range(172, 16, 12, ip) || in_range(192, 168, 16, ip)
        || in_range(224, 0, 3, ip) || crate::dns::fakeip().contains(ip)
}

pub fn has_address(v: &Vec<Ipv4Addr>, ip: Ipv4Addr) -> (r: bool)
    ensures
        r == v@.contains(ip),
{
    let mut i: usize = 0;
    while i < v.len()
        invariant
            i <= v@.len(),
            forall|j: int| 0 <= j < i ==> v@[j] != ip,
        decreases v@.len() - i,
    {
        if v[i] == ip {
            return true;
        }
        i += 1;
    }
    false
}

/// An address that may get a route into a tunnel. A tunnel server is never
/// one: its own packets would loop into the tunnel.
pub fn routable(ip: Ipv4Addr, endpoints: &Vec<Ipv4Addr>) -> (r: bool)
    ensures
        r == may_route(ip, endpoints@),
{
    !has_address(endpoints, ip) && !is_special(ip)
}

/// The addresses never routed, by their octets.
pub proof fn lemma_special_by_octets(ip: Ipv4Addr)
    ensures
        special(ip) <==> {
            let (a, b) = (ip.octet(0), ip.octet(1));
            ||| a == 0
            ||| a == 10
            ||| a == 100 && 64 <= b <= 127
            ||| a == 127
            ||| a == 169 && b == 254
            ||| a == 172 && 16 <= b <= 31
            ||| a == 192 && b == 168
            ||| a >= 224
            ||| a == 198 && (b == 18 || b == 19)
        },
{
    let x = ip.bits;
    crate::dns::lemma_fake_range(ip);
    assert((x & (0xffff_ffffu32 << 24u32) == 0u32) <==> x / 0x100_0000 == 0) by (bit_vector);
    assert((x & (0xffff_ffffu32 << 24u32) == 0x0a00_0000u32) <==> x / 0x100_0000 == 10)
        by (bit_vector);
    assert((x & (0xffff_ffffu32 << 24u32) == 0x7f00_0000u32) <==> x / 0x100_0000 == 127)
        by (bit_vector);
    assert((x & (0xffff_ffffu32 << 22u32) == 0x6440_0000u32) <==> (x / 0x100_0000 == 100 && 64
        <= x / 0x1_0000 % 256 && x / 0x1_0000 % 256 <= 127)) by (bit_vector);
    assert((x & (0xffff_ffffu32 << 16u32) == 0xa9fe_0000u32) <==> (x / 0x100_0000 == 169 && x
        / 0x1_0000 % 256 == 254)) by (bit_vector);
    assert((x & (0xffff_ffffu32 << 20u32) == 0xac10_0000u32) <==> (x / 0x100_0000 == 172 && 16
        <= x / 0x1_0000 % 256 && x / 0x1_0000 % 256 <= 31)) by (bit_vector);
    assert((x & (0xffff_ffffu32 << 16u32) == 0xc0a8_0000u32) <==> (x / 0x100_0000 == 192 && x
        / 0x1_0000 % 256 == 168)) by (bit_vector);
    assert((x & (0xffff_ffffu32 << 29u32) == 0xe000_0000u32) <==> x / 0x100_0000 >= 224)
        by (bit_vector);
}

// ---------------------------------------------------------------------
// Rules and links.
// ---------------------------------------------------------------------

#[derive(Debug)]
pub struct RuleRun {
    pub name: String,
    pub when: When,
    pub lists: Vec<String>,
    /// Indices of links, in the order of priority.
    pub tunnels: Vec<usize>,
    /// Its condition holds.
    pub active: bool,
    /// The link its routes point at.
    pub current: Option<usize>,
}

/// Where a route points: the link and its generation.
#[derive(Clone, Copy, Debug, PartialEq, Eq, Structural)]
pub struct Placed {
    pub link: usize,
    pub generation: u32,
}

#[derive(Clone, Copy, Debug, PartialEq, Eq, Structural)]
pub struct HostRun {
    pub rule: usize,
    /// Unix seconds of the last answer that carried the address.
    pub last: u64,
    pub placed: Option<Placed>,
}

/// A route target: the link, its generation, its interface index.
#[derive(Clone, Copy, Debug, PartialEq, Eq, Structural)]
pub struct Target {
    pub link: usize,
    pub generation: u32,
    pub index: u16,
}

impl Target {
    pub open spec fn spot(self) -> Placed {
        Placed { link: self.link, generation: self.generation }
    }

    pub fn placed(self) -> (r: Placed)
        ensures
            r == self.spot(),
    {
        Placed { link: self.link, generation: self.generation }
    }
}

/// The rules and the links they run over.
#[derive(Debug)]
pub struct Core {
    pub links: Vec<(String, LinkState)>,
    pub rules: Vec<RuleRun>,
    pub owner: bool,
    pub use_fakeip: bool,
    /// Every route was taken back: nothing is placed any more.
    pub stopped: bool,
}

/// The lowest number below `n` that is `p`.
pub open spec fn lowest(p: spec_fn(int) -> bool, n: int) -> Option<int>
    decreases n,
{
    if n <= 0 {
        None
    } else {
        match lowest(p, n - 1) {
            Some(i) => Some(i),
            None => if p(n - 1) {
                Some(n - 1)
            } else {
                None
            },
        }
    }
}

pub proof fn lemma_lowest(p: spec_fn(int) -> bool, n: int)
    ensures
        match lowest(p, n) {
            Some(i) => 0 <= i < n && p(i) && forall|j: int| 0 <= j < i ==> !#[trigger] p(j),
            None => forall|j: int| 0 <= j < n ==> !#[trigger] p(j),
        },
    decreases n,
{
    if n > 0 {
        lemma_lowest(p, n - 1);
    }
}

pub proof fn lemma_lowest_is(p: spec_fn(int) -> bool, i: int, n: int)
    requires
        0 <= i < n,
        p(i),
        forall|j: int| 0 <= j < i ==> !#[trigger] p(j),
    ensures
        lowest(p, n) == Some(i),
{
    lemma_lowest(p, n);
    match lowest(p, n) {
        Some(k) => {
            if k < i {
                assert(!p(k));
            } else if i < k {
                assert(!p(i));
            }
        },
        None => {
            assert(!p(i));
        },
    }
}

pub open spec fn shares(a: Seq<Seq<char>>, b: Seq<Seq<char>>) -> bool {
    exists|i: int| 0 <= i < a.len() && b.contains(#[trigger] a[i])
}

/// The tunnel servers of the links, in order.
pub open spec fn servers(links: Seq<crate::links::State>) -> Seq<Ipv4Addr>
    decreases links.len(),
{
    if links.len() == 0 {
        seq![]
    } else {
        match links.last().endpoint {
            Some(ip) => servers(links.drop_last()).push(ip),
            None => servers(links.drop_last()),
        }
    }
}

/// The rule a name goes by: which, and whether it carries.
pub struct Choice {
    pub rule: int,
    pub carries: bool,
}

impl Core {
    pub open spec fn states(&self) -> Seq<crate::links::State> {
        crate::links::states(self.links@)
    }

    /// The link of a rule.
    pub open spec fn link(&self, rule: int) -> Option<crate::links::State> {
        if 0 <= rule < self.rules@.len() {
            match self.rules@[rule].current {
                Some(l) => if l < self.links@.len() {
                    Some(self.links@[l as int].1@)
                } else {
                    None
                },
                None => None,
            }
        } else {
            None
        }
    }

    /// Where the routes of a rule are to point.
    pub open spec fn aim(&self, rule: int) -> Option<Target> {
        match self.link(rule) {
            Some(s) => match s.iface {
                Some((_, index)) => Some(
                    Target {
                        link: self.rules@[rule].current->0,
                        generation: s.generation,
                        index,
                    },
                ),
                None => None,
            },
            None => None,
        }
    }

    /// Why the names of a rule are refused.
    pub open spec fn why(&self, rule: int) -> Reasons {
        Reasons {
            tunnel: !(self.link(rule) matches Some(s) && s.iface is Some && s.health
                != Health::Down),
            works: self.link(rule) matches Some(s) && s.works,
            owner: self.owner,
        }
    }

    pub open spec fn in_force(&self, rule: int) -> bool {
        0 <= rule < self.rules@.len() && self.rules@[rule].active
    }

    /// A rule in force whose names are not refused.
    pub open spec fn carrying(&self, rule: int) -> bool {
        self.in_force(rule) && !self.why(rule).some()
    }

    /// A rule in force that has one of the lists.
    pub open spec fn takes(&self, rule: int, found: Seq<Seq<char>>) -> bool {
        self.in_force(rule) && shares(crate::text::seen(self.rules@[rule].lists@), found)
    }

    /// The rule for a name in `found`: the first in force whose tunnel
    /// carries; with none, the first in force, which refuses. None when no
    /// rule in force has the name.
    pub open spec fn choice(&self, found: Seq<Seq<char>>) -> Option<Choice> {
        let n = self.rules@.len() as int;
        match lowest(|i: int| self.takes(i, found) && self.carrying(i), n) {
            Some(rule) => Some(Choice { rule, carries: true }),
            None => match lowest(|i: int| self.takes(i, found), n) {
                Some(rule) => Some(Choice { rule, carries: false }),
                None => None,
            },
        }
    }

    /// The interface index a choice goes through.
    pub open spec fn through(&self, c: Choice) -> Option<u16> {
        if c.carries {
            Some(self.aim(c.rule)->0.index)
        } else {
            None
        }
    }

    fn current(&self, rule: usize) -> (r: Option<&LinkState>)
        ensures
            match r {
                Some(l) => self.link(rule as int) == Some(l@),
                None => self.link(rule as int) is None,
            },
    {
        if rule >= self.rules.len() {
            return None;
        }
        match self.rules[rule].current {
            Some(l) => if l < self.links.len() {
                Some(&self.links[l].1)
            } else {
                None
            },
            None => None,
        }
    }

    pub fn target(&self, rule: usize) -> (r: Option<Target>)
        ensures
            r == self.aim(rule as int),
    {
        let l = match self.current(rule) {
            Some(l) => l,
            None => {
                return None;
            },
        };
        let link: usize = match self.rules[rule].current {
            Some(link) => link,
            None => {
                return None;
            },
        };
        match &l.iface {
            Some(i) => Some(Target { link, generation: l.generation, index: i.index }),
            None => None,
        }
    }

    pub fn reasons(&self, rule: usize) -> (r: Reasons)
        ensures
            r == self.why(rule as int),
    {
        match self.current(rule) {
            Some(l) => Reasons {
                tunnel: !(l.iface.is_some() && l.health.alive()),
                works: l.works,
                owner: self.owner,
            },
            None => Reasons { tunnel: true, works: false, owner: self.owner },
        }
    }

    pub fn carries(&self, rule: usize) -> (r: bool)
        ensures
            r == self.carrying(rule as int),
    {
        rule < self.rules.len() && self.rules[rule].active && !self.reasons(rule).any()
    }

    pub fn endpoints(&self) -> (r: Vec<Ipv4Addr>)
        ensures
            r@ == servers(self.states()),
    {
        let ghost all = self.states();
        let mut r: Vec<Ipv4Addr> = Vec::new();
        let mut i: usize = 0;
        proof {
            assert(all.take(0) =~= seq![]);
        }
        while i < self.links.len()
            invariant
                i <= self.links@.len(),
                all == self.states(),
                r@ == servers(all.take(i as int)),
            decreases self.links@.len() - i,
        {
            proof {
                assert(all.take(i + 1).drop_last() =~= all.take(i as int));
                assert(all.take(i + 1).last() == self.links@[i as int].1@);
            }
            if let Some(ip) = self.links[i].1.endpoint {
                r.push(ip);
            }
            i += 1;
        }
        proof {
            assert(all.take(i as int) =~= all);
        }
        r
    }

    fn does_take(&self, rule: usize, found: &Vec<String>) -> (r: bool)
        requires
            rule < self.rules@.len(),
        ensures
            r == self.takes(rule as int, crate::text::seen(found@)),
    {
        if !self.rules[rule].active {
            return false;
        }
        let ghost a = crate::text::seen(self.rules@[rule as int].lists@);
        let ghost b = crate::text::seen(found@);
        let mut i: usize = 0;
        while i < self.rules[rule].lists.len()
            invariant
                rule < self.rules@.len(),
                i <= self.rules@[rule as int].lists@.len(),
                a == crate::text::seen(self.rules@[rule as int].lists@),
                b == crate::text::seen(found@),
                self.rules@[rule as int].active,
                forall|j: int| 0 <= j < i ==> !b.contains(#[trigger] a[j]),
            decreases self.rules@[rule as int].lists@.len() - i,
        {
            proof {
                assert(a[i as int] == self.rules@[rule as int].lists@[i as int]@);
            }
            if among(found, self.rules[rule].lists[i].as_str()) {
                return true;
            }
            i += 1;
        }
        false
    }

    /// The rule for a name in `found`.
    pub fn choose_rule(&self, found: &Vec<String>) -> (r: Option<Pick>)
        ensures
            match r {
                Some(p) => self.choice(crate::text::seen(found@)) matches Some(c) && p.stands_for(self, c),
                None => self.choice(crate::text::seen(found@)) is None,
            },
    {
        let ghost f = crate::text::seen(found@);
        let ghost n = self.rules@.len() as int;
        let ghost both = |i: int| self.takes(i, f) && self.carrying(i);
        let ghost one = |i: int| self.takes(i, f);
        let mut first: Option<Pick> = None;
        let mut i: usize = 0;
        while i < self.rules.len()
            invariant
                i <= self.rules@.len(),
                f == crate::text::seen(found@),
                n == self.rules@.len(),
                both == (|i: int| self.takes(i, f) && self.carrying(i)),
                one == (|i: int| self.takes(i, f)),
                forall|j: int| 0 <= j < i ==> !#[trigger] both(j),
                match first {
                    Some(p) => 0 <= p.rule < i && one(p.rule as int) && (forall|j: int|
                        0 <= j < p.rule ==> !#[trigger] one(j)) && p.stands_for(
                        self,
                        Choice { rule: p.rule as int, carries: false },
                    ),
                    None => forall|j: int| 0 <= j < i ==> !#[trigger] one(j),
                },
            decreases self.rules@.len() - i,
        {
            if self.does_take(i, found) {
                let reasons = self.reasons(i);
                let name = self.rules[i].name.clone();
                let always = match &self.rules[i].when {
                    When::Always => true,
                    _ => false,
                };
                if self.carries(i) {
                    if let Some(t) = self.target(i) {
                        proof {
                            lemma_lowest_is(both, i as int, n);
                        }
                        return Some(Pick { rule: i, name, always, via: Some(t.index), reasons });
                    }
                }
                if first.is_none() {
                    first = Some(Pick { rule: i, name, always, via: None, reasons });
                }
            }
            i += 1;
        }
        proof {
            lemma_lowest(both, n);
            lemma_lowest(one, n);
            if first is Some {
                lemma_lowest_is(one, first->0.rule as int, n);
            }
        }
        first
    }
}

/// The rule a query goes by, and its tunnel interface when it carries.
#[derive(Debug)]
pub struct Pick {
    pub rule: usize,
    pub name: String,
    pub always: bool,
    pub via: Option<u16>,
    pub reasons: Reasons,
}

impl Pick {
    pub open spec fn stands_for(&self, core: &Core, c: Choice) -> bool {
        &&& self.rule == c.rule
        &&& c.rule < core.rules@.len()
        &&& self.name@ == core.rules@[c.rule].name@
        &&& self.always == (core.rules@[c.rule].when is Always)
        &&& self.via == core.through(c)
        &&& self.reasons == core.why(c.rule)
    }
}

// ---------------------------------------------------------------------
// The resolver.
// ---------------------------------------------------------------------

/// A subnet route in place: the rule that owns it, and where it points.
#[derive(Clone, Copy, Debug, PartialEq, Eq, Structural)]
pub struct NetRun {
    pub net: Subnet,
    pub rule: usize,
    pub placed: Placed,
}

pub open spec fn host_key(ip: Ipv4Addr) -> u64 {
    ip.bits as u64
}

pub open spec fn net_key(s: Subnet) -> u64 {
    (s.addr.bits * 64 + s.prefix) as u64
}

/// The number of a subnet: by address, then by prefix.
pub fn key_of(s: Subnet) -> (r: u64)
    requires
        s.wf(),
    ensures
        r == net_key(s),
{
    s.addr.bits as u64 * 64 + s.prefix as u64
}

/// Two subnets with one number are one subnet.
pub proof fn lemma_net_key(a: Subnet, b: Subnet)
    requires
        a.wf(),
        b.wf(),
        net_key(a) == net_key(b),
    ensures
        a == b,
{
}

#[derive(Debug)]
pub struct Resolver {
    /// Replaced whole when a source changes.
    pub lists: Lists,
    pub tunnel_dns: Ipv4Addr,
    pub upstream: Option<Upstream>,
    /// The physical interface and the network DNS, for pf.
    pub network: Option<(String, Ipv4Addr)>,
    pub core: Core,
    pub hosts: Table<HostRun>,
    /// Subnet routes in place.
    pub subnets: Table<NetRun>,
    /// Subnets passed over for holding a server, as the journal was told.
    pub unrouted: Table<Subnet>,
    /// Hosts changed since the last save.
    pub dirty: bool,
    /// The tables in pf may lack an address or hold a stale one: reload
    /// them whole.
    pub pf_stale: bool,
    /// What pf holds now; none when unknown, so that it is loaded anew.
    pub pf_shape: Option<Shape>,
}

pub open spec fn hosts_sound(m: Map<u64, HostRun>) -> bool {
    forall|k: u64| #[trigger] m.dom().contains(k) ==> k <= u32::MAX
}

pub open spec fn nets_sound(m: Map<u64, NetRun>) -> bool {
    forall|k: u64| #[trigger] m.dom().contains(k) ==> m[k].net.canonical() && net_key(m[k].net) == k
}

pub open spec fn marks_sound(m: Map<u64, Subnet>) -> bool {
    forall|k: u64| #[trigger] m.dom().contains(k) ==> m[k].canonical() && net_key(m[k]) == k
}

/// What a query comes to first.
pub enum Next {
    /// No answer.
    Drop,
    /// An answer without records, with this code.
    Refuse(crate::dns::Said, u16),
    /// A failure: there is no network DNS to ask.
    NoNetwork(crate::dns::Said),
    /// A failure: the kill switch holds the name.
    Kill(Ask),
    /// What the network DNS answers.
    Forward(Upstream, crate::dns::Said),
    /// The network DNS is asked whether the router takes the name.
    Router(Upstream, Ask),
    /// The tunnel is asked.
    Tunnel(Upstream, Ask),
}

/// A query of a listed name.
pub struct Ask {
    pub req: crate::dns::Said,
    pub name: Seq<char>,
    pub rule: int,
    pub rule_name: Seq<char>,
    pub via: Option<u16>,
    /// Why the rule refuses, if it does.
    pub reasons: Reasons,
}

/// An answer without records as it is handed out. With one question it is
/// always there, and it says what it is meant to.
pub open spec fn refusal(r: Option<Vec<u8>>, req: crate::dns::Said, code: u16) -> bool {
    &&& match r {
        Some(b) => crate::dns::encoded(crate::dns::answer(req, code)) == Some(b@),
        None => crate::dns::encoded(crate::dns::answer(req, code)) is None,
    }
    &&& req.questions.len() <= 1 ==> r is Some
    &&& r matches Some(b) ==> crate::dns::decoded(b@) == Ok::<crate::dns::Said, Seq<char>>(
        crate::dns::answer(req, code),
    )
}

impl Resolver {
    pub open spec fn wf(&self) -> bool {
        &&& self.lists.sound()
        &&& self.hosts.wf()
        &&& self.subnets.wf()
        &&& self.unrouted.wf()
        &&& hosts_sound(self.hosts@)
        &&& nets_sound(self.subnets@)
        &&& marks_sound(self.unrouted@)
    }

    /// To the network DNS, if there is one.
    pub open spec fn forwarding(&self, req: crate::dns::Said) -> Next {
        match self.upstream {
            Some(u) => Next::Forward(u, req),
            None => Next::NoNetwork(req),
        }
    }

    /// Through the tunnel, if it carries.
    pub open spec fn through_tunnel(&self, a: Ask) -> Next {
        match a.via {
            Some(index) => Next::Tunnel(
                Upstream {
                    server: self.tunnel_dns,
                    port: DNS_PORT,
                    bound_if: if index == 0 {
                        None
                    } else {
                        Some(index as u32)
                    },
                },
                a,
            ),
            None => Next::Kill(a),
        }
    }

    /// A rule "always" goes past the router while its tunnel carries.
    pub open spec fn listed(&self, a: Ask, always: bool) -> Next {
        if !(always && a.via is Some) && self.core.use_fakeip && self.upstream is Some {
            Next::Router(self.upstream->0, a)
        } else {
            self.through_tunnel(a)
        }
    }

    /// What a query of one question comes to.
    pub open spec fn asked(&self, req: crate::dns::Said) -> Next {
        let name = crate::lists::normal(crate::dns::ascii_name(req.questions[0].labels));
        let qtype = req.questions[0].qtype;
        if crate::lists::normal(name) == firefox_canary() {
            Next::Refuse(req, NX_DOMAIN)
        } else {
            match self.core.choice(self.lists@.matching(name)) {
                // Lists of rules not in force go as if not listed.
                None => self.forwarding(req),
                Some(c) => if unwanted(qtype) {
                    Next::Refuse(req, NO_ERROR)
                } else {
                    self.listed(
                        Ask {
                            req,
                            name,
                            rule: c.rule,
                            rule_name: self.core.rules@[c.rule].name@,
                            via: self.core.through(c),
                            reasons: self.core.why(c.rule),
                        },
                        self.core.rules@[c.rule].when is Always,
                    )
                },
            }
        }
    }

    /// What a query comes to.
    pub open spec fn handled(&self, query: Seq<u8>) -> Next {
        match crate::dns::decoded(query) {
            Err(_) => Next::Drop,
            Ok(req) => if req.kind != Kind::Query {
                Next::Drop
            } else if req.questions.len() != 1 {
                self.forwarding(req)
            } else {
                self.asked(req)
            },
        }
    }
}

/// A query of a listed name, on its way.
#[derive(Debug)]
pub struct Lookup {
    pub req: Message,
    pub name: String,
    pub rule: usize,
    pub rule_name: String,
    pub via: Option<u16>,
    pub reasons: Reasons,
}

impl Lookup {
    pub open spec fn view(&self) -> Ask {
        Ask {
            req: self.req@,
            name: self.name@,
            rule: self.rule as int,
            rule_name: self.rule_name@,
            via: self.via,
            reasons: self.reasons,
        }
    }

    pub open spec fn wf(&self) -> bool {
        self.req@.wf()
    }
}

/// What to do for a query next.
#[derive(Debug)]
pub enum Step {
    /// The answer, or none to drop the query.
    Done(Option<Vec<u8>>),
    /// An answer without records, for the name asked, the type and with
    /// this code.
    Refused { reply: Option<Vec<u8>>, name: String, qtype: u16, code: u16 },
    /// A failure: there is no network DNS to ask.
    NoNetwork(Option<Vec<u8>>),
    /// A failure: the kill switch holds the name.
    Killed(Option<Vec<u8>>, Lookup),
    /// Send the query there; `forwarded` takes what comes of it.
    Forward(Upstream, Message),
    /// Send the query there; `router_said` takes what comes of it.
    Router(Upstream, Lookup),
    /// Send the query there; `tunnel_said` takes what comes of it.
    Tunnel(Upstream, Lookup),
}

impl Step {
    pub open spec fn does(&self, n: Next) -> bool {
        match (*self, n) {
            (Step::Done(r), Next::Drop) => r is None,
            (Step::Refused { reply, name, qtype, code }, Next::Refuse(req, c)) => {
                &&& refusal(reply, req, c)
                &&& name@ == crate::lists::normal(
                    crate::dns::ascii_name(req.questions[0].labels),
                )
                &&& qtype == req.questions[0].qtype
                &&& code == c
            },
            (Step::NoNetwork(r), Next::NoNetwork(req)) => refusal(r, req, SERV_FAIL),
            (Step::Killed(r, l), Next::Kill(a)) => l@ == a && refusal(r, a.req, SERV_FAIL),
            (Step::Forward(u, m), Next::Forward(v, req)) => u == v && m@ == req && req.wf(),
            (Step::Router(u, l), Next::Router(v, a)) => u == v && l@ == a && l.wf(),
            (Step::Tunnel(u, l), Next::Tunnel(v, a)) => u == v && l@ == a && l.wf(),
            _ => false,
        }
    }
}

impl Resolver {
    fn forward(&self, req: Message) -> (r: Step)
        requires
            req@.wf(),
        ensures
            r.does(self.forwarding(req@)),
    {
        match self.upstream {
            Some(u) => Step::Forward(u, req),
            None => Step::NoNetwork(reply(&req, SERV_FAIL)),
        }
    }

    fn to_tunnel(&self, l: Lookup) -> (r: Step)
        requires
            l.wf(),
        ensures
            r.does(self.through_tunnel(l@)),
    {
        match l.via {
            Some(index) => {
                let bound_if: Option<u32> = if index == 0 {
                    None
                } else {
                    Some(index as u32)
                };
                Step::Tunnel(Upstream { server: self.tunnel_dns, port: DNS_PORT, bound_if }, l)
            },
            None => Step::Killed(reply(&l.req, SERV_FAIL), l),
        }
    }

    /// What a query comes to: dropped, answered here, or where it is to be
    /// sent.
    pub fn handle(&self, query: &[u8]) -> (r: Step)
        requires
            self.wf(),
        ensures
            r.does(self.handled(query@)),
    {
        let req = match decode(query) {
            Ok(req) => req,
            Err(_) => {
                return Step::Done(None);
            },
        };
        if req.kind != Kind::Query {
            return Step::Done(None);
        }
        proof {
            assert(req@.questions.len() == req.questions@.len());
        }
        if req.questions.len() != 1 {
            return self.forward(req);
        }
        proof {
            assert(req@.questions[0] == req.questions@[0]@);
        }
        let name = normalize(ascii(&req.questions[0].labels).as_str());
        let qtype = req.questions[0].qtype;
        let found = match plan(&self.lists, name.as_str()) {
            Plan::Reply(code) => {
                let r = reply(&req, code);
                return Step::Refused { reply: r, name, qtype, code };
            },
            Plan::Network => Vec::new(),
            Plan::Listed(found) => found,
        };
        proof {
            assert(crate::text::seen(found@) =~= self.lists@.matching(name@));
        }
        let pick = match self.core.choose_rule(&found) {
            None => {
                return self.forward(req);
            },
            Some(pick) => pick,
        };
        if refused_type(qtype) {
            let r = reply(&req, NO_ERROR);
            return Step::Refused { reply: r, name, qtype, code: NO_ERROR };
        }
        let router_first = !(pick.always && pick.via.is_some());
        let l = Lookup {
            req,
            name,
            rule: pick.rule,
            rule_name: pick.name,
            via: pick.via,
            reasons: pick.reasons,
        };
        if router_first && self.core.use_fakeip {
            if let Some(u) = self.upstream {
                return Step::Router(u, l);
            }
        }
        self.to_tunnel(l)
    }

    /// The answer of the network DNS is the answer; without one, a failure.
    pub fn forwarded(req: &Message, answer: Option<Vec<u8>>) -> (r: Option<Vec<u8>>)
        requires
            req@.wf(),
        ensures
            match answer {
                Some(a) => r matches Some(b) && b@ == a@,
                None => refusal(r, req@, SERV_FAIL),
            },
    {
        match answer {
            Some(a) => Some(a),
            None => reply(req, SERV_FAIL),
        }
    }

    /// A fake address belongs to the router, and is the answer; anything
    /// else, or nothing, leaves the name to the tunnel.
    pub fn router_said(&self, l: Lookup, answer: Option<Vec<u8>>) -> (r: Step)
        requires
            l.wf(),
        ensures
            if answer matches Some(a) && (crate::dns::decoded(a@) matches Ok(m)
                && crate::dns::faked(m.answers)) {
                r matches Step::Done(Some(b)) && b@ == answer->0@
            } else {
                r.does(self.through_tunnel(l@))
            },
    {
        if let Some(bytes) = answer {
            let fake = match decode(bytes.as_slice()) {
                Ok(m) => has_fakeip(&m),
                Err(_) => false,
            };
            if fake {
                return Step::Done(Some(bytes));
            }
        }
        self.to_tunnel(l)
    }
}

// ---------------------------------------------------------------------
// Routes before the answer.
// ---------------------------------------------------------------------

/// What routing an address comes to.
#[derive(Clone, Copy, Debug, PartialEq, Eq, Structural)]
pub enum HostStep {
    /// Nothing is placed any more.
    Stopped,
    /// The rule has no tunnel interface.
    NoTunnel,
    /// A rule earlier in order holds the address and carries.
    Kept,
    /// The route is to be put in place.
    Place(Target, Way),
}

/// How a route is put in place.
#[derive(Clone, Copy, Debug, PartialEq, Eq, Structural)]
pub enum Way {
    /// The one this process placed is left as it is; one the kernel lost is
    /// put back.
    Keep,
    /// Any other that is there is moved.
    Move,
}

/// The way for `ip`: its route may be this process's own, into this tunnel.
pub open spec fn way(hosts: Map<u64, HostRun>, ip: Ipv4Addr, target: Target) -> Way {
    if hosts.dom().contains(host_key(ip)) && hosts[host_key(ip)].placed == Some(target.spot()) {
        Way::Keep
    } else {
        Way::Move
    }
}

pub open spec fn host_step(
    core: &Core,
    hosts: Map<u64, HostRun>,
    ip: Ipv4Addr,
    rule: int,
) -> HostStep {
    if core.stopped {
        HostStep::Stopped
    } else if hosts.dom().contains(host_key(ip)) && hosts[host_key(ip)].rule < rule
        && core.carrying(hosts[host_key(ip)].rule as int) {
        HostStep::Kept
    } else {
        match core.aim(rule) {
            Some(t) => HostStep::Place(t, way(hosts, ip, t)),
            None => HostStep::NoTunnel,
        }
    }
}

/// A kept address: its window is renewed.
pub open spec fn renewed(hosts: Map<u64, HostRun>, ip: Ipv4Addr, now: u64) -> Map<u64, HostRun> {
    hosts.insert(host_key(ip), HostRun { last: now, ..hosts[host_key(ip)] })
}

/// A placed address: it belongs to the rule now.
pub open spec fn settled_in(
    hosts: Map<u64, HostRun>,
    ip: Ipv4Addr,
    rule: int,
    target: Target,
    now: u64,
) -> Map<u64, HostRun> {
    hosts.insert(
        host_key(ip),
        HostRun { rule: rule as usize, last: now, placed: Some(target.spot()) },
    )
}

/// The address is not in the table of the rule yet.
pub open spec fn new_here(hosts: Map<u64, HostRun>, ip: Ipv4Addr, rule: int) -> bool {
    !hosts.dom().contains(host_key(ip)) || hosts[host_key(ip)].rule != rule
}

/// What routing does not touch.
pub open spec fn only_hosts(a: &Resolver, b: &Resolver) -> bool {
    &&& a.lists == b.lists
    &&& a.tunnel_dns == b.tunnel_dns
    &&& a.upstream == b.upstream
    &&& a.network == b.network
    &&& a.core == b.core
    &&& a.subnets == b.subnets
    &&& a.unrouted == b.unrouted
    &&& a.pf_shape == b.pf_shape
}

impl Resolver {
    /// Routes `ip` into the tunnel of `rule` as it is now and renews its
    /// window. An address a rule earlier in order holds and carries stays
    /// with it. A route this process placed is left as it is; any other is
    /// moved. A known address is placed again, not taken on trust: the
    /// kernel loses a route with the interface it points at, and the tunnel
    /// itself may be none the wiser. What is to be placed is for the caller
    /// to place, and `host_routed` takes it in.
    pub fn route_host(&mut self, ip: Ipv4Addr, rule: usize, now: u64) -> (r: HostStep)
        requires
            old(self).wf(),
        ensures
            final(self).wf(),
            r == host_step(&old(self).core, old(self).hosts@, ip, rule as int),
            only_hosts(old(self), final(self)),
            final(self).pf_stale == old(self).pf_stale,
            final(self).dirty == (old(self).dirty || r is Kept),
            final(self).hosts@ == (if r is Kept {
                renewed(old(self).hosts@, ip, now)
            } else {
                old(self).hosts@
            }),
    {
        if self.core.stopped {
            return HostStep::Stopped;
        }
        let k: u64 = ip.bits as u64;
        let prior = match self.hosts.get(k) {
            Some(h) => Some(*h),
            None => None,
        };
        if let Some(h) = prior {
            if h.rule < rule && self.core.carries(h.rule) {
                self.hosts.insert(k, HostRun { rule: h.rule, last: now, placed: h.placed });
                self.dirty = true;
                return HostStep::Kept;
            }
        }
        match self.core.target(rule) {
            Some(t) => {
                let own = match prior {
                    Some(h) => match h.placed {
                        Some(p) => p == t.placed(),
                        None => false,
                    },
                    None => false,
                };
                let way = if own {
                    Way::Keep
                } else {
                    Way::Move
                };
                HostStep::Place(t, way)
            },
            None => HostStep::NoTunnel,
        }
    }

    /// The route of `ip` is in place. True when the address is new to the
    /// table of the rule.
    pub fn host_routed(&mut self, ip: Ipv4Addr, rule: usize, target: Target, now: u64) -> (r: bool)
        requires
            old(self).wf(),
        ensures
            final(self).wf(),
            only_hosts(old(self), final(self)),
            r == new_here(old(self).hosts@, ip, rule as int),
            final(self).hosts@ == settled_in(old(self).hosts@, ip, rule as int, target, now),
            final(self).dirty,
            // Still in the table of the rule it had.
            final(self).pf_stale == (old(self).pf_stale || (r && old(self).hosts@.dom().contains(
                host_key(ip),
            ))),
    {
        let k: u64 = ip.bits as u64;
        let (known, fresh) = match self.hosts.get(k) {
            Some(h) => (true, h.rule != rule),
            None => (false, true),
        };
        self.hosts.insert(k, HostRun { rule, last: now, placed: Some(target.placed()) });
        self.dirty = true;
        if known && fresh {
            self.pf_stale = true;
        }
        fresh
    }
}

/// The routes of an answer, being placed.
#[derive(Debug)]
pub struct Placing {
    pub lookup: Lookup,
    /// The answer of the tunnel.
    pub bytes: Vec<u8>,
    /// Its response code.
    pub code: u16,
    /// Its addresses, and the tunnel servers when it came.
    pub ips: Vec<Ipv4Addr>,
    pub servers: Vec<Ipv4Addr>,
    /// How many are settled.
    pub at: usize,
    /// Those new to the table of the rule.
    pub new: Vec<Ipv4Addr>,
}

/// What to do for the routes of an answer next.
#[derive(Debug)]
pub enum PlaceStep {
    /// Put this route in place; `placed` takes what comes of it.
    Route(Subnet, Target, Way),
    /// Add the new addresses to the table of the rule; `held` takes what
    /// comes of it.
    Hold,
    /// The answer, or none to drop the query.
    Done(Option<Vec<u8>>),
}

/// How far the routes of an answer come by themselves.
pub struct Progress {
    pub hosts: Map<u64, HostRun>,
    pub dirty: bool,
    pub at: int,
    /// What stops it: none at the end.
    pub stop: Option<HostStep>,
}

/// On from address `at`: those that get no route and those that are kept
/// are passed over.
pub open spec fn run(
    core: &Core,
    hosts: Map<u64, HostRun>,
    dirty: bool,
    ips: Seq<Ipv4Addr>,
    servers: Seq<Ipv4Addr>,
    rule: int,
    at: int,
    now: u64,
) -> Progress
    decreases ips.len() - at,
{
    if at >= ips.len() {
        Progress { hosts, dirty, at, stop: None }
    } else if !may_route(ips[at], servers) {
        run(core, hosts, dirty, ips, servers, rule, at + 1, now)
    } else {
        match host_step(core, hosts, ips[at], rule) {
            HostStep::Kept => run(
                core,
                renewed(hosts, ips[at], now),
                true,
                ips,
                servers,
                rule,
                at + 1,
                now,
            ),
            stop => Progress { hosts, dirty, at, stop: Some(stop) },
        }
    }
}

impl Placing {
    pub open spec fn wf(&self) -> bool {
        self.lookup.wf() && self.at <= self.ips@.len()
    }

    /// Only the place changed.
    pub open spec fn moved_from(&self, old: &Placing) -> bool {
        &&& self.lookup == old.lookup
        &&& self.bytes == old.bytes
        &&& self.code == old.code
        &&& self.ips == old.ips
        &&& self.servers == old.servers
        &&& self.new == old.new
    }
}

/// What a stop comes to.
pub open spec fn stopped_at(r: PlaceStep, p: Progress, q: &Placing) -> bool {
    match p.stop {
        None => r is Hold,
        Some(HostStep::Place(t, w)) => r matches PlaceStep::Route(s, u, x) && u == t && x == w && s
            == Subnet::of_host(q.ips@[p.at]),
        // Never hand out an address that would go past the tunnel.
        Some(_) => r matches PlaceStep::Done(b) && refusal(b, q.lookup.req@, SERV_FAIL),
    }
}

impl Resolver {
    fn advance(&mut self, p: &mut Placing, now: u64) -> (r: PlaceStep)
        requires
            old(self).wf(),
            old(p).wf(),
        ensures
            final(self).wf(),
            final(p).wf(),
            final(p).moved_from(old(p)),
            only_hosts(old(self), final(self)),
            final(self).pf_stale == old(self).pf_stale,
            ({
                let g = run(
                    &old(self).core,
                    old(self).hosts@,
                    old(self).dirty,
                    old(p).ips@,
                    old(p).servers@,
                    old(p).lookup.rule as int,
                    old(p).at as int,
                    now,
                );
                &&& final(self).hosts@ == g.hosts
                &&& final(self).dirty == g.dirty
                &&& final(p).at == g.at
                &&& stopped_at(r, g, final(p))
            }),
    {
        let ghost g = run(
            &self.core,
            self.hosts@,
            self.dirty,
            p.ips@,
            p.servers@,
            p.lookup.rule as int,
            p.at as int,
            now,
        );
        while p.at < p.ips.len()
            invariant
                self.wf(),
                p.wf(),
                p.moved_from(old(p)),
                only_hosts(old(self), self),
                self.pf_stale == old(self).pf_stale,
                g == run(
                    &old(self).core,
                    old(self).hosts@,
                    old(self).dirty,
                    old(p).ips@,
                    old(p).servers@,
                    old(p).lookup.rule as int,
                    old(p).at as int,
                    now,
                ),
                g == run(
                    &self.core,
                    self.hosts@,
                    self.dirty,
                    p.ips@,
                    p.servers@,
                    p.lookup.rule as int,
                    p.at as int,
                    now,
                ),
            decreases p.ips@.len() - p.at,
        {
            let ip = p.ips[p.at];
            if routable(ip, &p.servers) {
                match self.route_host(ip, p.lookup.rule, now) {
                    HostStep::Kept => {},
                    HostStep::Place(t, way) => {
                        return PlaceStep::Route(Subnet::host(ip), t, way);
                    },
                    _ => {
                        return PlaceStep::Done(reply(&p.lookup.req, SERV_FAIL));
                    },
                }
            }
            p.at = p.at + 1;
        }
        PlaceStep::Hold
    }

    /// The answer of the tunnel: its addresses are routed before it is
    /// handed out. Without one, or with one that is no message, a failure.
    pub fn tunnel_said(&mut self, l: Lookup, answer: Option<Vec<u8>>, now: u64) -> (r: (
        Option<Placing>,
        PlaceStep,
    ))
        requires
            old(self).wf(),
            l.wf(),
        ensures
            final(self).wf(),
            only_hosts(old(self), final(self)),
            final(self).pf_stale == old(self).pf_stale,
            match (answer, r.0) {
                (Some(a), Some(p)) => {
                    &&& p.wf()
                    &&& p.lookup == l
                    &&& p.bytes@ == a@
                    &&& p.new@.len() == 0
                    &&& crate::dns::decoded(a@) matches Ok(m)
                    &&& p.code == m.code
                    &&& p.ips@ == crate::dns::addresses(m.answers)
                    &&& p.servers@ == servers(old(self).core.states())
                    &&& ({
                        let g = run(
                            &old(self).core,
                            old(self).hosts@,
                            old(self).dirty,
                            p.ips@,
                            p.servers@,
                            l.rule as int,
                            0,
                            now,
                        );
                        &&& final(self).hosts@ == g.hosts
                        &&& final(self).dirty == g.dirty
                        &&& p.at == g.at
                        &&& stopped_at(r.1, g, &p)
                    })
                },
                (_, None) => {
                    &&& answer matches Some(a) ==> crate::dns::decoded(a@) is Err
                    &&& final(self).hosts@ == old(self).hosts@
                    &&& final(self).dirty == old(self).dirty
                    &&& r.1 matches PlaceStep::Done(b)
                    &&& refusal(b, l.req@, SERV_FAIL)
                },
                (None, Some(_)) => false,
            },
    {
        let bytes = match answer {
            Some(bytes) => bytes,
            None => {
                return (None, PlaceStep::Done(reply(&l.req, SERV_FAIL)));
            },
        };
        let m = match decode(bytes.as_slice()) {
            Ok(m) => m,
            Err(_) => {
                return (None, PlaceStep::Done(reply(&l.req, SERV_FAIL)));
            },
        };
        let mut p = Placing {
            lookup: l,
            bytes,
            code: m.code,
            ips: ipv4_answers(&m),
            servers: self.core.endpoints(),
            at: 0,
            new: Vec::new(),
        };
        let step = self.advance(&mut p, now);
        (Some(p), step)
    }

    /// A route was put in place, or was not. One that was not fails the
    /// query: an address that would go past the tunnel is not handed out.
    pub fn placed(&mut self, p: &mut Placing, target: Target, ok: bool, now: u64) -> (r: PlaceStep)
        requires
            old(self).wf(),
            old(p).wf(),
            old(p).at < old(p).ips@.len(),
        ensures
            final(self).wf(),
            final(p).wf(),
            only_hosts(old(self), final(self)),
            ({
                let ip = old(p).ips@[old(p).at as int];
                let rule = old(p).lookup.rule as int;
                if !ok {
                    &&& *final(p) == *old(p)
                    &&& final(self).hosts@ == old(self).hosts@
                    &&& final(self).dirty == old(self).dirty
                    &&& final(self).pf_stale == old(self).pf_stale
                    &&& r matches PlaceStep::Done(b)
                    &&& refusal(b, old(p).lookup.req@, SERV_FAIL)
                } else {
                    let fresh = new_here(old(self).hosts@, ip, rule);
                    let g = run(
                        &old(self).core,
                        settled_in(old(self).hosts@, ip, rule, target, now),
                        true,
                        old(p).ips@,
                        old(p).servers@,
                        rule,
                        old(p).at + 1,
                        now,
                    );
                    &&& final(p).lookup == old(p).lookup
                    &&& final(p).bytes == old(p).bytes
                    &&& final(p).code == old(p).code
                    &&& final(p).ips == old(p).ips
                    &&& final(p).servers == old(p).servers
                    &&& final(p).new@ == (if fresh {
                        old(p).new@.push(ip)
                    } else {
                        old(p).new@
                    })
                    &&& final(p).at == g.at
                    &&& final(self).hosts@ == g.hosts
                    &&& final(self).dirty == g.dirty
                    &&& final(self).pf_stale == (old(self).pf_stale || (fresh
                        && old(self).hosts@.dom().contains(host_key(ip))))
                    &&& stopped_at(r, g, final(p))
                }
            }),
    {
        if !ok {
            return PlaceStep::Done(reply(&p.lookup.req, SERV_FAIL));
        }
        let n = p.ips.len();
        let ip = p.ips[p.at];
        if self.host_routed(ip, p.lookup.rule, target, now) {
            p.new.push(ip);
        }
        assert(p.at < n);
        p.at = p.at + 1;
        self.advance(p, now)
    }

    /// The new addresses are in the table of the rule, or are not: routed,
    /// but not held by the kill switch, is not handed out.
    pub fn held_in_table(&mut self, p: Placing, ok: bool) -> (r: Option<Vec<u8>>)
        requires
            old(self).wf(),
            p.wf(),
        ensures
            final(self).wf(),
            only_hosts(old(self), final(self)),
            final(self).hosts == old(self).hosts,
            final(self).dirty == old(self).dirty,
            final(self).pf_stale == (old(self).pf_stale || !ok),
            if ok {
                r matches Some(b) && b@ == p.bytes@
            } else {
                refusal(r, p.lookup.req@, SERV_FAIL)
            },
    {
        if ok {
            Some(p.bytes)
        } else {
            self.pf_stale = true;
            reply(&p.lookup.req, SERV_FAIL)
        }
    }
}

// ---------------------------------------------------------------------
// Laws.
// ---------------------------------------------------------------------

/// A name goes to the first rule in force that has it and whose tunnel
/// carries, whatever rules come before that do not carry; with none that
/// carries, to the first in force, which refuses. A name that no rule in
/// force has goes to none.
pub proof fn lemma_choice(core: &Core, found: Seq<Seq<char>>)
    ensures
        match core.choice(found) {
            Some(c) => {
                &&& core.takes(c.rule, found)
                &&& c.carries == core.carrying(c.rule)
                &&& c.carries ==> forall|i: int|
                    0 <= i < c.rule ==> !(#[trigger] core.takes(i, found) && core.carrying(i))
                &&& !c.carries ==> forall|i: int|
                    0 <= i < core.rules@.len() ==> !(#[trigger] core.takes(i, found)
                        && core.carrying(i))
                &&& !c.carries ==> forall|i: int|
                    0 <= i < c.rule ==> !#[trigger] core.takes(i, found)
            },
            None => forall|i: int| 0 <= i < core.rules@.len() ==> !#[trigger] core.takes(i, found),
        },
{
    let n = core.rules@.len() as int;
    let both = |i: int| core.takes(i, found) && core.carrying(i);
    let one = |i: int| core.takes(i, found);
    lemma_lowest(both, n);
    lemma_lowest(one, n);
    if let Some(c) = core.choice(found) {
        if c.carries {
            assert forall|i: int| 0 <= i < c.rule implies !(#[trigger] core.takes(i, found)
                && core.carrying(i)) by {
                assert(!both(i));
            }
        } else {
            assert forall|i: int| 0 <= i < core.rules@.len() implies !(#[trigger] core.takes(
                i,
                found,
            ) && core.carrying(i)) by {
                assert(!both(i));
            }
            assert forall|i: int| 0 <= i < c.rule implies !#[trigger] core.takes(i, found) by {
                assert(!one(i));
            }
        }
    } else {
        assert forall|i: int| 0 <= i < core.rules@.len() implies !#[trigger] core.takes(i, found) by {
            assert(!one(i));
        }
    }
}

/// The lists that a query of one question is in.
pub open spec fn query_lists(r: &Resolver, req: crate::dns::Said) -> Seq<Seq<char>> {
    r.lists@.matching(crate::lists::normal(crate::dns::ascii_name(req.questions[0].labels)))
}

/// A query goes into a tunnel only for a name in a list of a rule in force
/// that carries, and then through the interface of that rule's tunnel.
pub proof fn lemma_tunnels_are_for_listed_names(r: &Resolver, query: Seq<u8>)
    ensures
        r.handled(query) matches Next::Tunnel(u, a) ==> {
            &&& a.req.questions.len() == 1
            &&& r.core.takes(a.rule, query_lists(r, a.req))
            &&& r.core.carrying(a.rule)
            &&& r.core.aim(a.rule) matches Some(t)
            &&& a.via == Some(t.index)
            &&& u.server == r.tunnel_dns
            &&& t.index > 0 ==> u.bound_if == Some(t.index as u32)
        },
{
    if let Ok(req) = crate::dns::decoded(query) {
        lemma_choice(&r.core, query_lists(r, req));
    }
}

/// Names that no rule in force has go to the network DNS as they are, or
/// fail without one: they never touch a tunnel, nor is the router asked.
pub proof fn lemma_unlisted_names_stay_out(r: &Resolver, query: Seq<u8>, req: crate::dns::Said)
    requires
        crate::dns::decoded(query) == Ok::<crate::dns::Said, Seq<char>>(req),
        req.kind == Kind::Query,
        req.questions.len() == 1,
        forall|i: int|
            0 <= i < r.core.rules@.len() ==> !#[trigger] r.core.takes(i, query_lists(r, req)),
    ensures
        r.handled(query) == r.forwarding(req) || r.handled(query) == Next::Refuse(req, NX_DOMAIN),
{
    lemma_choice(&r.core, query_lists(r, req));
    if let Some(c) = r.core.choice(query_lists(r, req)) {
        assert(r.core.takes(c.rule, query_lists(r, req)));
    }
}

/// The kill switch: a listed name, no rule in force of which carries, fails;
/// when the router is asked first, it fails unless the router takes it.
pub proof fn lemma_kill_switch(r: &Resolver, query: Seq<u8>, req: crate::dns::Said, i: int)
    requires
        crate::dns::decoded(query) == Ok::<crate::dns::Said, Seq<char>>(req),
        req.kind == Kind::Query,
        req.questions.len() == 1,
        !unwanted(req.questions[0].qtype),
        crate::lists::normal(
            crate::lists::normal(crate::dns::ascii_name(req.questions[0].labels)),
        ) != firefox_canary(),
        0 <= i < r.core.rules@.len(),
        r.core.takes(i, query_lists(r, req)),
        forall|j: int|
            0 <= j < r.core.rules@.len() ==> !(#[trigger] r.core.takes(j, query_lists(r, req))
                && r.core.carrying(j)),
    ensures
        match r.handled(query) {
            Next::Kill(a) => a.req == req,
            Next::Router(u, a) => r.core.use_fakeip && a.req == req && r.through_tunnel(a)
                == Next::Kill(a),
            _ => false,
        },
{
    lemma_choice(&r.core, query_lists(r, req));
}

/// An address record of the next version, or a record with hints of one, is
/// never asked for: a listed name has none.
pub proof fn lemma_listed_names_have_no_hints(
    r: &Resolver,
    query: Seq<u8>,
    req: crate::dns::Said,
    i: int,
)
    requires
        crate::dns::decoded(query) == Ok::<crate::dns::Said, Seq<char>>(req),
        req.kind == Kind::Query,
        req.questions.len() == 1,
        unwanted(req.questions[0].qtype),
        crate::lists::normal(
            crate::lists::normal(crate::dns::ascii_name(req.questions[0].labels)),
        ) != firefox_canary(),
        0 <= i < r.core.rules@.len(),
        r.core.takes(i, query_lists(r, req)),
    ensures
        r.handled(query) == Next::Refuse(req, NO_ERROR),
{
    lemma_choice(&r.core, query_lists(r, req));
}

/// A refused query of one question is answered, and the answer keeps its id
/// and its question, has the code, and no records.
pub proof fn lemma_refusal_keeps_the_question(
    r: Option<Vec<u8>>,
    req: crate::dns::Said,
    code: u16,
)
    requires
        refusal(r, req, code),
        req.questions.len() == 1,
    ensures
        r matches Some(b) && (crate::dns::decoded(b@) matches Ok(m) && {
            &&& m.id == req.id
            &&& m.kind == Kind::Response
            &&& m.code == code
            &&& m.recursion_desired == req.recursion_desired
            &&& m.questions == req.questions
            &&& m.answers.len() == 0
        }),
{
}

/// The address needs no route of this rule, or has one.
pub open spec fn safe(
    core: &Core,
    hosts: Map<u64, HostRun>,
    ip: Ipv4Addr,
    servers: Seq<Ipv4Addr>,
    rule: int,
) -> bool {
    ||| !may_route(ip, servers)
    ||| hosts.dom().contains(host_key(ip)) && {
        let h = hosts[host_key(ip)];
        ||| h.rule < rule && core.carrying(h.rule as int)
        ||| h.rule == rule && (core.aim(rule) matches Some(t) && h.placed == Some(t.spot()))
    }
}

/// The hosts when the routes of an answer are placed one after another and
/// each goes well; none when one cannot be placed.
pub open spec fn all_placed(
    core: &Core,
    hosts: Map<u64, HostRun>,
    ips: Seq<Ipv4Addr>,
    servers: Seq<Ipv4Addr>,
    rule: int,
    at: int,
    now: u64,
) -> Option<Map<u64, HostRun>>
    decreases ips.len() - at,
{
    if at >= ips.len() {
        Some(hosts)
    } else if !may_route(ips[at], servers) {
        all_placed(core, hosts, ips, servers, rule, at + 1, now)
    } else {
        match host_step(core, hosts, ips[at], rule) {
            HostStep::Kept => all_placed(
                core,
                renewed(hosts, ips[at], now),
                ips,
                servers,
                rule,
                at + 1,
                now,
            ),
            HostStep::Place(t, _) => all_placed(
                core,
                settled_in(hosts, ips[at], rule, t, now),
                ips,
                servers,
                rule,
                at + 1,
                now,
            ),
            _ => None,
        }
    }
}

/// The machine that places the routes of an answer goes as `all_placed`
/// does: it stops only to place a route, to fail, or at the end.
pub proof fn lemma_run_is_all_placed(
    core: &Core,
    hosts: Map<u64, HostRun>,
    dirty: bool,
    ips: Seq<Ipv4Addr>,
    servers: Seq<Ipv4Addr>,
    rule: int,
    at: int,
    now: u64,
)
    requires
        0 <= at,
    ensures
        ({
            let g = run(core, hosts, dirty, ips, servers, rule, at, now);
            let all = all_placed(core, hosts, ips, servers, rule, at, now);
            match g.stop {
                None => all == Some(g.hosts),
                Some(HostStep::Place(t, _)) => at <= g.at < ips.len() && all == all_placed(
                    core,
                    settled_in(g.hosts, ips[g.at], rule, t, now),
                    ips,
                    servers,
                    rule,
                    g.at + 1,
                    now,
                ),
                Some(_) => all is None,
            }
        }),
    decreases ips.len() - at,
{
    if at < ips.len() {
        if !may_route(ips[at], servers) {
            lemma_run_is_all_placed(core, hosts, dirty, ips, servers, rule, at + 1, now);
        } else if host_step(core, hosts, ips[at], rule) is Kept {
            lemma_run_is_all_placed(
                core,
                renewed(hosts, ips[at], now),
                true,
                ips,
                servers,
                rule,
                at + 1,
                now,
            );
        }
    }
}

proof fn lemma_safe_stays(
    core: &Core,
    hosts: Map<u64, HostRun>,
    ips: Seq<Ipv4Addr>,
    servers: Seq<Ipv4Addr>,
    rule: int,
    at: int,
    now: u64,
    ip: Ipv4Addr,
)
    requires
        0 <= at,
        0 <= rule <= usize::MAX,
        safe(core, hosts, ip, servers, rule),
    ensures
        all_placed(core, hosts, ips, servers, rule, at, now) matches Some(h) ==> safe(
            core,
            h,
            ip,
            servers,
            rule,
        ),
    decreases ips.len() - at,
{
    if at < ips.len() {
        if !may_route(ips[at], servers) {
            lemma_safe_stays(core, hosts, ips, servers, rule, at + 1, now, ip);
        } else {
            match host_step(core, hosts, ips[at], rule) {
                HostStep::Kept => {
                    lemma_safe_stays(
                        core,
                        renewed(hosts, ips[at], now),
                        ips,
                        servers,
                        rule,
                        at + 1,
                        now,
                        ip,
                    );
                },
                HostStep::Place(t, _) => {
                    lemma_safe_stays(
                        core,
                        settled_in(hosts, ips[at], rule, t, now),
                        ips,
                        servers,
                        rule,
                        at + 1,
                        now,
                        ip,
                    );
                },
                _ => {},
            }
        }
    }
}

/// Every address of an answer that is handed out either gets no route by
/// rule, or is routed into the tunnel of the rule, or is held by a rule
/// earlier in order that carries.
pub proof fn lemma_answered_addresses_are_routed(
    core: &Core,
    hosts: Map<u64, HostRun>,
    ips: Seq<Ipv4Addr>,
    servers: Seq<Ipv4Addr>,
    rule: int,
    at: int,
    now: u64,
)
    requires
        0 <= at,
        0 <= rule <= usize::MAX,
    ensures
        all_placed(core, hosts, ips, servers, rule, at, now) matches Some(h) ==> forall|i: int|
            at <= i < ips.len() ==> safe(core, h, #[trigger] ips[i], servers, rule),
    decreases ips.len() - at,
{
    if at < ips.len() {
        let next = if !may_route(ips[at], servers) {
            Some(hosts)
        } else {
            match host_step(core, hosts, ips[at], rule) {
                HostStep::Kept => Some(renewed(hosts, ips[at], now)),
                HostStep::Place(t, _) => Some(settled_in(hosts, ips[at], rule, t, now)),
                _ => None,
            }
        };
        if let Some(g) = next {
            lemma_answered_addresses_are_routed(core, g, ips, servers, rule, at + 1, now);
            assert(safe(core, g, ips[at], servers, rule));
            lemma_safe_stays(core, g, ips, servers, rule, at + 1, now, ips[at]);
        }
    }
}

/// Why a rule is refused, by what its link reports: it has no tunnel whose
/// interface is there and that is not down, its tunnel is waited for, or
/// the owner asks. It carries exactly when it is in force and none holds.
pub proof fn lemma_a_rule_carries(core: &Core, i: int)
    requires
        0 <= i < core.rules@.len(),
    ensures
        core.why(i).owner == core.owner,
        core.why(i).tunnel <==> !(core.rules@[i].current matches Some(l) && l < core.links@.len()
            && core.links@[l as int].1.iface is Some && core.links@[l as int].1.health
            != Health::Down),
        core.why(i).works <==> (core.rules@[i].current matches Some(l) && l < core.links@.len()
            && core.links@[l as int].1.works),
        core.carrying(i) <==> core.rules@[i].active && !core.owner && (
        core.rules@[i].current matches Some(l) && l < core.links@.len() && core.links@[l as int].1.iface
            is Some && core.links@[l as int].1.health != Health::Down
            && !core.links@[l as int].1.works),
{
}

/// The routes of a rule point at the interface of the link it runs over, of
/// the generation that link has now, and nowhere without one.
pub proof fn lemma_where_a_rule_points(core: &Core, i: int, l: usize)
    requires
        0 <= i < core.rules@.len(),
        core.rules@[i].current == Some(l),
    ensures
        l >= core.links@.len() ==> core.aim(i) is None,
        l < core.links@.len() ==> match core.links@[l as int].1.iface {
            Some(f) => core.aim(i) matches Some(t) && t.link == l && t.index == f.index
                && t.generation == core.links@[l as int].1.generation && t.spot().link == l
                && t.spot().generation == t.generation,
            None => core.aim(i) is None,
        },
{
}

/// A rule without a link points nowhere, and neither does one there is not.
pub proof fn lemma_no_link_no_route(core: &Core, i: int)
    requires
        i < 0 || i >= core.rules@.len() || core.rules@[i].current is None,
    ensures
        core.aim(i) is None,
        !core.carrying(i),
{
}

/// A rule has a name when it is in force and one of the lists the name is
/// in is a list of the rule.
pub proof fn lemma_a_rule_takes(core: &Core, i: int, found: Seq<Seq<char>>)
    ensures
        core.takes(i, found) <==> 0 <= i < core.rules@.len() && core.rules@[i].active && exists|
            j: int,
            k: int,
        |
            0 <= j < core.rules@[i].lists@.len() && 0 <= k < found.len() && (
            #[trigger] core.rules@[i].lists@[j])@ == #[trigger] found[k],
{
    if 0 <= i < core.rules@.len() {
        let a = crate::text::seen(core.rules@[i].lists@);
        if shares(a, found) {
            let j = choose|j: int| 0 <= j < a.len() && found.contains(#[trigger] a[j]);
            let k = choose|k: int| 0 <= k < found.len() && found[k] == a[j];
            assert(core.rules@[i].lists@[j]@ == found[k]);
        }
        if exists|j: int, k: int|
            0 <= j < core.rules@[i].lists@.len() && 0 <= k < found.len() && (
            #[trigger] core.rules@[i].lists@[j])@ == #[trigger] found[k] {
            let (j, k) = choose|j: int, k: int|
                0 <= j < core.rules@[i].lists@.len() && 0 <= k < found.len() && (
                #[trigger] core.rules@[i].lists@[j])@ == #[trigger] found[k];
            assert(a[j] == found[k]);
            assert(found.contains(a[j]));
        }
    }
}

/// A query of a name that rule `i` has, when that is the first that carries
/// of those that have it: into the tunnel of the rule, at the tunnel's DNS,
/// port 53, bound to its interface. The router is asked first when it gives
/// fake addresses and there is a network DNS, but never for a rule "always".
pub proof fn lemma_a_carried_name(r: &Resolver, query: Seq<u8>, req: crate::dns::Said, i: int)
    requires
        crate::dns::decoded(query) == Ok::<crate::dns::Said, Seq<char>>(req),
        req.kind == Kind::Query,
        req.questions.len() == 1,
        req.questions[0].qtype != 28 && req.questions[0].qtype != 64 && req.questions[0].qtype
            != 65,
        crate::lists::normal(crate::dns::ascii_name(req.questions[0].labels))
            != "use-application-dns.net"@,
        0 <= i < r.core.rules@.len(),
        r.core.takes(i, query_lists(r, req)),
        r.core.carrying(i),
        forall|j: int|
            0 <= j < i ==> !(#[trigger] r.core.takes(j, query_lists(r, req)) && r.core.carrying(
                j,
            )),
    ensures
        ({
            let router = r.core.use_fakeip && r.upstream is Some && !(r.core.rules@[i].when
                is Always);
            let index = r.core.aim(i)->0.index;
            &&& r.core.aim(i) is Some
            &&& match r.handled(query) {
                Next::Tunnel(u, a) => {
                    &&& !router
                    &&& u.server == r.tunnel_dns
                    &&& u.port == 53
                    &&& u.bound_if == if index == 0 {
                        None
                    } else {
                        Some(index as u32)
                    }
                    &&& a.rule == i && a.rule_name == r.core.rules@[i].name@
                    &&& a.via == Some(index) && a.req == req
                },
                Next::Router(u, a) => {
                    &&& router
                    &&& Some(u) == r.upstream
                    &&& a.rule == i && a.rule_name == r.core.rules@[i].name@
                    &&& a.via == Some(index) && a.req == req
                },
                _ => false,
            }
        }),
{
    let found = query_lists(r, req);
    let name = crate::dns::ascii_name(req.questions[0].labels);
    crate::lists::lemma_normal_once(name);
    lemma_choice(&r.core, found);
    match r.core.choice(found) {
        Some(c) => {
            if c.rule < i {
                assert(r.core.takes(c.rule, found));
            } else if c.rule > i {
                assert(r.core.takes(i, found));
            }
            assert(c.rule == i && c.carries);
        },
        None => {
            assert(r.core.takes(i, found));
        },
    }
}

/// A query of a name that rule `i` is the first to have, when no rule that
/// has it carries: it is refused for the reasons of that rule, after the
/// router was asked when that gives fake addresses and there is a network
/// DNS, whatever the condition of the rule.
pub proof fn lemma_a_held_name(r: &Resolver, query: Seq<u8>, req: crate::dns::Said, i: int)
    requires
        crate::dns::decoded(query) == Ok::<crate::dns::Said, Seq<char>>(req),
        req.kind == Kind::Query,
        req.questions.len() == 1,
        req.questions[0].qtype != 28 && req.questions[0].qtype != 64 && req.questions[0].qtype
            != 65,
        crate::lists::normal(crate::dns::ascii_name(req.questions[0].labels))
            != "use-application-dns.net"@,
        0 <= i < r.core.rules@.len(),
        r.core.takes(i, query_lists(r, req)),
        forall|j: int| 0 <= j < i ==> !#[trigger] r.core.takes(j, query_lists(r, req)),
        forall|j: int|
            0 <= j < r.core.rules@.len() ==> !(#[trigger] r.core.takes(j, query_lists(r, req))
                && r.core.carrying(j)),
    ensures
        match r.handled(query) {
            Next::Kill(a) => {
                &&& !r.core.use_fakeip || r.upstream is None
                &&& a.rule == i && a.rule_name == r.core.rules@[i].name@ && a.via is None && a.req
                    == req
                &&& a.reasons == r.core.why(i)
            },
            Next::Router(u, a) => {
                &&& r.core.use_fakeip && Some(u) == r.upstream
                &&& a.rule == i && a.rule_name == r.core.rules@[i].name@ && a.via is None && a.req
                    == req
                &&& a.reasons == r.core.why(i)
            },
            _ => false,
        },
{
    let found = query_lists(r, req);
    crate::lists::lemma_normal_once(crate::dns::ascii_name(req.questions[0].labels));
    lemma_choice(&r.core, found);
    match r.core.choice(found) {
        Some(c) => {
            if c.rule < i {
                assert(r.core.takes(c.rule, found));
            } else if c.rule > i {
                assert(r.core.takes(i, found));
            }
        },
        None => {
            assert(r.core.takes(i, found));
        },
    }
}

/// What does not depend on the rules: bytes that are no query are dropped; a
/// query of none or several questions, or of a name that no rule in force
/// has, goes to the network DNS as it is, and fails without one; and the name by
/// which Firefox asks whether to use its own DNS does not resolve.
pub proof fn lemma_what_is_not_listed(r: &Resolver, query: Seq<u8>)
    ensures
        match crate::dns::decoded(query) {
            Err(_) => r.handled(query) is Drop,
            Ok(req) => {
                let plain = req.questions.len() != 1 || (crate::lists::normal(
                    crate::dns::ascii_name(req.questions[0].labels),
                ) != "use-application-dns.net"@ && forall|i: int|
                    0 <= i < r.core.rules@.len() ==> !#[trigger] r.core.takes(
                        i,
                        query_lists(r, req),
                    ));
                &&& req.kind == Kind::Response ==> r.handled(query) is Drop
                &&& req.kind == Kind::Query && plain ==> match r.upstream {
                    Some(u) => r.handled(query) == Next::Forward(u, req),
                    None => r.handled(query) == Next::NoNetwork(req),
                }
                &&& req.kind == Kind::Query && req.questions.len() == 1 && crate::lists::normal(
                    crate::dns::ascii_name(req.questions[0].labels),
                ) == "use-application-dns.net"@ ==> r.handled(query) == Next::Refuse(req, 3)
            },
        },
{
    if let Ok(req) = crate::dns::decoded(query) {
        if req.questions.len() == 1 {
            crate::lists::lemma_normal_once(crate::dns::ascii_name(req.questions[0].labels));
            lemma_choice(&r.core, query_lists(r, req));
        }
    }
}

/// What the router did not take goes by the rule alone: through the tunnel
/// it carries by, or refused; the answer of the router never changes which.
pub proof fn lemma_after_the_router(r: &Resolver, a: Ask)
    ensures
        match a.via {
            Some(index) => r.through_tunnel(a) matches Next::Tunnel(u, b) && b == a && u.server
                == r.tunnel_dns && u.port == 53 && u.bound_if == if index == 0 {
                None
            } else {
                Some(index as u32)
            },
            None => r.through_tunnel(a) == Next::Kill(a),
        },
{
}

/// The types a listed name is not asked for: those of the next version of
/// the protocol, and those with address hints; every other one is asked.
pub proof fn lemma_types_refused(qtype: u16)
    ensures
        unwanted(qtype) <==> qtype == 28 || qtype == 64 || qtype == 65,
{
}

/// A refusal says that it is the resolver's own word, and to the question:
/// whatever was asked, it comes back with recursion on offer.
pub proof fn lemma_refusal_offers_recursion(r: Option<Vec<u8>>, req: crate::dns::Said, code: u16)
    requires
        refusal(r, req, code),
        req.questions.len() == 1,
    ensures
        r matches Some(b) && (crate::dns::decoded(b@) matches Ok(m) && m.recursion_available
            && m.op_code == req.op_code && m.code == code && m.answers.len() == 0),
{
}

/// The tunnel servers are the endpoints of the links, all of them and no
/// other address.
pub proof fn lemma_servers(links: Seq<crate::links::State>, ip: Ipv4Addr)
    ensures
        servers(links).contains(ip) <==> exists|l: int|
            0 <= l < links.len() && (#[trigger] links[l]).endpoint == Some(ip),
    decreases links.len(),
{
    if links.len() > 0 {
        let rest = links.drop_last();
        lemma_servers(rest, ip);
        let last = links[links.len() - 1];
        assert(last == links.last());
        if servers(rest).contains(ip) {
            let i = choose|i: int| 0 <= i < servers(rest).len() && servers(rest)[i] == ip;
            assert(servers(links)[i] == ip);
            let l = choose|l: int| 0 <= l < rest.len() && (#[trigger] rest[l]).endpoint == Some(ip);
            assert(links[l].endpoint == Some(ip));
        }
        if last.endpoint == Some(ip) {
            assert(servers(links)[servers(rest).len() as int] == ip);
        }
        if servers(links).contains(ip) && last.endpoint != Some(ip) {
            let i = choose|i: int| 0 <= i < servers(links).len() && servers(links)[i] == ip;
            assert(servers(rest)[i] == ip);
        }
        if exists|l: int| 0 <= l < links.len() && (#[trigger] links[l]).endpoint == Some(ip) {
            let l = choose|l: int|
                0 <= l < links.len() && (#[trigger] links[l]).endpoint == Some(ip);
            if l < rest.len() {
                assert(rest[l].endpoint == Some(ip));
            }
        }
    }
}

/// An address may have a route exactly when no link has it for its server
/// and it is none of those that stay out of every tunnel.
pub proof fn lemma_who_may_have_a_route(core: &Core, ip: Ipv4Addr)
    ensures
        may_route(ip, servers(core.states())) <==> !special(ip) && forall|l: int|
            0 <= l < core.links@.len() ==> (#[trigger] core.links@[l]).1.endpoint != Some(ip),
{
    lemma_servers(core.states(), ip);
    let s = core.states();
    if exists|l: int| 0 <= l < s.len() && (#[trigger] s[l]).endpoint == Some(ip) {
        let l = choose|l: int| 0 <= l < s.len() && (#[trigger] s[l]).endpoint == Some(ip);
        assert(core.links@[l].1.endpoint == Some(ip));
    }
    assert forall|l: int| 0 <= l < core.links@.len() implies s[l].endpoint == (
    #[trigger] core.links@[l]).1.endpoint by {}
}

/// Two addresses with one number are one address.
pub proof fn lemma_host_key(a: Ipv4Addr, b: Ipv4Addr)
    requires
        host_key(a) == host_key(b),
    ensures
        a == b,
{
}

/// What routing an address comes to. Stopped, nothing is placed; an address
/// that an earlier rule holds and carries stays with it; every other goes to
/// the interface of the rule, and is left as it is only when this process
/// put it there, into that very interface.
pub proof fn lemma_what_routing_comes_to(
    core: &Core,
    hosts: Map<u64, HostRun>,
    ip: Ipv4Addr,
    rule: int,
)
    ensures
        ({
            let k = ip.bits as u64;
            let elsewhere = hosts.dom().contains(k) && hosts[k].rule < rule && core.carrying(
                hosts[k].rule as int,
            );
            match host_step(core, hosts, ip, rule) {
                HostStep::Stopped => core.stopped,
                HostStep::Kept => !core.stopped && elsewhere,
                HostStep::NoTunnel => !core.stopped && !elsewhere && core.aim(rule) is None,
                HostStep::Place(t, w) => {
                    &&& !core.stopped && !elsewhere && core.aim(rule) == Some(t)
                    &&& w is Keep <==> hosts.dom().contains(k) && (hosts[k].placed matches Some(p)
                        && p.link == t.link && p.generation == t.generation)
                },
            }
        }),
{
}

/// After the route of an address is placed, the address belongs to the rule
/// and points where it was placed, and its last answer is now, whatever it
/// was; no other address is touched.
pub proof fn lemma_a_placed_address(
    hosts: Map<u64, HostRun>,
    ip: Ipv4Addr,
    rule: usize,
    target: Target,
    now: u64,
    other: Ipv4Addr,
)
    ensures
        ({
            let m = settled_in(hosts, ip, rule as int, target, now);
            let k = ip.bits as u64;
            &&& m.dom() == hosts.dom().insert(k)
            &&& m[k].last == now
            &&& m[k].rule == rule
            &&& m[k].placed matches Some(p) && p.link == target.link && p.generation
                == target.generation
            &&& other != ip && hosts.dom().contains(other.bits as u64) ==> m[other.bits as u64]
                == hosts[other.bits as u64]
        }),
{
    assert(settled_in(hosts, ip, rule as int, target, now).dom() =~= hosts.dom().insert(
        ip.bits as u64,
    ));
}

/// After an address that an earlier rule keeps is answered again, its last
/// answer is now; its rule and its route are as they were, and no other
/// address is touched.
pub proof fn lemma_a_kept_address(
    hosts: Map<u64, HostRun>,
    ip: Ipv4Addr,
    now: u64,
    other: Ipv4Addr,
)
    requires
        hosts.dom().contains(ip.bits as u64),
    ensures
        ({
            let m = renewed(hosts, ip, now);
            let k = ip.bits as u64;
            &&& m.dom() == hosts.dom()
            &&& m[k].last == now
            &&& m[k].rule == hosts[k].rule
            &&& m[k].placed == hosts[k].placed
            &&& other != ip && hosts.dom().contains(other.bits as u64) ==> m[other.bits as u64]
                == hosts[other.bits as u64]
        }),
{
    assert(renewed(hosts, ip, now).dom() =~= hosts.dom());
}

/// An address is new to the table of a rule exactly when no host of that
/// rule has it.
pub proof fn lemma_new_to_the_table(hosts: Map<u64, HostRun>, ip: Ipv4Addr, rule: usize)
    ensures
        new_here(hosts, ip, rule as int) <==> !(hosts.dom().contains(ip.bits as u64) && hosts[
        ip.bits as u64].rule == rule),
{
}

/// Every address of an answer that is handed out, of those that may have a
/// route, has its last answer now: each answer renews the whole window of
/// every address it carries. And an address the answer does not carry is as
/// it was.
pub proof fn lemma_an_answer_renews(
    core: &Core,
    hosts: Map<u64, HostRun>,
    ips: Seq<Ipv4Addr>,
    servers: Seq<Ipv4Addr>,
    rule: int,
    at: int,
    now: u64,
    ip: Ipv4Addr,
)
    requires
        0 <= at,
        0 <= rule <= usize::MAX,
    ensures
        all_placed(core, hosts, ips, servers, rule, at, now) matches Some(h) ==> {
            let k = ip.bits as u64;
            &&& (exists|i: int| at <= i < ips.len() && #[trigger] ips[i] == ip) && may_route(
                ip,
                servers,
            ) ==> h.dom().contains(k) && h[k].last == now
            &&& !((exists|i: int| at <= i < ips.len() && #[trigger] ips[i] == ip) && may_route(
                ip,
                servers,
            )) ==> h.dom().contains(k) == hosts.dom().contains(k) && (hosts.dom().contains(k)
                ==> h[k] == hosts[k])
            &&& hosts.dom().contains(k) && hosts[k].last == now ==> h.dom().contains(k) && h[k].last
                == now
        },
    decreases ips.len() - at,
{
    if at < ips.len() {
        let next = if !may_route(ips[at], servers) {
            Some(hosts)
        } else {
            match host_step(core, hosts, ips[at], rule) {
                HostStep::Kept => Some(renewed(hosts, ips[at], now)),
                HostStep::Place(t, _) => Some(settled_in(hosts, ips[at], rule, t, now)),
                _ => None,
            }
        };
        if let Some(g) = next {
            lemma_an_answer_renews(core, g, ips, servers, rule, at + 1, now, ip);
            if exists|i: int| at <= i < ips.len() && #[trigger] ips[i] == ip {
                let i = choose|i: int| at <= i < ips.len() && #[trigger] ips[i] == ip;
                if i > at {
                    assert(at + 1 <= i && ips[i] == ip);
                }
            }
            if ips[at] != ip && host_key(ips[at]) == host_key(ip) {
                lemma_host_key(ips[at], ip);
            }
        }
    }
}

/// An answer is handed out only if every address in it that may have a
/// route could be placed or is kept: stopped, or with a rule that points
/// nowhere, one such address that no earlier rule keeps is enough to refuse.
pub proof fn lemma_no_route_no_answer(
    core: &Core,
    hosts: Map<u64, HostRun>,
    ips: Seq<Ipv4Addr>,
    servers: Seq<Ipv4Addr>,
    rule: int,
    at: int,
    now: u64,
    i: int,
)
    requires
        0 <= at <= i < ips.len(),
        0 <= rule <= usize::MAX,
        may_route(ips[i], servers),
        core.stopped || (core.aim(rule) is None && !(hosts.dom().contains(host_key(ips[i]))
            && hosts[host_key(ips[i])].rule < rule && core.carrying(
            hosts[host_key(ips[i])].rule as int,
        ))),
    ensures
        all_placed(core, hosts, ips, servers, rule, at, now) is None,
    decreases ips.len() - at,
{
    if at < i && may_route(ips[at], servers) && host_step(core, hosts, ips[at], rule) is Kept {
        lemma_no_route_no_answer(
            core,
            renewed(hosts, ips[at], now),
            ips,
            servers,
            rule,
            at + 1,
            now,
            i,
        );
    } else if at < i && !may_route(ips[at], servers) {
        lemma_no_route_no_answer(core, hosts, ips, servers, rule, at + 1, now, i);
    }
}

/// A query that is refused is answered with the code, the question and no
/// records: names are told not to be there with 3, types with 0, and what
/// fails for want of a network or a tunnel with 2. A query that goes on is
/// sent as it came, to where it is to go.
pub proof fn lemma_how_a_query_is_answered(step: Step, n: Next)
    requires
        step.does(n),
    ensures
        n matches Next::Refuse(req, c) ==> req.questions.len() == 1 ==> (
        step matches Step::Refused { reply: Some(b), name, qtype, code } && code == c && (
        crate::dns::decoded(b@) matches Ok(m) && m.code == c && m.id == req.id && m.questions
            == req.questions && m.answers.len() == 0) && qtype == req.questions[0].qtype && name@
            == crate::lists::normal(crate::dns::ascii_name(req.questions[0].labels))),
        n matches Next::NoNetwork(req) ==> req.questions.len() == 1 ==> (
        step matches Step::NoNetwork(Some(b)) && (crate::dns::decoded(b@) matches Ok(m) && m.code
            == 2 && m.id == req.id && m.questions == req.questions && m.answers.len() == 0)),
        n matches Next::Kill(a) ==> a.req.questions.len() == 1 ==> (
        step matches Step::Killed(Some(b), l) && l@ == a && (crate::dns::decoded(b@) matches Ok(m)
            && m.code == 2 && m.id == a.req.id && m.questions == a.req.questions && m.answers.len()
            == 0)),
        n is Drop <==> step is Done,
        n is Drop ==> step->Done_0 is None,
        n matches Next::Forward(u, req) ==> (step matches Step::Forward(v, m) && u == v && m@
            == req),
        n matches Next::Router(u, a) ==> (step matches Step::Router(v, l) && u == v && l@ == a),
        n matches Next::Tunnel(u, a) ==> (step matches Step::Tunnel(v, l) && u == v && l@ == a),
{
}

/// The codes: a listed name has no record of a type that is not asked for,
/// and says so without an error.
pub proof fn lemma_a_type_that_is_not_asked_for(
    r: &Resolver,
    query: Seq<u8>,
    req: crate::dns::Said,
    i: int,
)
    requires
        crate::dns::decoded(query) == Ok::<crate::dns::Said, Seq<char>>(req),
        req.kind == Kind::Query,
        req.questions.len() == 1,
        req.questions[0].qtype == 28 || req.questions[0].qtype == 64 || req.questions[0].qtype
            == 65,
        crate::lists::normal(crate::dns::ascii_name(req.questions[0].labels))
            != "use-application-dns.net"@,
        0 <= i < r.core.rules@.len(),
        r.core.takes(i, query_lists(r, req)),
    ensures
        r.handled(query) == Next::Refuse(req, 0),
{
    let name = crate::dns::ascii_name(req.questions[0].labels);
    crate::lists::lemma_normal_once(name);
    lemma_choice(&r.core, query_lists(r, req));
}

/// The lists of a query are those that match its name, as it is written in
/// the question; the name of an ask is that name in its normal form.
pub proof fn lemma_the_name_that_is_asked(r: &Resolver, query: Seq<u8>, req: crate::dns::Said)
    requires
        crate::dns::decoded(query) == Ok::<crate::dns::Said, Seq<char>>(req),
    ensures
        ({
            let name = crate::lists::normal(crate::dns::ascii_name(req.questions[0].labels));
            &&& query_lists(r, req) == r.lists@.matching(name)
            &&& match r.handled(query) {
                Next::Tunnel(_, a) => a.name == name,
                Next::Router(_, a) => a.name == name,
                Next::Kill(a) => a.name == name,
                _ => true,
            }
        }),
{
}

/// The routes of an answer are placed from the first address to the last:
/// it stops at the first that may have a route and is not kept, and every
/// address before that is passed over or kept; at the end it holds them.
pub proof fn lemma_where_placing_stops(
    core: &Core,
    hosts: Map<u64, HostRun>,
    dirty: bool,
    ips: Seq<Ipv4Addr>,
    servers: Seq<Ipv4Addr>,
    rule: int,
    at: int,
    now: u64,
)
    requires
        0 <= at <= ips.len(),
    ensures
        ({
            let g = run(core, hosts, dirty, ips, servers, rule, at, now);
            &&& at <= g.at <= ips.len()
            &&& g.stop is None <==> g.at == ips.len()
            &&& g.stop matches Some(h) ==> may_route(ips[g.at], servers) && h == host_step(
                core,
                g.hosts,
                ips[g.at],
                rule,
            ) && !(h is Kept)
            &&& (forall|i: int| at <= i < g.at ==> !may_route(#[trigger] ips[i], servers))
                ==> g.hosts == hosts && g.dirty == dirty
        }),
    decreases ips.len() - at,
{
    if at < ips.len() {
        if !may_route(ips[at], servers) {
            lemma_where_placing_stops(core, hosts, dirty, ips, servers, rule, at + 1, now);
        } else if host_step(core, hosts, ips[at], rule) is Kept {
            lemma_where_placing_stops(
                core,
                renewed(hosts, ips[at], now),
                true,
                ips,
                servers,
                rule,
                at + 1,
                now,
            );
            let g = run(core, hosts, dirty, ips, servers, rule, at, now);
            assert(may_route(ips[at], servers));
        }
    }
}

/// Where placing stops for a route, that is a route to the one address,
/// into the tunnel it is to go to; where it fails, the query is answered
/// with a failure and no address is handed out.
pub proof fn lemma_what_a_stop_comes_to(step: PlaceStep, p: Progress, q: &Placing)
    requires
        stopped_at(step, p, q),
    ensures
        p.stop is None <==> step is Hold,
        p.stop matches Some(HostStep::Place(t, w)) ==> step == PlaceStep::Route(
            Subnet { addr: q.ips@[p.at], prefix: 32 },
            t,
            w,
        ),
        (p.stop is Some && !(p.stop->0 is Place)) ==> q.lookup.req@.questions.len() == 1 ==> (
        step matches PlaceStep::Done(Some(b)) && (crate::dns::decoded(b@) matches Ok(m) && m.code
            == 2 && m.id == q.lookup.req@.id && m.answers.len() == 0)),
{
}

} // verus!
