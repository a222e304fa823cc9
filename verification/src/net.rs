//! The network the Mac is on: the primary interface, its gateway and the DNS
//! its DHCP gave; whether that DNS answers with fake addresses; sleep;
//! interface events.

use vstd::prelude::*;
use vstd::string::*;

use crate::addr::Ipv4Addr;
use crate::degraded::SECOND;
use crate::dns::{decode, has_fakeip, ipv4_answers};
use crate::text::{around_of, lines_of, same, trim_of};
use crate::upstream::{Upstream, DNS_PORT};

verus! {

/// Wall time ahead of monotonic time by more than this is sleep.
pub const SLEEP_GAP: u128 = 5 * SECOND;

pub const RTM_NEWADDR: u8 = 0xc;

pub const RTM_DELADDR: u8 = 0xd;

pub const RTM_IFINFO: u8 = 0xe;

pub const ENOBUFS: i32 = 55;

#[derive(Debug)]
pub struct Network {
    pub iface: String,
    pub index: u16,
    pub addr: Ipv4Addr,
    pub gateway: Ipv4Addr,
    pub dns: Ipv4Addr,
}

/// A network as a mathematical value.
pub struct Place {
    pub iface: Seq<char>,
    pub index: u16,
    pub addr: Ipv4Addr,
    pub gateway: Ipv4Addr,
    pub dns: Ipv4Addr,
}

impl Network {
    pub open spec fn view(&self) -> Place {
        Place {
            iface: self.iface@,
            index: self.index,
            addr: self.addr,
            gateway: self.gateway,
            dns: self.dns,
        }
    }

    /// The same network.
    pub fn same(&self, other: &Network) -> (r: bool)
        ensures
            r == (self@ == other@),
    {
        same(self.iface.as_str(), other.iface.as_str()) && self.index == other.index && self.addr
            == other.addr && self.gateway == other.gateway && self.dns == other.dns
    }

    pub fn copy(&self) -> (r: Network)
        ensures
            r@ == self@,
    {
        Network {
            iface: self.iface.clone(),
            index: self.index,
            addr: self.addr,
            gateway: self.gateway,
            dns: self.dns,
        }
    }

    /// The index to bind sockets to; none for no interface.
    pub fn bound(&self) -> (r: Option<u32>)
        ensures
            r == if self.index == 0 {
                None
            } else {
                Some(self.index as u32)
            },
    {
        if self.index == 0 {
            None
        } else {
            Some(self.index as u32)
        }
    }

    /// The network DNS, asked from a socket bound to the interface: list
    /// routes into the tunnel must not catch it.
    pub fn upstream(&self) -> (r: Upstream)
        ensures
            r == (Upstream {
                server: self.dns,
                port: DNS_PORT,
                bound_if: if self.index == 0 {
                    None
                } else {
                    Some(self.index as u32)
                },
            }),
    {
        Upstream { server: self.dns, port: DNS_PORT, bound_if: self.bound() }
    }

    pub open spec fn shown(&self) -> Seq<char> {
        self.iface@ + " "@ + self.addr.shown() + " gw="@ + self.gateway.shown() + " dns="@
            + self.dns.shown()
    }

    pub fn to_string(&self) -> (r: String)
        ensures
            r@ == self.shown(),
    {
        let mut s = self.iface.clone();
        s.append(" ");
        s.append(self.addr.to_string().as_str());
        s.append(" gw=");
        s.append(self.gateway.to_string().as_str());
        s.append(" dns=");
        s.append(self.dns.to_string().as_str());
        s
    }
}

// ---------------------------------------------------------------------
// The default route.
// ---------------------------------------------------------------------

/// What the lines of `route -n get` say so far: the gateway and the
/// interface, the last of each that is named.
pub open spec fn route_lines(lines: Seq<Seq<char>>) -> (Option<Ipv4Addr>, Option<Seq<char>>)
    decreases lines.len(),
{
    if lines.len() == 0 {
        (None, None)
    } else {
        let (gateway, iface) = route_lines(lines.drop_last());
        match crate::text::around(crate::text::trim(lines.last()), ':') {
            Some((key, v)) => if key == "gateway"@ {
                (crate::addr::address(crate::text::trim(v)), iface)
            } else if key == "interface"@ {
                (gateway, Some(crate::text::trim(v)))
            } else {
                (gateway, iface)
            },
            None => (gateway, iface),
        }
    }
}

pub open spec fn route_get(out: Seq<char>) -> Option<(Ipv4Addr, Seq<char>)> {
    match route_lines(crate::text::lines(out)) {
        (Some(gateway), Some(iface)) => Some((gateway, iface)),
        _ => None,
    }
}

/// The gateway and the interface in what `route -n get default` prints.
pub fn parse_route_get(out: &str) -> (r: Option<(Ipv4Addr, String)>)
    ensures
        match r {
            Some((gateway, iface)) => route_get(out@) == Some((gateway, iface@)),
            None => route_get(out@) is None,
        },
{
    let mut gateway: Option<Ipv4Addr> = None;
    let mut iface: Option<String> = None;
    let lines = lines_of(out);
    let ghost all = crate::text::seen(lines@);
    let mut i: usize = 0;
    proof {
        assert(all.take(0) =~= seq![]);
    }
    while i < lines.len()
        invariant
            i <= lines@.len(),
            all == crate::text::seen(lines@),
            gateway == route_lines(all.take(i as int)).0,
            match iface {
                Some(s) => route_lines(all.take(i as int)).1 == Some(s@),
                None => route_lines(all.take(i as int)).1 is None,
            },
        decreases lines@.len() - i,
    {
        proof {
            assert(all.take(i + 1).drop_last() =~= all.take(i as int));
            assert(all.take(i + 1).last() == lines@[i as int]@);
        }
        let line = trim_of(lines[i].as_str());
        if let Some((key, v)) = around_of(line.as_str(), ':') {
            if same(key.as_str(), "gateway") {
                gateway = Ipv4Addr::parse(trim_of(v.as_str()).as_str());
            } else if same(key.as_str(), "interface") {
                iface = Some(trim_of(v.as_str()));
            }
        }
        i += 1;
    }
    proof {
        assert(all.take(i as int) =~= all);
    }
    match (gateway, iface) {
        (Some(gateway), Some(iface)) => Some((gateway, iface)),
        _ => None,
    }
}

/// The network of the default route: from the gateway and the interface,
/// its index, what `ipconfig getifaddr` printed, and what DHCP said of the
/// DNS, whatever the Mac itself is set to use; without it, the gateway.
/// None without an address.
pub fn network_of(
    gateway: Ipv4Addr,
    iface: String,
    index: u16,
    addr: &str,
    dns: Option<String>,
) -> (r: Option<Network>)
    ensures
        match r {
            Some(n) => crate::addr::address(crate::text::trim(addr@)) == Some(n.addr) && n@
                == (Place {
                iface: iface@,
                index,
                addr: n.addr,
                gateway,
                dns: match dns {
                    Some(d) => match crate::addr::address(crate::text::trim(d@)) {
                        Some(ip) => ip,
                        None => gateway,
                    },
                    None => gateway,
                },
            }),
            None => crate::addr::address(crate::text::trim(addr@)) is None,
        },
{
    let addr = match Ipv4Addr::parse(trim_of(addr).as_str()) {
        Some(addr) => addr,
        None => {
            return None;
        },
    };
    let given = match &dns {
        Some(d) => Ipv4Addr::parse(trim_of(d.as_str()).as_str()),
        None => None,
    };
    let dns = match given {
        Some(ip) => ip,
        None => gateway,
    };
    Some(Network { iface, index, addr, gateway, dns })
}

// ---------------------------------------------------------------------
// Answers to queries of our own.
// ---------------------------------------------------------------------

/// Whether an answer to the probe has a fake address; the words of the
/// error when the bytes are no message.
pub fn upstream_has_fakeip(answer: &[u8]) -> (r: Result<bool, String>)
    ensures
        match crate::dns::decoded(answer@) {
            Ok(m) => r == Ok::<bool, String>(crate::dns::faked(m.answers)),
            Err(e) => r matches Err(f) && f@ == e,
        },
{
    match decode(answer) {
        Ok(m) => Ok(has_fakeip(&m)),
        Err(e) => Err(e),
    }
}

/// The first address of an answer for `name`, or why there is none.
pub fn resolve_ipv4(answer: &[u8], name: &str) -> (r: Result<Ipv4Addr, String>)
    ensures
        match crate::dns::decoded(answer@) {
            Ok(m) => if crate::dns::addresses(m.answers).len() > 0 {
                r == Ok::<Ipv4Addr, String>(crate::dns::addresses(m.answers)[0])
            } else {
                r matches Err(f) && f@ == "no address for "@ + name@
            },
            Err(e) => r matches Err(f) && f@ == e,
        },
{
    match decode(answer) {
        Ok(m) => {
            let ips = ipv4_answers(&m);
            if ips.len() > 0 {
                Ok(ips[0])
            } else {
                let mut e = "no address for ".to_owned();
                e.append(name);
                Err(e)
            }
        },
        Err(e) => Err(e),
    }
}

// ---------------------------------------------------------------------
// Sleep.
// ---------------------------------------------------------------------

/// Notices sleep: wall time runs through it, monotonic time on the Mac does
/// not.
#[derive(Clone, Copy, Debug)]
pub struct Clock {
    pub wall: u128,
    pub mono: u128,
}

impl Clock {
    /// How far wall time ran ahead.
    pub open spec fn gap(self, wall: u128, mono: u128) -> int {
        crate::degraded::since(self.wall, wall) - crate::degraded::since(self.mono, mono)
    }

    pub fn new(wall: u128, mono: u128) -> (r: Self)
        ensures
            r == (Clock { wall, mono }),
    {
        Clock { wall, mono }
    }

    /// How long the Mac slept since the last call, if it did, by the two
    /// clocks as they are now.
    pub fn slept(&mut self, wall: u128, mono: u128) -> (r: Option<u128>)
        ensures
            *final(self) == (Clock { wall, mono }),
            match r {
                Some(t) => t == old(self).gap(wall, mono) && t > SLEEP_GAP,
                None => old(self).gap(wall, mono) <= SLEEP_GAP,
            },
    {
        let dw = crate::degraded::elapsed(self.wall, wall);
        let dm = crate::degraded::elapsed(self.mono, mono);
        self.wall = wall;
        self.mono = mono;
        if dw > dm && dw - dm > SLEEP_GAP {
            Some(dw - dm)
        } else {
            None
        }
    }
}

// ---------------------------------------------------------------------
// Interface events.
// ---------------------------------------------------------------------

pub fn is_link_event(kind: u8) -> (r: bool)
    ensures
        r == (kind == RTM_NEWADDR || kind == RTM_DELADDR || kind == RTM_IFINFO),
{
    kind == RTM_NEWADDR || kind == RTM_DELADDR || kind == RTM_IFINFO
}

/// What reading the routing socket came to.
#[derive(Debug)]
pub enum Read {
    Message(Vec<u8>),
    Failed(Option<i32>),
    /// Nothing is there yet.
    Nothing,
}

#[derive(Clone, Copy, Debug, PartialEq, Eq, Structural)]
pub enum Heard {
    /// An interface or its addresses changed.
    Change,
    /// Nothing that matters: wait on.
    More,
    Error,
}

/// A message about an interface or its addresses is a change; route
/// messages, this process's own among them, are skipped. An overflow is a
/// change too: messages were lost, and one of them may have mattered.
pub fn heard(got: &Read) -> (r: Heard)
    ensures
        r == match *got {
            Read::Message(m) => if m@.len() > 3 && (m@[3] == RTM_NEWADDR || m@[3] == RTM_DELADDR
                || m@[3] == RTM_IFINFO) {
                Heard::Change
            } else {
                Heard::More
            },
            Read::Failed(e) => if e == Some(ENOBUFS) {
                Heard::Change
            } else {
                Heard::Error
            },
            Read::Nothing => Heard::More,
        },
{
    match got {
        Read::Message(m) => if m.len() > 3 && is_link_event(m[3]) {
            Heard::Change
        } else {
            Heard::More
        },
        Read::Failed(e) => match e {
            Some(n) => if *n == ENOBUFS {
                Heard::Change
            } else {
                Heard::Error
            },
            None => Heard::Error,
        },
        Read::Nothing => Heard::More,
    }
}

// ---------------------------------------------------------------------
// Laws.
// ---------------------------------------------------------------------

/// Of the lines about a route the last gateway and the last interface
/// count, and the others say nothing; without either there is no route.
pub proof fn lemma_what_a_route_line_says(lines: Seq<Seq<char>>, line: Seq<char>)
    ensures
        route_lines(seq![]) == (None::<Ipv4Addr>, None::<Seq<char>>),
        ({
            let (g, i) = route_lines(lines);
            let (h, j) = route_lines(lines.push(line));
            match crate::text::around(crate::text::trim(line), ':') {
                Some((key, v)) => {
                    &&& h == if key == "gateway"@ {
                        crate::addr::address(crate::text::trim(v))
                    } else {
                        g
                    }
                    &&& j == if key == "interface"@ {
                        Some(crate::text::trim(v))
                    } else {
                        i
                    }
                },
                None => h == g && j == i,
            }
        }),
{
    reveal_strlit("gateway");
    reveal_strlit("interface");
    assert("gateway"@.len() == 7 && "interface"@.len() == 9);
    assert(lines.push(line).last() == line);
    assert(lines.push(line).drop_last() =~= lines);
}

/// A route has a gateway and an interface, both.
pub proof fn lemma_a_route_has_both(out: Seq<char>)
    ensures
        ({
            let (g, i) = route_lines(crate::text::lines(out));
            &&& route_get(out) is Some <==> g is Some && i is Some
            &&& route_get(out) matches Some((a, b)) ==> g == Some(a) && i == Some(b)
        }),
{
}

/// The Mac slept when the clock on the wall has run more than five seconds
/// ahead of the other, and for as long as it has.
pub proof fn lemma_what_sleep_is(c: Clock, wall: u128, mono: u128)
    requires
        c.wall <= wall,
        c.mono <= mono,
    ensures
        c.gap(wall, mono) == (wall - c.wall) - (mono - c.mono),
        c.gap(wall, mono) > SLEEP_GAP <==> wall - c.wall > mono - c.mono + 5_000_000_000,
{
}

/// The messages that tell of a change: an address came, an address went, an
/// interface changed; and the error of messages lost.
pub proof fn lemma_which_messages_tell(kind: u8)
    ensures
        (kind == RTM_NEWADDR || kind == RTM_DELADDR || kind == RTM_IFINFO) <==> 12 <= kind <= 14,
        ENOBUFS == 55,
{
}

/// A network is shown by its interface, its address, its gateway and its
/// DNS.
pub proof fn lemma_how_a_network_is_shown(n: &Network)
    ensures
        n.shown() == n.iface@ + " "@ + n.addr.shown() + " gw="@ + n.gateway.shown() + " dns="@
            + n.dns.shown(),
{
}

} // verus!
