//! Where the daemon listens: an address and a port.

use vstd::prelude::*;
use vstd::string::*;

use crate::addr::Ipv4Addr;
use crate::ipv6;
use crate::text::{around_last_of, around_of, chars_of, cut, number_of, show};

verus! {

/// An address as it is shown, IPv6 in brackets, and a port.
#[derive(Debug)]
pub struct SocketAddr {
    pub host: String,
    pub port: u16,
}

/// A number of digits alone, no more than `max`.
pub open spec fn plain(s: Seq<char>, max: nat) -> Option<nat> {
    if crate::text::digits(s) && crate::text::value(s) <= max {
        Some(crate::text::value(s))
    } else {
        None
    }
}

/// How an IPv6 address is shown, with the number of its scope behind a
/// percent sign unless that is zero. The scope may be left out.
pub open spec fn scoped(s: Seq<char>) -> Option<Seq<char>> {
    match crate::text::around(s, '%') {
        Some((a, scope)) => match (crate::ipv6::ipv6(a), plain(scope, u32::MAX as nat)) {
            (Some(g), Some(n)) => if n == 0 {
                Some(crate::ipv6::shown(g))
            } else {
                Some(crate::ipv6::shown(g) + "%"@ + crate::text::decimal(n))
            },
            _ => None,
        },
        None => match crate::ipv6::ipv6(s) {
            Some(g) => Some(crate::ipv6::shown(g)),
            None => None,
        },
    }
}

/// How an address is shown, IPv6 in brackets.
pub open spec fn host(s: Seq<char>) -> Option<Seq<char>> {
    match crate::addr::address(s) {
        Some(a) => Some(a.shown()),
        None => if s.len() >= 2 && s[0] == '[' && s.last() == ']' {
            match scoped(s.subrange(1, s.len() - 1)) {
                Some(t) => Some("["@ + t + "]"@),
                None => None,
            }
        } else {
            None
        },
    }
}

/// The address and the port a text writes.
pub open spec fn socket(s: Seq<char>) -> Option<(Seq<char>, u16)> {
    match crate::text::around_last(s, ':') {
        Some((h, p)) => match plain(p, u16::MAX as nat) {
            Some(n) => match host(h) {
                Some(t) => Some((t, n as u16)),
                None => None,
            },
            None => None,
        },
        None => None,
    }
}

fn plain_of(s: &str, max: u64) -> (r: Option<u64>)
    ensures
        match r {
            Some(n) => plain(s@, max as nat) == Some(n as nat),
            None => plain(s@, max as nat) is None,
        },
{
    let v = chars_of(s);
    if v.len() > 1 && v[0] == '+' {
        proof {
            assert(!crate::text::digit(s@[0]));
        }
        return None;
    }
    number_of(s, max)
}

fn scoped_of(s: &str) -> (r: Option<String>)
    ensures
        match r {
            Some(t) => scoped(s@) == Some(t@),
            None => scoped(s@) is None,
        },
{
    match around_of(s, '%') {
        Some((a, scope)) => match (
            ipv6::parse(a.as_str()),
            plain_of(scope.as_str(), u32::MAX as u64),
        ) {
            (Some(g), Some(n)) => {
                let mut t = ipv6::show(&g);
                if n != 0 {
                    t.append("%");
                    t.append(show(n as u128).as_str());
                }
                Some(t)
            },
            _ => None,
        },
        None => match ipv6::parse(s) {
            Some(g) => Some(ipv6::show(&g)),
            None => None,
        },
    }
}

fn host_of(s: &str) -> (r: Option<String>)
    ensures
        match r {
            Some(t) => host(s@) == Some(t@),
            None => host(s@) is None,
        },
{
    if let Some(a) = Ipv4Addr::parse(s) {
        return Some(a.to_string());
    }
    let v = chars_of(s);
    let n = v.len();
    if n < 2 || v[0] != '[' || v[n - 1] != ']' {
        return None;
    }
    match scoped_of(cut(&v, 1, n - 1).as_str()) {
        Some(t) => {
            let mut r = "[".to_owned();
            r.append(t.as_str());
            r.append("]");
            Some(r)
        },
        None => None,
    }
}

impl SocketAddr {
    pub open spec fn view(&self) -> (Seq<char>, u16) {
        (self.host@, self.port)
    }

    /// An IPv4 address and a port.
    pub fn new(ip: Ipv4Addr, port: u16) -> (r: SocketAddr)
        ensures
            r@ == (ip.shown(), port),
    {
        SocketAddr { host: ip.to_string(), port }
    }

    pub fn parse(s: &str) -> (r: Option<SocketAddr>)
        ensures
            match r {
                Some(a) => socket(s@) == Some(a@),
                None => socket(s@) is None,
            },
    {
        match around_last_of(s, ':') {
            Some((h, p)) => match plain_of(p.as_str(), u16::MAX as u64) {
                Some(n) => match host_of(h.as_str()) {
                    Some(host) => Some(SocketAddr { host, port: n as u16 }),
                    None => None,
                },
                None => None,
            },
            None => None,
        }
    }

    pub fn port(&self) -> (r: u16)
        ensures
            r == self@.1,
    {
        self.port
    }

    /// As it is shown.
    pub fn to_string(&self) -> (r: String)
        ensures
            r@ == self@.0 + ":"@ + crate::text::decimal(self@.1 as nat),
    {
        let mut s = self.host.clone();
        s.append(":");
        s.append(show(self.port as u128).as_str());
        s
    }
}

// ---------------------------------------------------------------------
// Laws.
// ---------------------------------------------------------------------

/// The port stands behind the last colon, a number up to 65535 of digits
/// alone; what is before it is the address.
pub proof fn lemma_what_a_socket_is(h: Seq<char>, p: Seq<char>)
    requires
        !p.contains(':'),
    ensures
        socket(h + seq![':'] + p) == if host(h) is Some && crate::text::digits(p)
            && crate::text::value(p) <= 65535 {
            Some((host(h)->0, crate::text::value(p) as u16))
        } else {
            None
        },
        socket(p) is None,
{
    crate::text::lemma_parted_last(h, ':', p);
}

/// An address of IPv4 and a port shown are the address and the port read.
pub proof fn lemma_a_socket_shown(ip: Ipv4Addr, port: u16)
    ensures
        socket(ip.shown() + seq![':'] + crate::text::decimal(port as nat)) == Some(
            (ip.shown(), port),
        ),
{
    crate::addr::lemma_address_shown(ip);
    crate::text::lemma_decimal(port as nat);
    let p = crate::text::decimal(port as nat);
    assert forall|i: int| 0 <= i < p.len() implies p[i] != ':' by {
        assert(crate::text::digit(p[i]));
    }
    lemma_what_a_socket_is(ip.shown(), p);
}

/// The scope of an address of IPv6 stands behind a percent sign, and is
/// shown unless it is zero.
pub proof fn lemma_what_a_scope_is(a: Seq<char>, scope: Seq<char>)
    requires
        !a.contains('%'),
        crate::ipv6::ipv6(a) is Some,
        crate::text::digits(scope),
        crate::text::value(scope) <= u32::MAX,
    ensures
        scoped(a) == Some(crate::ipv6::shown(crate::ipv6::ipv6(a)->0)),
        scoped(a + seq!['%'] + scope) == Some(
            if crate::text::value(scope) == 0 {
                crate::ipv6::shown(crate::ipv6::ipv6(a)->0)
            } else {
                crate::ipv6::shown(crate::ipv6::ipv6(a)->0) + "%"@ + crate::text::decimal(
                    crate::text::value(scope),
                )
            },
        ),
{
    crate::text::lemma_parted(a, '%', scope);
}

} // verus!
