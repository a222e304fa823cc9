//! The kill switch in pf: addresses of the lists leave only through the
//! tunnels of their rule. The rules live in an anchor under `com.apple`,
//! which the main ruleset evaluates, and stay in the kernel when the daemon
//! dies; only a stop takes them away. Each rule in force has two tables:
//! its routed hosts and its list subnets. When the network resolver answers
//! with fake addresses the subnets may go to the router, which sends them
//! into its own tunnel.

use vstd::prelude::*;
use vstd::string::*;

use crate::addr::{Ipv4Addr, Subnet};
use crate::probe::targets;
use crate::text::{
    around_of, chars_of, join_of, lines_of, page_of, same, show, show_bool, starts_of,
    trim_of, words_of,
};

verus! {

pub const ANCHOR: &'static str = "com.apple/mac-gate";

/// What the rules depend on besides the tables; a change reloads them.
#[derive(Debug)]
pub struct Shape {
    /// Per rule, in the order of the settings: none for a rule not in
    /// force, which holds nothing; else the tunnel interfaces its addresses
    /// may leave through, none while it has no tunnel.
    pub rules: Vec<Option<Vec<String>>>,
    /// The subnets are left to the router.
    pub use_fakeip: bool,
    /// The tunnel servers, open whatever list covers them.
    pub endpoints: Vec<Ipv4Addr>,
    /// The physical interface and the network DNS.
    pub network: Option<(String, Ipv4Addr)>,
}

/// A shape as a mathematical value.
#[verifier::ext_equal]
pub struct Form {
    pub rules: Seq<Option<Seq<Seq<char>>>>,
    pub use_fakeip: bool,
    pub endpoints: Seq<Ipv4Addr>,
    pub network: Option<(Seq<char>, Ipv4Addr)>,
}

pub open spec fn exits(r: Option<Vec<String>>) -> Option<Seq<Seq<char>>> {
    match r {
        Some(t) => Some(crate::text::seen(t@)),
        None => None,
    }
}

impl Shape {
    pub open spec fn view(&self) -> Form {
        Form {
            rules: self.rules@.map_values(|r: Option<Vec<String>>| exits(r)),
            use_fakeip: self.use_fakeip,
            endpoints: self.endpoints@,
            network: match self.network {
                Some((iface, dns)) => Some((iface@, dns)),
                None => None,
            },
        }
    }
}

/// The addresses as they are written.
pub open spec fn all_shown(ips: Seq<Ipv4Addr>) -> Seq<Seq<char>> {
    ips.map_values(|ip: Ipv4Addr| ip.shown())
}

pub fn show_all(ips: &Vec<Ipv4Addr>) -> (r: Vec<String>)
    ensures
        crate::text::seen(r@) == all_shown(ips@),
{
    let mut r: Vec<String> = Vec::new();
    let mut i: usize = 0;
    while i < ips.len()
        invariant
            i <= ips@.len(),
            r@.len() == i,
            forall|j: int| 0 <= j < i ==> (#[trigger] r@[j])@ == ips@[j].shown(),
        decreases ips@.len() - i,
    {
        r.push(ips[i].to_string());
        i += 1;
    }
    proof {
        assert(crate::text::seen(r@) =~= all_shown(ips@));
    }
    r
}

// ---------------------------------------------------------------------
// The shape in words.
// ---------------------------------------------------------------------

pub open spec fn rule_shown(r: Option<Seq<Seq<char>>>) -> Seq<char> {
    match r {
        None => "off"@,
        Some(t) => if t.len() == 0 {
            "none"@
        } else {
            crate::text::join(t, ","@)
        },
    }
}

impl Form {
    pub open spec fn shown(self) -> Seq<char> {
        let endpoints = if self.endpoints.len() == 0 {
            "none"@
        } else {
            crate::text::join(all_shown(self.endpoints), ","@)
        };
        let network = match self.network {
            None => "none"@,
            Some((iface, dns)) => iface + " dns="@ + dns.shown(),
        };
        "rules="@ + crate::text::join(
            self.rules.map_values(|r: Option<Seq<Seq<char>>>| rule_shown(r)),
            " "@,
        ) + " use_fakeip="@ + crate::text::shown_bool(self.use_fakeip) + " endpoints="@ + endpoints
            + " network="@ + network
    }
}

impl Shape {
    pub fn to_string(&self) -> (r: String)
        ensures
            r@ == self@.shown(),
    {
        let mut rules: Vec<String> = Vec::new();
        let mut i: usize = 0;
        while i < self.rules.len()
            invariant
                i <= self.rules@.len(),
                rules@.len() == i,
                forall|j: int|
                    0 <= j < i ==> (#[trigger] rules@[j])@ == rule_shown(self@.rules[j]),
            decreases self.rules@.len() - i,
        {
            let s = match &self.rules[i] {
                None => "off".to_owned(),
                Some(t) => if t.len() == 0 {
                    "none".to_owned()
                } else {
                    join_of(t, ",")
                },
            };
            rules.push(s);
            i += 1;
        }
        proof {
            assert(crate::text::seen(rules@) =~= self@.rules.map_values(
                |r: Option<Seq<Seq<char>>>| rule_shown(r),
            ));
        }
        let mut s = "rules=".to_owned();
        s.append(join_of(&rules, " ").as_str());
        s.append(" use_fakeip=");
        s.append(show_bool(self.use_fakeip));
        s.append(" endpoints=");
        let endpoints = if self.endpoints.len() == 0 {
            "none".to_owned()
        } else {
            join_of(&show_all(&self.endpoints), ",")
        };
        s.append(endpoints.as_str());
        s.append(" network=");
        let network = match &self.network {
            None => "none".to_owned(),
            Some((iface, dns)) => {
                let mut n = iface.clone();
                n.append(" dns=");
                n.append(dns.to_string().as_str());
                n
            },
        };
        s.append(network.as_str());
        s
    }

    fn same_exits(a: &Option<Vec<String>>, b: &Option<Vec<String>>) -> (r: bool)
        ensures
            r == (exits(*a) == exits(*b)),
    {
        match (a, b) {
            (None, None) => true,
            (Some(x), Some(y)) => same_texts(x, y),
            _ => false,
        }
    }

    /// The same shape: nothing to reload.
    pub fn same(&self, other: &Shape) -> (r: bool)
        ensures
            r == (self@ == other@),
    {
        let ghost x = self@;
        let ghost y = other@;
        if self.rules.len() != other.rules.len() || self.endpoints.len() != other.endpoints.len()
            || self.use_fakeip != other.use_fakeip {
            proof {
                assert(x.rules.len() == self.rules@.len() && y.rules.len() == other.rules@.len());
            }
            return false;
        }
        let network = match (&self.network, &other.network) {
            (None, None) => true,
            (Some((i, d)), Some((j, e))) => same(i.as_str(), j.as_str()) && *d == *e,
            _ => false,
        };
        if !network {
            return false;
        }
        let mut i: usize = 0;
        while i < self.rules.len()
            invariant
                i <= self.rules@.len(),
                self.rules@.len() == other.rules@.len(),
                x == self@,
                y == other@,
                forall|j: int| 0 <= j < i ==> #[trigger] x.rules[j] == y.rules[j],
            decreases self.rules@.len() - i,
        {
            if !Self::same_exits(&self.rules[i], &other.rules[i]) {
                proof {
                    assert(x.rules[i as int] != y.rules[i as int]);
                }
                return false;
            }
            i += 1;
        }
        proof {
            assert(x.rules =~= y.rules);
        }
        let mut i: usize = 0;
        while i < self.endpoints.len()
            invariant
                i <= self.endpoints@.len(),
                self.endpoints@.len() == other.endpoints@.len(),
                x == self@,
                y == other@,
                forall|j: int| 0 <= j < i ==> #[trigger] x.endpoints[j] == y.endpoints[j],
            decreases self.endpoints@.len() - i,
        {
            if self.endpoints[i] != other.endpoints[i] {
                proof {
                    assert(x.endpoints[i as int] != y.endpoints[i as int]);
                }
                return false;
            }
            i += 1;
        }
        proof {
            assert(x.endpoints =~= y.endpoints);
        }
        true
    }
}

pub fn same_texts(a: &Vec<String>, b: &Vec<String>) -> (r: bool)
    ensures
        r == (crate::text::seen(a@) == crate::text::seen(b@)),
{
    let ghost x = crate::text::seen(a@);
    let ghost y = crate::text::seen(b@);
    if a.len() != b.len() {
        proof {
            assert(x.len() != y.len());
        }
        return false;
    }
    let mut i: usize = 0;
    while i < a.len()
        invariant
            i <= a@.len(),
            a@.len() == b@.len(),
            x == crate::text::seen(a@),
            y == crate::text::seen(b@),
            forall|j: int| 0 <= j < i ==> x[j] == y[j],
        decreases a@.len() - i,
    {
        if !same(a[i].as_str(), b[i].as_str()) {
            proof {
                assert(x[i as int] != y[i as int]);
            }
            return false;
        }
        i += 1;
    }
    proof {
        assert(x =~= y);
    }
    true
}

// ---------------------------------------------------------------------
// The ruleset.
// ---------------------------------------------------------------------

/// A file of the directory: a path with the name joined to it.
pub open spec fn below(dir: Seq<char>, name: Seq<char>) -> Seq<char> {
    if crate::text::ends(dir, "/"@) || dir.len() == 0 {
        dir + name
    } else {
        dir + "/"@ + name
    }
}

/// The file of a table.
pub open spec fn table_path(dir: Seq<char>, kind: Seq<char>, rule: int) -> Seq<char> {
    below(dir, kind + "-"@ + crate::text::decimal(rule as nat))
}

pub fn join_path(dir: &str, name: &str) -> (r: String)
    ensures
        r@ == below(dir@, name@),
{
    let mut s = dir.to_owned();
    if !(crate::text::ends_of(dir, "/") || dir.is_empty()) {
        s.append("/");
    }
    s.append(name);
    s
}

pub fn table_file(dir: &str, kind: &str, rule: usize) -> (r: String)
    ensures
        r@ == table_path(dir@, kind@, rule as int),
{
    let mut name = kind.to_owned();
    name.append("-");
    name.append(show(rule as u128).as_str());
    join_path(dir, name.as_str())
}

/// The declaration of a table that is read from a file.
pub open spec fn table_line(table: Seq<char>, i: int, path: Seq<char>) -> Seq<char> {
    "table <"@ + table + crate::text::decimal(i as nat) + "> persist file \""@ + path + "\""@
}

/// The tables of a rule in force.
pub open spec fn table_lines(r: Option<Seq<Seq<char>>>, i: int, dir: Seq<char>) -> Seq<Seq<char>> {
    match r {
        None => seq![],
        Some(_) => seq![
            table_line("mac_gate_h"@, i, table_path(dir, "pf-hosts"@, i)),
            table_line("mac_gate_n"@, i, table_path(dir, "pf-nets"@, i)),
        ],
    }
}

/// The interfaces of a rule as pf takes them: one alone, several in braces.
pub open spec fn on_interfaces(t: Seq<Seq<char>>) -> Seq<char> {
    if t.len() == 1 {
        t[0]
    } else {
        "{ "@ + crate::text::join(t, " "@) + " }"@
    }
}

pub open spec fn pass_line(on: Seq<char>, table: Seq<char>, i: int) -> Seq<char> {
    "pass out quick on "@ + on + " inet to <"@ + table + crate::text::decimal(i as nat)
        + "> no state"@
}

/// What lets the addresses of a rule out: through its tunnels, if any.
pub open spec fn pass_lines(r: Option<Seq<Seq<char>>>, i: int) -> Seq<Seq<char>> {
    match r {
        None => seq![],
        Some(t) => if t.len() == 0 {
            seq![]
        } else {
            seq![
                pass_line(on_interfaces(t), "mac_gate_h"@, i),
                pass_line(on_interfaces(t), "mac_gate_n"@, i),
            ]
        },
    }
}

pub open spec fn block_line(table: Seq<char>, i: int) -> Seq<char> {
    "block drop out quick inet to <"@ + table + crate::text::decimal(i as nat) + ">"@
}

/// What holds the addresses of a rule in force back everywhere else.
pub open spec fn block_lines(r: Option<Seq<Seq<char>>>, i: int, use_fakeip: bool) -> Seq<Seq<char>> {
    match r {
        None => seq![],
        Some(_) => if use_fakeip {
            seq![block_line("mac_gate_h"@, i)]
        } else {
            seq![block_line("mac_gate_h"@, i), block_line("mac_gate_n"@, i)]
        },
    }
}

pub open spec fn endpoint_line(ip: Ipv4Addr) -> Seq<char> {
    "pass out quick inet to "@ + ip.shown() + " no state"@
}

/// What the network needs past the tunnels: names outside the lists, the
/// upstream FakeIP probe and the country; and the probe for internet.
pub open spec fn network_lines(network: Option<(Seq<char>, Ipv4Addr)>) -> Seq<Seq<char>> {
    match network {
        None => seq![],
        Some((iface, dns)) => seq![
            "pass out quick on "@ + iface + " inet proto { udp tcp } to "@ + dns.shown()
                + " port 53 no state"@,
            "pass out quick on "@ + iface + " inet proto icmp to { "@ + crate::text::join(
                all_shown(crate::probe::target_list()),
                " "@,
            ) + " } icmp-type echoreq no state"@,
        ],
    }
}

/// What `f` gives for the rules before the `n`th, in order.
pub open spec fn by_rule(f: spec_fn(int) -> Seq<Seq<char>>, n: int) -> Seq<Seq<char>>
    decreases n,
{
    if n <= 0 {
        seq![]
    } else {
        by_rule(f, n - 1) + f(n - 1)
    }
}

/// Everything that comes before the blocks.
pub open spec fn openings(s: Form, dir: Seq<char>) -> Seq<Seq<char>> {
    by_rule(|i: int| table_lines(s.rules[i], i, dir), s.rules.len() as int)
        + s.endpoints.map_values(|ip: Ipv4Addr| endpoint_line(ip)) + network_lines(s.network)
        + by_rule(|i: int| pass_lines(s.rules[i], i), s.rules.len() as int)
}

pub open spec fn blocks(s: Form) -> Seq<Seq<char>> {
    by_rule(|i: int| block_lines(s.rules[i], i, s.use_fakeip), s.rules.len() as int)
}

/// The anchor ruleset. Blocks drop rather than reject: a connection held
/// up while the tunnel comes back goes through on a retransmit. The passes
/// only exempt from the blocks and keep no state: a state would carry the
/// replies past every rule, any other anchor's included. All passes come
/// before any block: a subnet of one rule may hold a narrower one of
/// another, routed into that other's tunnel.
pub open spec fn rule_text(s: Form, dir: Seq<char>) -> Seq<char> {
    crate::text::paged(openings(s, dir) + blocks(s))
}

fn push_line(lines: &mut Vec<String>, s: String)
    ensures
        crate::text::seen(final(lines)@) == crate::text::seen(old(lines)@).push(s@),
{
    proof {
        crate::text::lemma_seen_push(lines@, s);
    }
    lines.push(s);
}

fn push_tables(lines: &mut Vec<String>, shape: &Shape, dir: &str)
    ensures
        crate::text::seen(final(lines)@) == crate::text::seen(old(lines)@) + by_rule(
            |i: int| table_lines(shape@.rules[i], i, dir@),
            shape@.rules.len() as int,
        ),
{
    let ghost start = crate::text::seen(lines@);
    let ghost f = |i: int| table_lines(shape@.rules[i], i, dir@);
    let mut i: usize = 0;
    proof {
        assert(start + by_rule(f, 0) =~= start);
    }
    while i < shape.rules.len()
        invariant
            i <= shape.rules@.len(),
            f == (|i: int| table_lines(shape@.rules[i], i, dir@)),
            crate::text::seen(lines@) == start + by_rule(f, i as int),
        decreases shape.rules@.len() - i,
    {
        let ghost before = crate::text::seen(lines@);
        if shape.rules[i].is_some() {
            let mut h = "table <".to_owned();
            h.append("mac_gate_h");
            h.append(show(i as u128).as_str());
            h.append("> persist file \"");
            h.append(table_file(dir, "pf-hosts", i).as_str());
            h.append("\"");
            push_line(lines, h);
            let mut n = "table <".to_owned();
            n.append("mac_gate_n");
            n.append(show(i as u128).as_str());
            n.append("> persist file \"");
            n.append(table_file(dir, "pf-nets", i).as_str());
            n.append("\"");
            push_line(lines, n);
        }
        proof {
            assert(f(i as int) == table_lines(shape@.rules[i as int], i as int, dir@));
            assert(crate::text::seen(lines@) =~= before + f(i as int));
            assert(start + by_rule(f, i + 1) =~= (start + by_rule(f, i as int)) + f(i as int));
        }
        i += 1;
    }
}

fn push_passes(lines: &mut Vec<String>, shape: &Shape)
    ensures
        crate::text::seen(final(lines)@) == crate::text::seen(old(lines)@) + by_rule(
            |i: int| pass_lines(shape@.rules[i], i),
            shape@.rules.len() as int,
        ),
{
    let ghost start = crate::text::seen(lines@);
    let ghost f = |i: int| pass_lines(shape@.rules[i], i);
    let mut i: usize = 0;
    proof {
        assert(start + by_rule(f, 0) =~= start);
    }
    while i < shape.rules.len()
        invariant
            i <= shape.rules@.len(),
            f == (|i: int| pass_lines(shape@.rules[i], i)),
            crate::text::seen(lines@) == start + by_rule(f, i as int),
        decreases shape.rules@.len() - i,
    {
        let ghost before = crate::text::seen(lines@);
        if let Some(t) = &shape.rules[i] {
            if t.len() > 0 {
                let on = if t.len() == 1 {
                    proof {
                        assert(crate::text::seen(t@)[0] == t@[0]@);
                    }
                    t[0].clone()
                } else {
                    let mut s = "{ ".to_owned();
                    s.append(join_of(t, " ").as_str());
                    s.append(" }");
                    s
                };
                let mut h = "pass out quick on ".to_owned();
                h.append(on.as_str());
                h.append(" inet to <");
                h.append("mac_gate_h");
                h.append(show(i as u128).as_str());
                h.append("> no state");
                push_line(lines, h);
                let mut n = "pass out quick on ".to_owned();
                n.append(on.as_str());
                n.append(" inet to <");
                n.append("mac_gate_n");
                n.append(show(i as u128).as_str());
                n.append("> no state");
                push_line(lines, n);
            }
        }
        proof {
            assert(f(i as int) == pass_lines(shape@.rules[i as int], i as int));
            assert(crate::text::seen(lines@) =~= before + f(i as int));
            assert(start + by_rule(f, i + 1) =~= (start + by_rule(f, i as int)) + f(i as int));
        }
        i += 1;
    }
}

fn push_blocks(lines: &mut Vec<String>, shape: &Shape)
    ensures
        crate::text::seen(final(lines)@) == crate::text::seen(old(lines)@) + blocks(shape@),
{
    let ghost start = crate::text::seen(lines@);
    let ghost f = |i: int| block_lines(shape@.rules[i], i, shape@.use_fakeip);
    let mut i: usize = 0;
    proof {
        assert(start + by_rule(f, 0) =~= start);
    }
    while i < shape.rules.len()
        invariant
            i <= shape.rules@.len(),
            f == (|i: int| block_lines(shape@.rules[i], i, shape@.use_fakeip)),
            crate::text::seen(lines@) == start + by_rule(f, i as int),
        decreases shape.rules@.len() - i,
    {
        let ghost before = crate::text::seen(lines@);
        if shape.rules[i].is_some() {
            let mut h = "block drop out quick inet to <".to_owned();
            h.append("mac_gate_h");
            h.append(show(i as u128).as_str());
            h.append(">");
            push_line(lines, h);
            if !shape.use_fakeip {
                let mut n = "block drop out quick inet to <".to_owned();
                n.append("mac_gate_n");
                n.append(show(i as u128).as_str());
                n.append(">");
                push_line(lines, n);
            }
        }
        proof {
            assert(f(i as int) == block_lines(
                shape@.rules[i as int],
                i as int,
                shape@.use_fakeip,
            ));
            assert(crate::text::seen(lines@) =~= before + f(i as int));
            assert(start + by_rule(f, i + 1) =~= (start + by_rule(f, i as int)) + f(i as int));
        }
        i += 1;
    }
}

fn push_endpoints(lines: &mut Vec<String>, endpoints: &Vec<Ipv4Addr>)
    ensures
        crate::text::seen(final(lines)@) == crate::text::seen(old(lines)@) + endpoints@.map_values(
            |ip: Ipv4Addr| endpoint_line(ip),
        ),
{
    let ghost start = crate::text::seen(lines@);
    let ghost all = endpoints@.map_values(|ip: Ipv4Addr| endpoint_line(ip));
    let mut i: usize = 0;
    proof {
        assert(start + all.take(0) =~= start);
    }
    while i < endpoints.len()
        invariant
            i <= endpoints@.len(),
            all == endpoints@.map_values(|ip: Ipv4Addr| endpoint_line(ip)),
            crate::text::seen(lines@) == start + all.take(i as int),
        decreases endpoints@.len() - i,
    {
        let mut s = "pass out quick inet to ".to_owned();
        s.append(endpoints[i].to_string().as_str());
        s.append(" no state");
        push_line(lines, s);
        i += 1;
        proof {
            assert(start + all.take(i as int) =~= (start + all.take(i - 1)).push(all[i - 1]));
        }
    }
    proof {
        assert(all.take(i as int) =~= all);
    }
}

fn push_network(lines: &mut Vec<String>, network: &Option<(String, Ipv4Addr)>)
    ensures
        crate::text::seen(final(lines)@) == crate::text::seen(old(lines)@) + network_lines(
            match *network {
                Some((iface, dns)) => Some((iface@, dns)),
                None => None,
            },
        ),
{
    let ghost start = crate::text::seen(lines@);
    if let Some((iface, dns)) = network {
        let mut s = "pass out quick on ".to_owned();
        s.append(iface.as_str());
        s.append(" inet proto { udp tcp } to ");
        s.append(dns.to_string().as_str());
        s.append(" port 53 no state");
        push_line(lines, s);
        let mut s = "pass out quick on ".to_owned();
        s.append(iface.as_str());
        s.append(" inet proto icmp to { ");
        s.append(join_of(&show_all(&targets()), " ").as_str());
        s.append(" } icmp-type echoreq no state");
        push_line(lines, s);
        proof {
            assert(crate::text::seen(lines@) =~= start + network_lines(Some((iface@, *dns))));
        }
    } else {
        proof {
            assert(start + network_lines(None) =~= start);
        }
    }
}

/// The anchor ruleset for this shape, its tables read from files in `dir`.
pub fn ruleset(shape: &Shape, dir: &str) -> (r: String)
    ensures
        r@ == rule_text(shape@, dir@),
{
    let mut lines: Vec<String> = Vec::new();
    push_tables(&mut lines, shape, dir);
    push_endpoints(&mut lines, &shape.endpoints);
    push_network(&mut lines, &shape.network);
    push_passes(&mut lines, shape);
    push_blocks(&mut lines, shape);
    proof {
        assert(crate::text::seen(lines@) =~= openings(shape@, dir@) + blocks(shape@));
    }
    page_of(&lines)
}

// ---------------------------------------------------------------------
// The enable token.
// ---------------------------------------------------------------------

/// The token of a line: "Token : 1234".
pub open spec fn token_line(line: Seq<char>) -> Option<Seq<char>> {
    match crate::text::around(line, ':') {
        Some((key, value)) => if crate::text::trim(key) == "Token"@ && crate::text::digits(
            crate::text::trim(value),
        ) {
            Some(crate::text::trim(value))
        } else {
            None
        },
        None => None,
    }
}

/// The first token there is.
pub open spec fn token_lines(lines: Seq<Seq<char>>) -> Option<Seq<char>>
    decreases lines.len(),
{
    if lines.len() == 0 {
        None
    } else if token_line(lines[0]) is Some {
        token_line(lines[0])
    } else {
        token_lines(lines.skip(1))
    }
}

pub open spec fn token(text: Seq<char>) -> Option<Seq<char>> {
    token_lines(crate::text::lines(text))
}

/// Every character is a digit, and there is one.
pub fn all_digits(s: &str) -> (r: bool)
    ensures
        r == crate::text::digits(s@),
{
    let v = chars_of(s);
    let mut i: usize = 0;
    while i < v.len()
        invariant
            i <= v@.len(),
            v@ == s@,
            forall|j: int| 0 <= j < i ==> crate::text::digit(#[trigger] v@[j]),
        decreases v@.len() - i,
    {
        if !('0' <= v[i] && v[i] <= '9') {
            proof {
                assert(!crate::text::digit(s@[i as int]));
            }
            return false;
        }
        i += 1;
    }
    v.len() > 0
}

/// The token in what `pfctl -E` prints: "Token : 1234".
pub fn parse_token(text: &str) -> (r: Option<String>)
    ensures
        match r {
            Some(t) => token(text@) == Some(t@),
            None => token(text@) is None,
        },
{
    let lines = lines_of(text);
    let ghost all = crate::text::seen(lines@);
    let mut i: usize = 0;
    proof {
        assert(all.skip(0) =~= all);
    }
    while i < lines.len()
        invariant
            i <= lines@.len(),
            all == crate::text::seen(lines@),
            token_lines(all.skip(i as int)) == token(text@),
        decreases lines@.len() - i,
    {
        proof {
            assert(all.skip(i as int)[0] == lines@[i as int]@);
            assert(all.skip(i as int).skip(1) =~= all.skip(i + 1));
        }
        if let Some((key, value)) = around_of(lines[i].as_str(), ':') {
            let value = trim_of(value.as_str());
            if same(trim_of(key.as_str()).as_str(), "Token") && all_digits(value.as_str()) {
                return Some(value);
            }
        }
        i += 1;
    }
    None
}

/// The token to keep: in what `pfctl -E` printed, or in its error output.
pub fn new_token(out: &str, err: &str) -> (r: Option<String>)
    ensures
        match r {
            Some(t) => (if token(out@) is Some {
                token(out@)
            } else {
                token(err@)
            }) == Some(t@),
            None => token(out@) is None && token(err@) is None,
        },
{
    match parse_token(out) {
        Some(t) => Some(t),
        None => parse_token(err),
    }
}

/// The token a dead daemon left behind, to be released: what the file held,
/// unless that is nothing or the one just taken.
pub fn stale_token(old: Option<String>, token: &str) -> (r: Option<String>)
    ensures
        match old {
            Some(o) => {
                let t = crate::text::trim(o@);
                if t.len() == 0 || t == token@ {
                    r is None
                } else {
                    r matches Some(x) && x@ == t
                }
            },
            None => r is None,
        },
{
    match old {
        Some(o) => {
            let t = trim_of(o.as_str());
            if t.as_str().is_empty() || same(t.as_str(), token) {
                None
            } else {
                Some(t)
            }
        },
        None => None,
    }
}

// ---------------------------------------------------------------------
// Tables.
// ---------------------------------------------------------------------

/// The words that are addresses.
pub open spec fn word_addresses(words: Seq<Seq<char>>) -> Seq<Ipv4Addr>
    decreases words.len(),
{
    if words.len() == 0 {
        seq![]
    } else {
        match crate::addr::address(words.last()) {
            Some(ip) => word_addresses(words.drop_last()).push(ip),
            None => word_addresses(words.drop_last()),
        }
    }
}

/// Addresses in what `pfctl -T show` prints, one indented per line.
pub fn parse_table(text: &str) -> (r: Vec<Ipv4Addr>)
    ensures
        r@ == word_addresses(crate::text::words(text@)),
{
    let words = words_of(text);
    let ghost all = crate::text::seen(words@);
    let mut r: Vec<Ipv4Addr> = Vec::new();
    let mut i: usize = 0;
    proof {
        assert(all.take(0) =~= seq![]);
    }
    while i < words.len()
        invariant
            i <= words@.len(),
            all == crate::text::seen(words@),
            r@ == word_addresses(all.take(i as int)),
        decreases words@.len() - i,
    {
        proof {
            assert(all.take(i + 1).drop_last() =~= all.take(i as int));
            assert(all.take(i + 1).last() == words@[i as int]@);
        }
        if let Some(ip) = Ipv4Addr::parse(words[i].as_str()) {
            r.push(ip);
        }
        i += 1;
    }
    proof {
        assert(all.take(i as int) =~= all);
    }
    r
}

/// The tables of the rules: hosts and subnets, by rule.
#[derive(Debug)]
pub struct Tables {
    pub hosts: Vec<Vec<Ipv4Addr>>,
    pub nets: Vec<Vec<Subnet>>,
}

/// The text of a table of hosts, one address a line.
pub fn host_lines(ips: &Vec<Ipv4Addr>) -> (r: String)
    ensures
        r@ == crate::text::paged(all_shown(ips@)),
{
    page_of(&show_all(ips))
}

/// The text of a table of subnets, one a line.
pub fn net_lines(nets: &Vec<Subnet>) -> (r: String)
    ensures
        r@ == crate::text::paged(nets@.map_values(|s: Subnet| s.shown())),
{
    let mut v: Vec<String> = Vec::new();
    let mut i: usize = 0;
    while i < nets.len()
        invariant
            i <= nets@.len(),
            v@.len() == i,
            forall|j: int| 0 <= j < i ==> (#[trigger] v@[j])@ == nets@[j].shown(),
        decreases nets@.len() - i,
    {
        v.push(nets[i].to_string());
        i += 1;
    }
    proof {
        assert(crate::text::seen(v@) =~= nets@.map_values(|s: Subnet| s.shown()));
    }
    page_of(&v)
}

/// A file to be written: its path and its text.
#[derive(Debug)]
pub struct File {
    pub path: String,
    pub text: String,
}

pub open spec fn hosts_text(t: Tables, i: int) -> Seq<char> {
    if i < t.hosts@.len() {
        crate::text::paged(all_shown(t.hosts@[i]@))
    } else {
        seq![]
    }
}

pub open spec fn nets_text(t: Tables, i: int) -> Seq<char> {
    if i < t.nets@.len() {
        crate::text::paged(t.nets@[i]@.map_values(|s: Subnet| s.shown()))
    } else {
        seq![]
    }
}

/// The files of the tables, the hosts and the subnets of each rule in
/// order: what a load writes before it hands pf the rules.
pub fn table_files(rules: usize, t: &Tables, dir: &str) -> (r: Vec<(File, File)>)
    ensures
        r@.len() == rules,
        forall|i: int|
            0 <= i < rules ==> {
                &&& (#[trigger] r@[i]).0.path@ == table_path(dir@, "pf-hosts"@, i)
                &&& r@[i].0.text@ == hosts_text(*t, i)
                &&& r@[i].1.path@ == table_path(dir@, "pf-nets"@, i)
                &&& r@[i].1.text@ == nets_text(*t, i)
            },
{
    let mut r: Vec<(File, File)> = Vec::new();
    let mut i: usize = 0;
    while i < rules
        invariant
            i <= rules,
            r@.len() == i,
            forall|j: int|
                0 <= j < i ==> {
                    &&& (#[trigger] r@[j]).0.path@ == table_path(dir@, "pf-hosts"@, j)
                    &&& r@[j].0.text@ == hosts_text(*t, j)
                    &&& r@[j].1.path@ == table_path(dir@, "pf-nets"@, j)
                    &&& r@[j].1.text@ == nets_text(*t, j)
                },
        decreases rules - i,
    {
        let hosts = if i < t.hosts.len() {
            host_lines(&t.hosts[i])
        } else {
            String::new()
        };
        let nets = if i < t.nets.len() {
            net_lines(&t.nets[i])
        } else {
            String::new()
        };
        r.push(
            (
                File { path: table_file(dir, "pf-hosts", i), text: hosts },
                File { path: table_file(dir, "pf-nets", i), text: nets },
            ),
        );
        i += 1;
    }
    r
}

/// The arguments that change the host table of a rule; none when there is
/// nothing to change.
pub open spec fn change_args(op: Seq<char>, rule: int, ips: Seq<Ipv4Addr>) -> Seq<Seq<char>> {
    seq![
        "-q"@,
        "-a"@,
        ANCHOR@,
        "-t"@,
        "mac_gate_h"@ + crate::text::decimal(rule as nat),
        "-T"@,
        op,
    ] + all_shown(ips)
}

fn op_args(op: &str, rule: usize) -> (r: Vec<String>)
    ensures
        crate::text::seen(r@) == change_args(op@, rule as int, seq![]),
{
    let mut table = "mac_gate_h".to_owned();
    table.append(show(rule as u128).as_str());
    let mut v: Vec<String> = Vec::new();
    push_line(&mut v, "-q".to_owned());
    push_line(&mut v, "-a".to_owned());
    push_line(&mut v, ANCHOR.to_owned());
    push_line(&mut v, "-t".to_owned());
    push_line(&mut v, table);
    push_line(&mut v, "-T".to_owned());
    push_line(&mut v, op.to_owned());
    proof {
        assert(crate::text::seen(v@) =~= change_args(op@, rule as int, seq![]));
    }
    v
}

/// The arguments that print the host table of a rule.
pub fn show_args(rule: usize) -> (r: Vec<String>)
    ensures
        crate::text::seen(r@) == change_args("show"@, rule as int, seq![]),
{
    op_args("show", rule)
}

pub fn table_args(op: &str, rule: usize, ips: &Vec<Ipv4Addr>) -> (r: Option<Vec<String>>)
    ensures
        match r {
            Some(v) => ips@.len() > 0 && crate::text::seen(v@) == change_args(
                op@,
                rule as int,
                ips@,
            ),
            None => ips@.len() == 0,
        },
{
    if ips.len() == 0 {
        return None;
    }
    let mut v = op_args(op, rule);
    let ghost head = crate::text::seen(v@);
    let shown = show_all(ips);
    let ghost all = all_shown(ips@);
    let mut i: usize = 0;
    proof {
        assert(head + all.take(0) =~= head);
    }
    while i < shown.len()
        invariant
            i <= shown@.len(),
            all == crate::text::seen(shown@),
            crate::text::seen(v@) == head + all.take(i as int),
        decreases shown@.len() - i,
    {
        push_line(&mut v, shown[i].clone());
        i += 1;
        proof {
            assert(head + all.take(i as int) =~= (head + all.take(i - 1)).push(all[i - 1]));
        }
    }
    proof {
        assert(all.take(i as int) =~= all);
        assert(head + all =~= change_args(op@, rule as int, ips@));
    }
    Some(v)
}

/// A file that a release takes away: the table files of every rule, and
/// those of versions before rules.
pub fn is_table_file(name: &str) -> (r: bool)
    ensures
        r == (crate::text::starts(name@, "pf-hosts"@) || crate::text::starts(name@, "pf-nets"@)),
{
    starts_of(name, "pf-hosts") || starts_of(name, "pf-nets")
}

// ---------------------------------------------------------------------
// Laws.
// ---------------------------------------------------------------------

/// The line begins with this word.
pub open spec fn begins(line: Seq<char>, word: Seq<char>) -> bool {
    crate::text::starts(line, word)
}

proof fn lemma_begins_add(a: Seq<char>, b: Seq<char>, word: Seq<char>)
    requires
        begins(a, word),
    ensures
        begins(a + b, word),
{
    assert((a + b).take(word.len() as int) =~= a.take(word.len() as int));
}

proof fn lemma_by_rule_all(f: spec_fn(int) -> Seq<Seq<char>>, n: int, word: Seq<char>)
    requires
        forall|i: int, j: int|
            0 <= i < n && 0 <= j < f(i).len() ==> begins(#[trigger] f(i)[j], word),
    ensures
        forall|j: int| 0 <= j < by_rule(f, n).len() ==> begins(#[trigger] by_rule(f, n)[j], word),
    decreases n,
{
    if n > 0 {
        lemma_by_rule_all(f, n - 1, word);
        let a = by_rule(f, n - 1);
        let b = f(n - 1);
        assert forall|j: int| 0 <= j < by_rule(f, n).len() implies begins(
            #[trigger] by_rule(f, n)[j],
            word,
        ) by {
            if j < a.len() {
                assert(by_rule(f, n)[j] == a[j]);
            } else {
                assert(by_rule(f, n)[j] == b[j - a.len()]);
            }
        }
    }
}

proof fn lemma_block_line(table: Seq<char>, i: int)
    ensures
        begins(block_line(table, i), "block"@),
{
    reveal_strlit("block");
    reveal_strlit("block drop out quick inet to <");
    let h = "block drop out quick inet to <"@;
    assert(h.take(5) =~= "block"@);
    lemma_begins_add(h, table, "block"@);
    lemma_begins_add(h + table, crate::text::decimal(i as nat), "block"@);
    lemma_begins_add(h + table + crate::text::decimal(i as nat), ">"@, "block"@);
}

/// Every line of the second part of the ruleset is a block.
pub proof fn lemma_blocks_block(s: Form)
    ensures
        forall|j: int| 0 <= j < blocks(s).len() ==> begins(#[trigger] blocks(s)[j], "block"@),
{
    let f = |i: int| block_lines(s.rules[i], i, s.use_fakeip);
    assert forall|i: int, j: int| 0 <= i < s.rules.len() && 0 <= j < f(i).len() implies begins(
        #[trigger] f(i)[j],
        "block"@,
    ) by {
        lemma_block_line("mac_gate_h"@, i);
        lemma_block_line("mac_gate_n"@, i);
    }
    lemma_by_rule_all(f, s.rules.len() as int, "block"@);
}

proof fn lemma_not_block(line: Seq<char>)
    requires
        begins(line, "pass"@) || begins(line, "table"@),
    ensures
        !begins(line, "block"@),
{
    reveal_strlit("block");
    reveal_strlit("pass");
    reveal_strlit("table");
    if begins(line, "block"@) {
        assert(line.take(5)[0] == line[0]);
        if begins(line, "pass"@) {
            assert(line.take(4)[0] == line[0]);
        }
    }
}

proof fn lemma_pass_head(rest: Seq<char>)
    ensures
        begins("pass out quick on "@ + rest, "pass"@),
        begins("pass out quick inet to "@ + rest, "pass"@),
{
    reveal_strlit("pass");
    reveal_strlit("pass out quick on ");
    reveal_strlit("pass out quick inet to ");
    assert("pass out quick on "@.take(4) =~= "pass"@);
    assert("pass out quick inet to "@.take(4) =~= "pass"@);
    lemma_begins_add("pass out quick on "@, rest, "pass"@);
    lemma_begins_add("pass out quick inet to "@, rest, "pass"@);
}

proof fn lemma_table_line(table: Seq<char>, i: int, path: Seq<char>)
    ensures
        begins(table_line(table, i, path), "table"@),
{
    reveal_strlit("table");
    reveal_strlit("table <");
    let h = "table <"@;
    assert(h.take(5) =~= "table"@);
    let d = crate::text::decimal(i as nat);
    lemma_begins_add(h, table, "table"@);
    lemma_begins_add(h + table, d, "table"@);
    lemma_begins_add(h + table + d, "> persist file \""@, "table"@);
    lemma_begins_add(h + table + d + "> persist file \""@, path, "table"@);
    lemma_begins_add(h + table + d + "> persist file \""@ + path, "\""@, "table"@);
}

proof fn lemma_pass_line(on: Seq<char>, table: Seq<char>, i: int)
    ensures
        begins(pass_line(on, table, i), "pass"@),
{
    let d = crate::text::decimal(i as nat);
    lemma_pass_head(on);
    let h = "pass out quick on "@ + on;
    lemma_begins_add(h, " inet to <"@, "pass"@);
    lemma_begins_add(h + " inet to <"@, table, "pass"@);
    lemma_begins_add(h + " inet to <"@ + table, d, "pass"@);
    lemma_begins_add(h + " inet to <"@ + table + d, "> no state"@, "pass"@);
}

proof fn lemma_network_lines(network: Option<(Seq<char>, Ipv4Addr)>)
    ensures
        forall|j: int|
            0 <= j < network_lines(network).len() ==> begins(
                #[trigger] network_lines(network)[j],
                "pass"@,
            ),
{
    if let Some((iface, dns)) = network {
        lemma_pass_head(iface);
        let h = "pass out quick on "@ + iface;
        let t = crate::text::join(all_shown(crate::probe::target_list()), " "@);
        let a = " inet proto { udp tcp } to "@;
        let b = " inet proto icmp to { "@;
        lemma_begins_add(h, a, "pass"@);
        lemma_begins_add(h + a, dns.shown(), "pass"@);
        lemma_begins_add(h + a + dns.shown(), " port 53 no state"@, "pass"@);
        lemma_begins_add(h, b, "pass"@);
        lemma_begins_add(h + b, t, "pass"@);
        lemma_begins_add(h + b + t, " } icmp-type echoreq no state"@, "pass"@);
    }
}

/// No block comes before a pass: the ruleset is its openings, none of which
/// is a block, and then blocks only.
pub proof fn lemma_passes_come_first(s: Form, dir: Seq<char>)
    ensures
        forall|j: int|
            0 <= j < openings(s, dir).len() ==> !begins(#[trigger] openings(s, dir)[j], "block"@),
        forall|j: int| 0 <= j < blocks(s).len() ==> begins(#[trigger] blocks(s)[j], "block"@),
{
    let n = s.rules.len() as int;
    let f = |i: int| table_lines(s.rules[i], i, dir);
    let g = |i: int| pass_lines(s.rules[i], i);
    let e = s.endpoints.map_values(|ip: Ipv4Addr| endpoint_line(ip));
    assert forall|i: int, j: int| 0 <= i < n && 0 <= j < f(i).len() implies begins(
        #[trigger] f(i)[j],
        "table"@,
    ) by {
        lemma_table_line("mac_gate_h"@, i, table_path(dir, "pf-hosts"@, i));
        lemma_table_line("mac_gate_n"@, i, table_path(dir, "pf-nets"@, i));
    }
    lemma_by_rule_all(f, n, "table"@);
    assert forall|i: int, j: int| 0 <= i < n && 0 <= j < g(i).len() implies begins(
        #[trigger] g(i)[j],
        "pass"@,
    ) by {
        if let Some(t) = s.rules[i] {
            lemma_pass_line(on_interfaces(t), "mac_gate_h"@, i);
            lemma_pass_line(on_interfaces(t), "mac_gate_n"@, i);
        }
    }
    lemma_by_rule_all(g, n, "pass"@);
    lemma_network_lines(s.network);
    lemma_blocks_block(s);
    let a = by_rule(f, n);
    let w = network_lines(s.network);
    let p = by_rule(g, n);
    let o = openings(s, dir);
    assert(o =~= a + e + w + p);
    assert forall|j: int| 0 <= j < o.len() implies !begins(#[trigger] o[j], "block"@) by {
        if j < a.len() {
            assert(o[j] == a[j]);
        } else if j < a.len() + e.len() {
            let k = j - a.len();
            assert(o[j] == e[k]);
            lemma_pass_head(s.endpoints[k].shown());
            lemma_begins_add(
                "pass out quick inet to "@ + s.endpoints[k].shown(),
                " no state"@,
                "pass"@,
            );
        } else if j < a.len() + e.len() + w.len() {
            assert(o[j] == w[j - a.len() - e.len()]);
        } else {
            assert(o[j] == p[j - a.len() - e.len() - w.len()]);
        }
        lemma_not_block(o[j]);
    }
}

proof fn lemma_by_rule_has(f: spec_fn(int) -> Seq<Seq<char>>, n: int, i: int, j: int)
    requires
        0 <= i < n,
        0 <= j < f(i).len(),
    ensures
        by_rule(f, n).contains(f(i)[j]),
    decreases n,
{
    let a = by_rule(f, n - 1);
    let b = f(n - 1);
    if i == n - 1 {
        assert(by_rule(f, n)[a.len() + j] == b[j]);
    } else {
        lemma_by_rule_has(f, n - 1, i, j);
        let k = choose|k: int| 0 <= k < a.len() && a[k] == f(i)[j];
        assert(by_rule(f, n)[k] == a[k]);
    }
}

/// The hosts of every rule in force are held back, whatever tunnels it has;
/// its subnets too, unless they are left to the router.
pub proof fn lemma_every_rule_in_force_is_held(s: Form, i: int)
    requires
        0 <= i < s.rules.len(),
        s.rules[i] is Some,
    ensures
        blocks(s).contains(block_line("mac_gate_h"@, i)),
        !s.use_fakeip ==> blocks(s).contains(block_line("mac_gate_n"@, i)),
{
    let f = |i: int| block_lines(s.rules[i], i, s.use_fakeip);
    assert(f(i)[0] == block_line("mac_gate_h"@, i));
    lemma_by_rule_has(f, s.rules.len() as int, i, 0);
    if !s.use_fakeip {
        assert(f(i)[1] == block_line("mac_gate_n"@, i));
        lemma_by_rule_has(f, s.rules.len() as int, i, 1);
    }
}

proof fn lemma_by_rule_from(f: spec_fn(int) -> Seq<Seq<char>>, n: int, x: Seq<char>)
    requires
        by_rule(f, n).contains(x),
    ensures
        exists|i: int| 0 <= i < n && (#[trigger] f(i)).contains(x),
    decreases n,
{
    let j = choose|j: int| 0 <= j < by_rule(f, n).len() && by_rule(f, n)[j] == x;
    if n > 0 {
        let a = by_rule(f, n - 1);
        if j < a.len() {
            assert(a[j] == x);
            lemma_by_rule_from(f, n - 1, x);
            let i = choose|i: int| 0 <= i < n - 1 && (#[trigger] f(i)).contains(x);
            assert(f(i).contains(x));
        } else {
            assert(f(n - 1)[j - a.len()] == x);
            assert(f(n - 1).contains(x));
        }
    }
}

/// The interfaces of a rule as pf takes them: all of them, one alone as it
/// is and several in braces.
pub open spec fn exits_text(t: Seq<Seq<char>>) -> Seq<char> {
    if t.len() == 1 {
        t[0]
    } else {
        "{ "@ + crate::text::join(t, " "@) + " }"@
    }
}

proof fn lemma_openings_have(s: Form, dir: Seq<char>, x: Seq<char>)
    ensures
        openings(s, dir).contains(x) <==> by_rule(
            |i: int| table_lines(s.rules[i], i, dir),
            s.rules.len() as int,
        ).contains(x) || s.endpoints.map_values(|ip: Ipv4Addr| endpoint_line(ip)).contains(x)
            || network_lines(s.network).contains(x) || by_rule(
            |i: int| pass_lines(s.rules[i], i),
            s.rules.len() as int,
        ).contains(x),
{
    let a = by_rule(|i: int| table_lines(s.rules[i], i, dir), s.rules.len() as int);
    let e = s.endpoints.map_values(|ip: Ipv4Addr| endpoint_line(ip));
    let w = network_lines(s.network);
    let p = by_rule(|i: int| pass_lines(s.rules[i], i), s.rules.len() as int);
    let o = openings(s, dir);
    assert(o =~= a + e + w + p);
    if o.contains(x) {
        let j = choose|j: int| 0 <= j < o.len() && o[j] == x;
        if j < a.len() {
            assert(a[j] == x);
        } else if j < a.len() + e.len() {
            assert(e[j - a.len()] == x);
        } else if j < a.len() + e.len() + w.len() {
            assert(w[j - a.len() - e.len()] == x);
        } else {
            assert(p[j - a.len() - e.len() - w.len()] == x);
        }
    }
    if a.contains(x) {
        let j = choose|j: int| 0 <= j < a.len() && a[j] == x;
        assert(o[j] == x);
    }
    if e.contains(x) {
        let j = choose|j: int| 0 <= j < e.len() && e[j] == x;
        assert(o[a.len() + j] == x);
    }
    if w.contains(x) {
        let j = choose|j: int| 0 <= j < w.len() && w[j] == x;
        assert(o[a.len() + e.len() + j] == x);
    }
    if p.contains(x) {
        let j = choose|j: int| 0 <= j < p.len() && p[j] == x;
        assert(o[a.len() + e.len() + w.len() + j] == x);
    }
}

/// A rule in force with tunnels lets the addresses of both its tables out,
/// on the interfaces of all of them; both tables are declared, each read
/// from its own file; and the hosts are held back everywhere else, the
/// subnets too unless they are left to the router.
pub proof fn lemma_a_rule_in_force(s: Form, dir: Seq<char>, i: int, t: Seq<Seq<char>>)
    requires
        0 <= i < s.rules.len(),
        s.rules[i] == Some(t),
    ensures
        ({
            let n = crate::text::decimal(i as nat);
            &&& t.len() > 0 ==> openings(s, dir).contains(
                "pass out quick on "@ + (if t.len() == 1 {
                    t[0]
                } else {
                    "{ "@ + crate::text::join(t, " "@) + " }"@
                }) + " inet to <"@ + "mac_gate_h"@ + n + "> no state"@,
            )
            &&& t.len() > 0 ==> openings(s, dir).contains(
                "pass out quick on "@ + (if t.len() == 1 {
                    t[0]
                } else {
                    "{ "@ + crate::text::join(t, " "@) + " }"@
                }) + " inet to <"@ + "mac_gate_n"@ + n + "> no state"@,
            )
            &&& openings(s, dir).contains(
                "table <"@ + "mac_gate_h"@ + n + "> persist file \""@ + below(
                    dir,
                    "pf-hosts"@ + "-"@ + n,
                ) + "\""@,
            )
            &&& openings(s, dir).contains(
                "table <"@ + "mac_gate_n"@ + n + "> persist file \""@ + below(
                    dir,
                    "pf-nets"@ + "-"@ + n,
                ) + "\""@,
            )
            &&& blocks(s).contains("block drop out quick inet to <"@ + "mac_gate_h"@ + n + ">"@)
            &&& !s.use_fakeip ==> blocks(s).contains(
                "block drop out quick inet to <"@ + "mac_gate_n"@ + n + ">"@,
            )
        }),
{
    let n = s.rules.len() as int;
    let f = |i: int| table_lines(s.rules[i], i, dir);
    let g = |i: int| pass_lines(s.rules[i], i);
    lemma_by_rule_has(f, n, i, 0);
    lemma_by_rule_has(f, n, i, 1);
    lemma_openings_have(s, dir, f(i)[0]);
    lemma_openings_have(s, dir, f(i)[1]);
    if t.len() > 0 {
        lemma_by_rule_has(g, n, i, 0);
        lemma_by_rule_has(g, n, i, 1);
        lemma_openings_have(s, dir, g(i)[0]);
        lemma_openings_have(s, dir, g(i)[1]);
    }
    lemma_every_rule_in_force_is_held(s, i);
}

/// What is let out besides: every tunnel server, whatever list covers it,
/// and with a network its DNS on port 53 and the probe, on the physical
/// interface.
pub proof fn lemma_what_is_let_out(s: Form, dir: Seq<char>, k: int)
    ensures
        0 <= k < s.endpoints.len() ==> openings(s, dir).contains(
            "pass out quick inet to "@ + s.endpoints[k].shown() + " no state"@,
        ),
        s.network matches Some((iface, dns)) ==> {
            &&& openings(s, dir).contains(
                "pass out quick on "@ + iface + " inet proto { udp tcp } to "@ + dns.shown()
                    + " port 53 no state"@,
            )
            &&& openings(s, dir).contains(
                "pass out quick on "@ + iface + " inet proto icmp to { "@ + crate::text::join(
                    crate::probe::target_list().map_values(|ip: Ipv4Addr| ip.shown()),
                    " "@,
                ) + " } icmp-type echoreq no state"@,
            )
        },
{
    if 0 <= k < s.endpoints.len() {
        let e = s.endpoints.map_values(|ip: Ipv4Addr| endpoint_line(ip));
        assert(e[k] == endpoint_line(s.endpoints[k]));
        lemma_openings_have(s, dir, e[k]);
    }
    if let Some((iface, dns)) = s.network {
        let w = network_lines(s.network);
        assert(w[0] == w[0] && w[1] == w[1]);
        lemma_openings_have(s, dir, w[0]);
        lemma_openings_have(s, dir, w[1]);
    }
}

/// Nothing else is let out: an opening is the declaration of a table or the
/// pass of a rule in force, through its own tunnels, or it is for a tunnel
/// server or the network.
pub proof fn lemma_nothing_else_is_let_out(s: Form, dir: Seq<char>, x: Seq<char>)
    requires
        openings(s, dir).contains(x),
    ensures
        (exists|k: int|
            0 <= k < s.endpoints.len() && x == "pass out quick inet to "@ + (
            #[trigger] s.endpoints[k]).shown() + " no state"@) || (s.network is Some
            && network_lines(s.network).contains(x)) || exists|i: int|
            0 <= i < s.rules.len() && (#[trigger] s.rules[i]) is Some && ({
                let n = crate::text::decimal(i as nat);
                let t = s.rules[i]->0;
                ||| x == "table <"@ + "mac_gate_h"@ + n + "> persist file \""@ + below(
                    dir,
                    "pf-hosts"@ + "-"@ + n,
                ) + "\""@
                ||| x == "table <"@ + "mac_gate_n"@ + n + "> persist file \""@ + below(
                    dir,
                    "pf-nets"@ + "-"@ + n,
                ) + "\""@
                ||| t.len() > 0 && x == "pass out quick on "@ + exits_text(t) + " inet to <"@
                    + "mac_gate_h"@ + n + "> no state"@
                ||| t.len() > 0 && x == "pass out quick on "@ + exits_text(t) + " inet to <"@
                    + "mac_gate_n"@ + n + "> no state"@
            }),
{
    let n = s.rules.len() as int;
    let f = |i: int| table_lines(s.rules[i], i, dir);
    let g = |i: int| pass_lines(s.rules[i], i);
    lemma_openings_have(s, dir, x);
    let e = s.endpoints.map_values(|ip: Ipv4Addr| endpoint_line(ip));
    if e.contains(x) {
        let k = choose|k: int| 0 <= k < e.len() && e[k] == x;
        assert(x == "pass out quick inet to "@ + s.endpoints[k].shown() + " no state"@);
    } else if network_lines(s.network).contains(x) {
    } else if by_rule(f, n).contains(x) {
        lemma_by_rule_from(f, n, x);
        let i = choose|i: int| 0 <= i < n && (#[trigger] f(i)).contains(x);
        assert(s.rules[i] is Some);
    } else {
        lemma_by_rule_from(g, n, x);
        let i = choose|i: int| 0 <= i < n && (#[trigger] g(i)).contains(x);
        assert(s.rules[i] is Some);
    }
}

/// Only rules in force hold anything back, and the subnets only while they
/// are not left to the router.
pub proof fn lemma_nothing_else_is_held(s: Form, x: Seq<char>)
    requires
        blocks(s).contains(x),
    ensures
        exists|i: int|
            0 <= i < s.rules.len() && (#[trigger] s.rules[i]) is Some && ({
                let n = crate::text::decimal(i as nat);
                ||| x == "block drop out quick inet to <"@ + "mac_gate_h"@ + n + ">"@
                ||| !s.use_fakeip && x == "block drop out quick inet to <"@ + "mac_gate_n"@ + n + ">"@
            }),
{
    let f = |i: int| block_lines(s.rules[i], i, s.use_fakeip);
    lemma_by_rule_from(f, s.rules.len() as int, x);
    let i = choose|i: int| 0 <= i < s.rules.len() && (#[trigger] f(i)).contains(x);
    assert(s.rules[i] is Some);
}

/// The ruleset is its openings and then its blocks, a line each.
pub proof fn lemma_the_ruleset(s: Form, dir: Seq<char>)
    ensures
        rule_text(s, dir) == crate::text::paged(openings(s, dir) + blocks(s)),
{
}

/// The host table of a rule is changed by the addresses given, all of them
/// in order, and by nothing else.
pub proof fn lemma_a_table_is_changed(op: Seq<char>, rule: int, ips: Seq<Ipv4Addr>, k: int)
    requires
        0 <= k < ips.len(),
    ensures
        change_args(op, rule, ips).len() == 7 + ips.len(),
        change_args(op, rule, ips).take(7) == seq![
            "-q"@,
            "-a"@,
            "com.apple/mac-gate"@,
            "-t"@,
            "mac_gate_h"@ + crate::text::decimal(rule as nat),
            "-T"@,
            op,
        ],
        change_args(op, rule, ips)[7 + k] == ips[k].shown(),
{
    assert(change_args(op, rule, ips).take(7) =~= seq![
        "-q"@,
        "-a"@,
        "com.apple/mac-gate"@,
        "-t"@,
        "mac_gate_h"@ + crate::text::decimal(rule as nat),
        "-T"@,
        op,
    ]);
}

/// What is read from a table are the words in it that are addresses, in
/// order, and no other.
pub proof fn lemma_a_table_is_read(words: Seq<Seq<char>>)
    ensures
        word_addresses(words) == words.filter(
            |w: Seq<char>| crate::addr::address(w) is Some,
        ).map_values(|w: Seq<char>| crate::addr::address(w)->0),
    decreases words.len(),
{
    reveal(Seq::filter);
    if words.len() > 0 {
        lemma_a_table_is_read(words.drop_last());
    }
    assert(word_addresses(words) =~= words.filter(
        |w: Seq<char>| crate::addr::address(w) is Some,
    ).map_values(|w: Seq<char>| crate::addr::address(w)->0));
}

/// The token is that of the first line that has one: "Token", a colon, and
/// a number.
pub proof fn lemma_the_token(lines: Seq<Seq<char>>)
    ensures
        match token_lines(lines) {
            Some(t) => exists|i: int|
                0 <= i < lines.len() && token_line(#[trigger] lines[i]) == Some(t) && forall|j: int|
                    0 <= j < i ==> token_line(#[trigger] lines[j]) is None,
            None => forall|j: int| 0 <= j < lines.len() ==> token_line(#[trigger] lines[j]) is None,
        },
    decreases lines.len(),
{
    if lines.len() > 0 {
        if token_line(lines[0]) is Some {
            assert(token_line(lines[0]) == token_lines(lines));
        } else {
            let rest = lines.skip(1);
            lemma_the_token(rest);
            match token_lines(rest) {
                Some(t) => {
                    let i = choose|i: int|
                        0 <= i < rest.len() && token_line(#[trigger] rest[i]) == Some(t)
                            && forall|j: int| 0 <= j < i ==> token_line(#[trigger] rest[j]) is None;
                    assert(lines[i + 1] == rest[i]);
                    assert forall|j: int| 0 <= j < i + 1 implies token_line(#[trigger] lines[j])
                        is None by {
                        if j > 0 {
                            assert(lines[j] == rest[j - 1]);
                        }
                    }
                },
                None => {
                    assert forall|j: int| 0 <= j < lines.len() implies token_line(
                        #[trigger] lines[j],
                    ) is None by {
                        if j > 0 {
                            assert(lines[j] == rest[j - 1]);
                        }
                    }
                },
            }
        }
    }
}

/// A file of a directory is named by the directory, a slash unless it ends
/// in one, and its name.
pub proof fn lemma_a_file_below(dir: Seq<char>, name: Seq<char>)
    ensures
        dir.len() > 0 && dir.last() != '/' ==> below(dir, name) == dir + seq!['/'] + name,
        dir.len() == 0 || dir.last() == '/' ==> below(dir, name) == dir + name,
{
    reveal_strlit("/");
    assert("/"@ =~= seq!['/']);
    if dir.len() > 0 {
        let e = dir.skip(dir.len() - 1);
        assert(e[0] == dir.last());
        if dir.last() == '/' {
            assert(e =~= "/"@);
        }
    }
}

/// The network needs two lines and no more: its DNS, and the probe past the
/// tunnels.
pub proof fn lemma_what_the_network_needs(iface: Seq<char>, dns: Ipv4Addr)
    ensures
        network_lines(None).len() == 0,
        network_lines(Some((iface, dns))).len() == 2,
        network_lines(Some((iface, dns)))[0] == "pass out quick on "@ + iface
            + " inet proto { udp tcp } to "@ + dns.shown() + " port 53 no state"@,
        network_lines(Some((iface, dns)))[1] == "pass out quick on "@ + iface
            + " inet proto icmp to { "@ + crate::text::join(
            seq![
                crate::addr::octets(1, 1, 1, 1).shown(),
                crate::addr::octets(8, 8, 8, 8).shown(),
                crate::addr::octets(9, 9, 9, 9).shown(),
            ],
            " "@,
        ) + " } icmp-type echoreq no state"@,
{
    assert(all_shown(crate::probe::target_list()) =~= seq![
        crate::addr::octets(1, 1, 1, 1).shown(),
        crate::addr::octets(8, 8, 8, 8).shown(),
        crate::addr::octets(9, 9, 9, 9).shown(),
    ]);
}

/// A token is the number behind the word Token and a colon, with white
/// space round either.
pub proof fn lemma_what_a_token_is(key: Seq<char>, value: Seq<char>)
    requires
        !key.contains(':'),
    ensures
        token_line(key + seq![':'] + value) == if crate::text::trim(key) == "Token"@
            && crate::text::digits(crate::text::trim(value)) {
            Some(crate::text::trim(value))
        } else {
            None
        },
        token_line(key) is None,
{
    crate::text::lemma_parted(key, ':', value);
}

/// The file of a table has its addresses, or its subnets, a line each and
/// in order; a rule without a table has an empty one.
pub proof fn lemma_what_a_table_file_has(t: Tables, i: int)
    requires
        0 <= i,
    ensures
        i < t.hosts@.len() ==> hosts_text(t, i) == crate::text::paged(
            Seq::new(t.hosts@[i]@.len(), |k: int| t.hosts@[i]@[k].shown()),
        ),
        i >= t.hosts@.len() ==> hosts_text(t, i).len() == 0,
        i < t.nets@.len() ==> nets_text(t, i) == crate::text::paged(
            Seq::new(t.nets@[i]@.len(), |k: int| t.nets@[i]@[k].shown()),
        ),
        i >= t.nets@.len() ==> nets_text(t, i).len() == 0,
{
    if i < t.hosts@.len() {
        assert(all_shown(t.hosts@[i]@) =~= Seq::new(
            t.hosts@[i]@.len(),
            |k: int| t.hosts@[i]@[k].shown(),
        ));
    }
    if i < t.nets@.len() {
        assert(t.nets@[i]@.map_values(|s: Subnet| s.shown()) =~= Seq::new(
            t.nets@[i]@.len(),
            |k: int| t.nets@[i]@[k].shown(),
        ));
    }
}

/// A shape in words: every rule by its tunnels, none without any and off
/// when it is not in force, then the switch, the servers and the network.
pub proof fn lemma_how_a_shape_is_shown(s: Form, t: Seq<Seq<char>>)
    ensures
        rule_shown(None) == "off"@,
        t.len() == 0 ==> rule_shown(Some(t)) == "none"@,
        t.len() > 0 ==> rule_shown(Some(t)) == crate::text::join(t, ","@),
        s.shown() == "rules="@ + crate::text::join(
            Seq::new(s.rules.len(), |i: int| rule_shown(s.rules[i])),
            " "@,
        ) + " use_fakeip="@ + (if s.use_fakeip {
            "true"@
        } else {
            "false"@
        }) + " endpoints="@ + (if s.endpoints.len() == 0 {
            "none"@
        } else {
            crate::text::join(Seq::new(s.endpoints.len(), |i: int| s.endpoints[i].shown()), ","@)
        }) + " network="@ + (if s.network is None {
            "none"@
        } else {
            (s.network->0).0 + " dns="@ + (s.network->0).1.shown()
        }),
{
    assert(s.rules.map_values(|r: Option<Seq<Seq<char>>>| rule_shown(r)) =~= Seq::new(
        s.rules.len(),
        |i: int| rule_shown(s.rules[i]),
    ));
    assert(all_shown(s.endpoints) =~= Seq::new(
        s.endpoints.len(),
        |i: int| s.endpoints[i].shown(),
    ));
}

} // verus!
