//! One tunnel: amneziawg-go as a child process on a fresh `utunN`,
//! configured from an awg-quick file without awg-quick.
//!
//! The interface gets its address, MTU and a default route scoped to itself,
//! and no other routes: what goes into the tunnel is decided by the resolver.

use vstd::prelude::*;
use vstd::string::*;

use crate::addr::Ipv4Addr;
use crate::pf::join_path;
use crate::text::{
    around_last_of, around_of, lines_of, lower_of, number_of, quote, same, show, split_of,
    starts_of, strip_end_of, strip_start_of, trim_of, words_of, Edge,
};

verus! {

pub const IFCONFIG: &'static str = "/sbin/ifconfig";

pub const ROUTE: &'static str = "/sbin/route";

pub const KILL: &'static str = "/bin/kill";

pub const PGREP: &'static str = "/usr/bin/pgrep";

/// How many times the interface is looked for.
pub const LOOKS: u32 = 50;

/// The awg-quick keys of `[Interface]` that `awg setconf` does not take.
pub open spec fn quick(key: Seq<char>) -> bool {
    key == "address"@ || key == "mtu"@ || key == "table"@ || key == "dns"@ || key == "saveconfig"@
        || key == "preup"@ || key == "postup"@ || key == "predown"@ || key == "postdown"@
}

fn is_quick(key: &str) -> (r: bool)
    ensures
        r == quick(key@),
{
    same(key, "address") || same(key, "mtu") || same(key, "table") || same(key, "dns") || same(
        key,
        "saveconfig",
    ) || same(key, "preup") || same(key, "postup") || same(key, "predown") || same(key, "postdown")
}

/// A line for `awg setconf`.
pub enum Line {
    Text(String),
    /// Where the endpoint stands.
    Endpoint,
}

/// A line as a mathematical value.
pub enum Piece {
    Text(Seq<char>),
    Endpoint,
}

impl Line {
    pub open spec fn view(&self) -> Piece {
        match self {
            Line::Text(s) => Piece::Text(s@),
            Line::Endpoint => Piece::Endpoint,
        }
    }
}

pub open spec fn pieces_seen(v: Seq<Line>) -> Seq<Piece> {
    v.map_values(|l: Line| l@)
}

/// An awg-quick file, split into what this module applies itself and the
/// rest, which goes to `awg setconf` as it is. No Debug: it holds the key.
pub struct Conf {
    pub address: Ipv4Addr,
    pub mtu: u16,
    pub endpoint_host: String,
    pub endpoint_port: u16,
    /// Keys dropped without effect, such as DNS or hooks.
    pub ignored: Vec<String>,
    pub lines: Vec<Line>,
}

/// A tunnel file as a mathematical value.
#[verifier::ext_equal]
pub struct File {
    pub address: Ipv4Addr,
    pub mtu: u16,
    pub endpoint_host: Seq<char>,
    pub endpoint_port: u16,
    pub ignored: Seq<Seq<char>>,
    pub lines: Seq<Piece>,
}

impl Conf {
    pub open spec fn view(&self) -> File {
        File {
            address: self.address,
            mtu: self.mtu,
            endpoint_host: self.endpoint_host@,
            endpoint_port: self.endpoint_port,
            ignored: crate::text::seen(self.ignored@),
            lines: pieces_seen(self.lines@),
        }
    }
}

/// A file read so far.
#[verifier::ext_equal]
pub struct Reading {
    /// The header the lines are under, in small letters.
    pub section: Seq<char>,
    pub address: Option<Ipv4Addr>,
    pub mtu: u16,
    pub endpoint: Option<(Seq<char>, u16)>,
    pub ignored: Seq<Seq<char>>,
    pub lines: Seq<Piece>,
}

pub open spec fn blank() -> Reading {
    Reading {
        section: seq![],
        address: None,
        mtu: 1280,
        endpoint: None,
        ignored: seq![],
        lines: seq![],
    }
}

/// A line without its comment.
pub open spec fn uncommented(raw: Seq<char>) -> Seq<char> {
    crate::text::trim(
        match crate::text::around(raw, '#') {
            Some((a, _)) => a,
            None => raw,
        },
    )
}

/// The part before the slash.
pub open spec fn unprefixed(s: Seq<char>) -> Seq<char> {
    match crate::text::around(s, '/') {
        Some((a, _)) => a,
        None => s,
    }
}

/// The first of several addresses that is one of IPv4.
pub open spec fn first_address(v: Seq<Seq<char>>) -> Option<Ipv4Addr>
    decreases v.len(),
{
    if v.len() == 0 {
        None
    } else {
        match crate::addr::address(unprefixed(crate::text::trim(v[0]))) {
            Some(a) => Some(a),
            None => first_address(v.drop_first()),
        }
    }
}

/// A key that awg-quick owns, applied here.
pub open spec fn with_quick(r: Reading, key: Seq<char>, value: Seq<char>) -> Result<
    Reading,
    Seq<char>,
> {
    if key == "address"@ {
        Ok(Reading { address: first_address(crate::text::split(value, ',')), ..r })
    } else if key == "mtu"@ {
        match crate::text::number(value, u16::MAX as nat) {
            Some(n) => Ok(Reading { mtu: n as u16, ..r }),
            None => Err("bad MTU "@ + value),
        }
    } else {
        Ok(Reading { ignored: r.ignored.push(key), ..r })
    }
}

/// The host without the brackets of an IPv6 address.
pub open spec fn unbracketed(host: Seq<char>) -> Seq<char> {
    let p = crate::text::edge(Edge::Bracket);
    crate::text::strip_end(crate::text::strip_start(host, p), p)
}

/// The endpoint of the peer: one, as `host:port`.
pub open spec fn with_endpoint(r: Reading, value: Seq<char>) -> Result<Reading, Seq<char>> {
    if r.endpoint is Some {
        Err("more than one peer endpoint"@)
    } else {
        match crate::text::around_last(value, ':') {
            None => Err("bad endpoint "@ + value),
            Some((host, port)) => match crate::text::number(port, u16::MAX as nat) {
                None => Err("bad endpoint port "@ + value),
                Some(n) => Ok(
                    Reading {
                        endpoint: Some((unbracketed(host), n as u16)),
                        lines: r.lines.push(Piece::Endpoint),
                        ..r
                    },
                ),
            },
        }
    }
}

/// The key and the value of a line.
pub open spec fn pair(line: Seq<char>) -> Option<(Seq<char>, Seq<char>)> {
    match crate::text::around(line, '=') {
        Some((k, v)) => Some(
            (crate::text::lower(crate::text::trim(k)), crate::text::trim(v)),
        ),
        None => None,
    }
}

pub open spec fn header(line: Seq<char>) -> bool {
    crate::text::starts(line, "["@)
}

/// One more line read.
pub open spec fn with_line(r: Reading, raw: Seq<char>) -> Result<Reading, Seq<char>> {
    let line = uncommented(raw);
    if line.len() == 0 {
        Ok(r)
    } else if header(line) {
        Ok(
            Reading {
                section: crate::text::lower(line),
                lines: r.lines.push(Piece::Text(line)),
                ..r
            },
        )
    } else {
        match pair(line) {
            None => Err("not a key = value line: "@ + line),
            Some((key, value)) => if r.section == "[interface]"@ && quick(key) {
                with_quick(r, key, value)
            } else if r.section == "[peer]"@ && key == "endpoint"@ {
                with_endpoint(r, value)
            } else {
                Ok(Reading { lines: r.lines.push(Piece::Text(line)), ..r })
            },
        }
    }
}

/// The lines read in order; the first that is refused refuses the file.
pub open spec fn read(lines: Seq<Seq<char>>) -> Result<Reading, Seq<char>>
    decreases lines.len(),
{
    if lines.len() == 0 {
        Ok(blank())
    } else {
        match read(lines.drop_last()) {
            Err(e) => Err(e),
            Ok(r) => with_line(r, lines.last()),
        }
    }
}

/// The file a text is, or why it is none.
pub open spec fn conf(text: Seq<char>) -> Result<File, Seq<char>> {
    match read(crate::text::lines(text)) {
        Err(e) => Err(e),
        Ok(r) => match (r.endpoint, r.address) {
            (None, _) => Err("no peer endpoint"@),
            (Some(_), None) => Err("no IPv4 Address in [Interface]"@),
            (Some((host, port)), Some(address)) => Ok(
                File {
                    address,
                    mtu: r.mtu,
                    endpoint_host: host,
                    endpoint_port: port,
                    ignored: r.ignored,
                    lines: r.lines,
                },
            ),
        },
    }
}

/// The lines for `awg setconf`, with the endpoint as `ip`.
pub open spec fn setconf_line(p: Piece, ip: Ipv4Addr, port: u16) -> Seq<char> {
    match p {
        Piece::Text(s) => s,
        Piece::Endpoint => "Endpoint = "@ + ip.shown() + ":"@ + crate::text::decimal(port as nat),
    }
}

pub open spec fn setconf_text(f: File, ip: Ipv4Addr) -> Seq<char> {
    crate::text::paged(f.lines.map_values(|p: Piece| setconf_line(p, ip, f.endpoint_port)))
}

/// The file as it is read.
struct Partial {
    section: String,
    address: Option<Ipv4Addr>,
    mtu: u16,
    endpoint: Option<(String, u16)>,
    ignored: Vec<String>,
    lines: Vec<Line>,
}

impl Partial {
    spec fn view(&self) -> Reading {
        Reading {
            section: self.section@,
            address: self.address,
            mtu: self.mtu,
            endpoint: match self.endpoint {
                Some((h, p)) => Some((h@, p)),
                None => None,
            },
            ignored: crate::text::seen(self.ignored@),
            lines: pieces_seen(self.lines@),
        }
    }

    fn keep(&mut self, l: Line)
        ensures
            final(self)@ == (Reading { lines: old(self)@.lines.push(l@), ..old(self)@ }),
    {
        self.lines.push(l);
        proof {
            assert(pieces_seen(self.lines@) =~= pieces_seen(old(self).lines@).push(l@));
        }
    }

    fn quick(&mut self, key: String, value: &str) -> (r: Result<(), String>)
        ensures
            match r {
                Ok(()) => with_quick(old(self)@, key@, value@) == Ok::<Reading, Seq<char>>(
                    final(self)@,
                ),
                Err(e) => with_quick(old(self)@, key@, value@) == Err::<Reading, Seq<char>>(e@),
            },
    {
        if same(key.as_str(), "address") {
            self.address = find_address(value);
        } else if same(key.as_str(), "mtu") {
            match number_of(value, u16::MAX as u64) {
                Some(n) => {
                    self.mtu = n as u16;
                },
                None => {
                    let mut e = String::from_str("bad MTU ");
                    e.append(value);
                    return Err(e);
                },
            }
        } else {
            proof {
                crate::text::lemma_seen_push(self.ignored@, key);
            }
            self.ignored.push(key);
        }
        Ok(())
    }

    fn endpoint(&mut self, value: &str) -> (r: Result<(), String>)
        ensures
            match r {
                Ok(()) => with_endpoint(old(self)@, value@) == Ok::<Reading, Seq<char>>(
                    final(self)@,
                ),
                Err(e) => with_endpoint(old(self)@, value@) == Err::<Reading, Seq<char>>(e@),
            },
    {
        if self.endpoint.is_some() {
            return Err(String::from_str("more than one peer endpoint"));
        }
        match around_last_of(value, ':') {
            None => {
                let mut e = String::from_str("bad endpoint ");
                e.append(value);
                Err(e)
            },
            Some((host, port)) => match number_of(port.as_str(), u16::MAX as u64) {
                None => {
                    let mut e = String::from_str("bad endpoint port ");
                    e.append(value);
                    Err(e)
                },
                Some(n) => {
                    let host = strip_end_of(
                        strip_start_of(host.as_str(), Edge::Bracket).as_str(),
                        Edge::Bracket,
                    );
                    self.endpoint = Some((host, n as u16));
                    self.keep(Line::Endpoint);
                    Ok(())
                },
            },
        }
    }

    fn line(&mut self, raw: &str) -> (r: Result<(), String>)
        ensures
            match r {
                Ok(()) => with_line(old(self)@, raw@) == Ok::<Reading, Seq<char>>(final(self)@),
                Err(e) => with_line(old(self)@, raw@) == Err::<Reading, Seq<char>>(e@),
            },
    {
        let bare = match around_of(raw, '#') {
            Some((a, _)) => a,
            None => raw.to_owned(),
        };
        let line = trim_of(bare.as_str());
        if line.as_str().is_empty() {
            return Ok(());
        }
        if starts_of(line.as_str(), "[") {
            self.section = lower_of(line.as_str());
            self.keep(Line::Text(line));
            return Ok(());
        }
        match around_of(line.as_str(), '=') {
            None => {
                let mut e = String::from_str("not a key = value line: ");
                e.append(line.as_str());
                Err(e)
            },
            Some((k, v)) => {
                let key = lower_of(trim_of(k.as_str()).as_str());
                let value = trim_of(v.as_str());
                if same(self.section.as_str(), "[interface]") && is_quick(key.as_str()) {
                    return self.quick(key, value.as_str());
                }
                if same(self.section.as_str(), "[peer]") && same(key.as_str(), "endpoint") {
                    return self.endpoint(value.as_str());
                }
                self.keep(Line::Text(line));
                Ok(())
            },
        }
    }
}

fn find_address(value: &str) -> (r: Option<Ipv4Addr>)
    ensures
        r == first_address(crate::text::split(value@, ',')),
{
    let v = split_of(value, ',');
    let ghost all = crate::text::seen(v@);
    let mut i: usize = 0;
    proof {
        assert(all.skip(0) =~= all);
    }
    while i < v.len()
        invariant
            i <= v@.len(),
            all == crate::text::seen(v@),
            all == crate::text::split(value@, ','),
            first_address(all) == first_address(all.skip(i as int)),
        decreases v@.len() - i,
    {
        proof {
            assert(all.skip(i as int)[0] == v@[i as int]@);
            assert(all.skip(i as int).drop_first() =~= all.skip(i + 1));
        }
        let t = trim_of(v[i].as_str());
        let bare = match around_of(t.as_str(), '/') {
            Some((a, _)) => a,
            None => t,
        };
        if let Some(a) = Ipv4Addr::parse(bare.as_str()) {
            return Some(a);
        }
        i += 1;
    }
    None
}

impl Conf {
    pub fn parse(text: &str) -> (r: Result<Self, String>)
        ensures
            match r {
                Ok(c) => conf(text@) == Ok::<File, Seq<char>>(c@),
                Err(e) => conf(text@) == Err::<File, Seq<char>>(e@),
            },
    {
        let lines = lines_of(text);
        let ghost all = crate::text::seen(lines@);
        let mut p = Partial {
            section: String::new(),
            address: None,
            mtu: 1280,
            endpoint: None,
            ignored: Vec::new(),
            lines: Vec::new(),
        };
        let mut i: usize = 0;
        proof {
            assert(all.take(0) =~= seq![]);
            assert(p@ =~= blank());
        }
        while i < lines.len()
            invariant
                i <= lines@.len(),
                all == crate::text::seen(lines@),
                all == crate::text::lines(text@),
                read(all.take(i as int)) == Ok::<Reading, Seq<char>>(p@),
            decreases lines@.len() - i,
        {
            proof {
                assert(all.take(i + 1).drop_last() =~= all.take(i as int));
                assert(all.take(i + 1).last() == lines@[i as int]@);
            }
            match p.line(lines[i].as_str()) {
                Ok(()) => {},
                Err(e) => {
                    proof {
                        lemma_refused(all, i + 1, e@);
                    }
                    return Err(e);
                },
            }
            i += 1;
        }
        proof {
            assert(all.take(i as int) =~= all);
        }
        match p.endpoint {
            None => Err(String::from_str("no peer endpoint")),
            Some((endpoint_host, endpoint_port)) => match p.address {
                None => Err(String::from_str("no IPv4 Address in [Interface]")),
                Some(address) => Ok(
                    Conf {
                        address,
                        mtu: p.mtu,
                        endpoint_host,
                        endpoint_port,
                        ignored: p.ignored,
                        lines: p.lines,
                    },
                ),
            },
        }
    }

    /// The endpoint address when the file gives one rather than a name.
    pub fn endpoint_ip(&self) -> (r: Option<Ipv4Addr>)
        ensures
            r == crate::addr::address(self.endpoint_host@),
    {
        Ipv4Addr::parse(self.endpoint_host.as_str())
    }

    /// The text for `awg setconf`, with the endpoint as `ip`.
    pub fn setconf(&self, ip: Ipv4Addr) -> (r: String)
        ensures
            r@ == setconf_text(self@, ip),
    {
        let mut out = String::new();
        let ghost all = self@.lines.map_values(
            |p: Piece| setconf_line(p, ip, self.endpoint_port),
        );
        let mut i: usize = 0;
        proof {
            assert(all.take(0) =~= seq![]);
        }
        while i < self.lines.len()
            invariant
                i <= self.lines@.len(),
                all == self@.lines.map_values(
                    |p: Piece| setconf_line(p, ip, self.endpoint_port),
                ),
                out@ == crate::text::paged(all.take(i as int)),
            decreases self.lines@.len() - i,
        {
            proof {
                assert(all.take(i + 1).drop_last() =~= all.take(i as int));
                assert(all.take(i + 1).last() == setconf_line(
                    self.lines@[i as int]@,
                    ip,
                    self.endpoint_port,
                ));
            }
            let ghost before = out@;
            match &self.lines[i] {
                Line::Text(t) => out.append(t.as_str()),
                Line::Endpoint => {
                    out.append("Endpoint = ");
                    out.append(ip.to_string().as_str());
                    out.append(":");
                    out.append(show(self.endpoint_port as u128).as_str());
                },
            }
            out.append("\n");
            proof {
                assert(out@ =~= before + all.take(i + 1).last() + "\n"@);
            }
            i += 1;
        }
        proof {
            assert(all.take(i as int) =~= all);
        }
        out
    }
}

proof fn lemma_refused(all: Seq<Seq<char>>, n: int, e: Seq<char>)
    requires
        0 <= n <= all.len(),
        read(all.take(n)) == Err::<Reading, Seq<char>>(e),
    ensures
        read(all) == Err::<Reading, Seq<char>>(e),
    decreases all.len() - n,
{
    if n < all.len() {
        assert(all.take(n + 1).drop_last() =~= all.take(n));
        lemma_refused(all, n + 1, e);
    } else {
        assert(all.take(n) =~= all);
    }
}

// ---------------------------------------------------------------------
// The programs that are run.
// ---------------------------------------------------------------------

#[derive(Debug)]
pub struct Tools {
    pub go: String,
    pub awg: String,
    /// Where amneziawg-go keeps its sockets and writes the interface name.
    pub run_dir: String,
}

/// A program to run, with what it is fed.
#[derive(Debug)]
pub struct Command {
    pub program: String,
    pub args: Vec<String>,
    pub input: Option<String>,
}

/// A program to run, as a mathematical value.
#[verifier::ext_equal]
pub struct Call {
    pub program: Seq<char>,
    pub args: Seq<Seq<char>>,
    pub input: Option<Seq<char>>,
}

impl Command {
    pub open spec fn view(&self) -> Call {
        Call {
            program: self.program@,
            args: crate::text::seen(self.args@),
            input: match self.input {
                Some(s) => Some(s@),
                None => None,
            },
        }
    }

    fn new(program: &str) -> (r: Command)
        ensures
            r@ == (Call { program: program@, args: seq![], input: None }),
    {
        let r = Command { program: program.to_owned(), args: Vec::new(), input: None };
        proof {
            assert(crate::text::seen(r.args@) =~= seq![]);
        }
        r
    }

    fn arg(&mut self, a: &str)
        ensures
            final(self)@ == (Call { args: old(self)@.args.push(a@), ..old(self)@ }),
    {
        let s = a.to_owned();
        proof {
            crate::text::lemma_seen_push(self.args@, s);
        }
        self.args.push(s);
    }
}

pub open spec fn calls(v: Seq<Command>) -> Seq<Call> {
    v.map_values(|c: Command| c@)
}

/// What configures an interface: the keys, the address, the MTU, up, and a
/// default route seen only by sockets bound to it: probes and tunnel DNS.
pub open spec fn setup_calls(awg: Seq<char>, f: File, name: Seq<char>, endpoint: Ipv4Addr) -> Seq<
    Call,
> {
    let addr = f.address.shown();
    seq![
        Call {
            program: awg,
            args: seq!["setconf"@, name, "/dev/stdin"@],
            input: Some(setconf_text(f, endpoint)),
        },
        Call {
            program: IFCONFIG@,
            args: seq![name, "inet"@, addr, addr, "alias"@],
            input: None,
        },
        Call {
            program: IFCONFIG@,
            args: seq![name, "mtu"@, crate::text::decimal(f.mtu as nat)],
            input: None,
        },
        Call { program: IFCONFIG@, args: seq![name, "up"@], input: None },
        Call {
            program: ROUTE@,
            args: seq![
                "-q"@,
                "-n"@,
                "add"@,
                "-inet"@,
                "default"@,
                "-interface"@,
                name,
                "-ifscope"@,
                name,
            ],
            input: None,
        },
    ]
}

/// The programs that configure the interface `name`, in order.
pub fn configure(tools: &Tools, conf: &Conf, name: &str, endpoint: Ipv4Addr) -> (r: Vec<Command>)
    ensures
        calls(r@) == setup_calls(tools.awg@, conf@, name@, endpoint),
{
    let addr = conf.address.to_string();
    let mtu = show(conf.mtu as u128);
    let mut keys = Command::new(tools.awg.as_str());
    keys.arg("setconf");
    keys.arg(name);
    keys.arg("/dev/stdin");
    keys.input = Some(conf.setconf(endpoint));
    let mut inet = Command::new(IFCONFIG);
    inet.arg(name);
    inet.arg("inet");
    inet.arg(addr.as_str());
    inet.arg(addr.as_str());
    inet.arg("alias");
    let mut size = Command::new(IFCONFIG);
    size.arg(name);
    size.arg("mtu");
    size.arg(mtu.as_str());
    let mut up = Command::new(IFCONFIG);
    up.arg(name);
    up.arg("up");
    let mut route = Command::new(ROUTE);
    route.arg("-q");
    route.arg("-n");
    route.arg("add");
    route.arg("-inet");
    route.arg("default");
    route.arg("-interface");
    route.arg(name);
    route.arg("-ifscope");
    route.arg(name);
    let ghost want = setup_calls(tools.awg@, conf@, name@, endpoint);
    proof {
        assert(keys@.args =~= want[0].args);
        assert(inet@.args =~= want[1].args);
        assert(size@.args =~= want[2].args);
        assert(up@.args =~= want[3].args);
        assert(route@.args =~= want[4].args);
    }
    let mut r: Vec<Command> = Vec::new();
    r.push(keys);
    r.push(inet);
    r.push(size);
    r.push(up);
    r.push(route);
    proof {
        assert(calls(r@) =~= want);
    }
    r
}

/// Takes the scoped route of an interface away.
pub fn unroute(name: &str) -> (r: Command)
    ensures
        r@ == (Call {
            program: ROUTE@,
            args: seq!["-q"@, "-n"@, "delete"@, "-inet"@, "default"@, "-ifscope"@, name@],
            input: None,
        }),
{
    let mut c = Command::new(ROUTE);
    c.arg("-q");
    c.arg("-n");
    c.arg("delete");
    c.arg("-inet");
    c.arg("default");
    c.arg("-ifscope");
    c.arg(name);
    proof {
        assert(c@.args =~= seq!["-q"@, "-n"@, "delete"@, "-inet"@, "default"@, "-ifscope"@, name@]);
    }
    c
}

/// Asks a process to end.
pub fn terminate(pid: u32) -> (r: Command)
    ensures
        r@ == (Call {
            program: KILL@,
            args: seq!["-TERM"@, crate::text::decimal(pid as nat)],
            input: None,
        }),
{
    let mut c = Command::new(KILL);
    c.arg("-TERM");
    c.arg(show(pid as u128).as_str());
    proof {
        assert(c@.args =~= seq!["-TERM"@, crate::text::decimal(pid as nat)]);
    }
    c
}

/// What stops a tunnel before its process is waited for. A process that is
/// gone took its interface along, and the name may already belong to a new
/// tunnel: the scoped route is not ours then. TERM lets it remove its
/// socket.
pub open spec fn stop_calls(name: Seq<char>, exited: bool, pid: Option<u32>) -> Seq<Call> {
    let route = Call {
        program: ROUTE@,
        args: seq!["-q"@, "-n"@, "delete"@, "-inet"@, "default"@, "-ifscope"@, name],
        input: None,
    };
    (if exited {
        seq![]
    } else {
        seq![route]
    }) + (match pid {
        Some(p) => seq![
            Call {
                program: KILL@,
                args: seq!["-TERM"@, crate::text::decimal(p as nat)],
                input: None,
            },
        ],
        None => seq![],
    })
}

pub fn down(name: &str, exited: bool, pid: Option<u32>) -> (r: Vec<Command>)
    ensures
        calls(r@) == stop_calls(name@, exited, pid),
{
    let mut r: Vec<Command> = Vec::new();
    if !exited {
        r.push(unroute(name));
    }
    if let Some(p) = pid {
        r.push(terminate(p));
    }
    proof {
        assert(calls(r@) =~= stop_calls(name@, exited, pid));
    }
    r
}

/// Where amneziawg-go writes the name of its interface; `seq` keeps those
/// of concurrent tunnels apart.
pub fn name_file(run_dir: &str, seq: u32) -> (r: String)
    ensures
        r@ == crate::pf::below(
            run_dir@,
            "mac-gate-"@ + crate::text::decimal(seq as nat) + ".name"@,
        ),
{
    let mut s = String::from_str("mac-gate-");
    s.append(show(seq as u128).as_str());
    s.append(".name");
    join_path(run_dir, s.as_str())
}

/// Whether a file in the run directory is one that a tunnel wrote its name
/// to.
pub fn is_name_file(name: &str) -> (r: bool)
    ensures
        r == (crate::text::starts(name@, "mac-gate-"@) && crate::text::ends(name@, ".name"@)),
{
    starts_of(name, "mac-gate-") && crate::text::ends_of(name, ".name")
}

// ---------------------------------------------------------------------
// What the programs say.
// ---------------------------------------------------------------------

/// The UDP port amneziawg-go sends from, as `awg show` prints it.
pub fn listen_port(out: &str) -> (r: Option<u16>)
    ensures
        match r {
            Some(p) => crate::text::number(crate::text::trim(out@), u16::MAX as nat) == Some(
                p as nat,
            ),
            None => crate::text::number(crate::text::trim(out@), u16::MAX as nat) is None,
        },
{
    match number_of(trim_of(out).as_str(), u16::MAX as u64) {
        Some(n) => Some(n as u16),
        None => None,
    }
}

/// Seconds since the last handshake with the server, from what `awg show`
/// prints of it: the peer, then the time; none when there was none.
pub open spec fn handshake(out: Seq<char>, now: u64) -> Option<u64> {
    let w = crate::text::words(out);
    if w.len() < 2 {
        None
    } else {
        match crate::text::number(w[1], u64::MAX as nat) {
            Some(at) => if at == 0 {
                None
            } else if at >= now {
                Some(0)
            } else {
                Some((now - at) as u64)
            },
            None => None,
        }
    }
}

pub fn handshake_age(out: &str, now: u64) -> (r: Option<u64>)
    ensures
        r == handshake(out@, now),
{
    let w = words_of(out);
    proof {
        assert(crate::text::seen(w@).len() == w@.len());
    }
    if w.len() < 2 {
        return None;
    }
    proof {
        assert(crate::text::seen(w@)[1] == w@[1]@);
    }
    match number_of(w[1].as_str(), u64::MAX) {
        Some(at) => if at == 0 {
            None
        } else if at >= now {
            Some(0)
        } else {
            Some(now - at)
        },
        None => None,
    }
}

/// The pids among the words, in order.
pub open spec fn pid_list(words: Seq<Seq<char>>) -> Seq<u32>
    decreases words.len(),
{
    if words.len() == 0 {
        seq![]
    } else {
        match crate::text::number(words.last(), u32::MAX as nat) {
            Some(n) => pid_list(words.drop_last()).push(n as u32),
            None => pid_list(words.drop_last()),
        }
    }
}

/// Finds every amneziawg-go started as this module starts it.
pub fn find_strays(tools: &Tools) -> (r: Command)
    ensures
        r@ == (Call {
            program: PGREP@,
            args: seq!["-f"@, "-x"@, tools.go@ + " -f utun"@],
            input: None,
        }),
{
    let mut pattern = tools.go.clone();
    pattern.append(" -f utun");
    let mut c = Command::new(PGREP);
    c.arg("-f");
    c.arg("-x");
    c.arg(pattern.as_str());
    proof {
        assert(c@.args =~= seq!["-f"@, "-x"@, tools.go@ + " -f utun"@]);
    }
    c
}

/// The pids pgrep printed.
pub fn stray_pids(out: &str) -> (r: Vec<u32>)
    ensures
        r@ == pid_list(crate::text::words(out@)),
{
    let w = words_of(out);
    let ghost all = crate::text::seen(w@);
    let mut r: Vec<u32> = Vec::new();
    let mut i: usize = 0;
    proof {
        assert(all.take(0) =~= seq![]);
    }
    while i < w.len()
        invariant
            i <= w@.len(),
            all == crate::text::seen(w@),
            r@ == pid_list(all.take(i as int)),
        decreases w@.len() - i,
    {
        proof {
            assert(all.take(i + 1).drop_last() =~= all.take(i as int));
            assert(all.take(i + 1).last() == w@[i as int]@);
        }
        if let Some(n) = number_of(w[i].as_str(), u32::MAX as u64) {
            r.push(n as u32);
        }
        i += 1;
    }
    proof {
        assert(all.take(i as int) =~= all);
    }
    r
}

// ---------------------------------------------------------------------
// Waiting for the interface.
// ---------------------------------------------------------------------

/// Waits for the interface name amneziawg-go writes, then for its control
/// socket: the name comes first, and `awg setconf` needs the socket.
#[derive(Debug)]
pub struct Waiting {
    pub name: Option<String>,
    /// How many looks were in vain.
    pub looks: u32,
}

/// What the wait comes to.
#[derive(Debug)]
pub enum Ready {
    /// The interface, with its socket there.
    Up(String),
    /// Looked for once more after a while.
    Again,
    Failed(String),
    /// Not there in time.
    TimedOut(String),
}

/// An outcome as a mathematical value.
pub enum Readied {
    Up(Seq<char>),
    Again,
    Failed(Seq<char>),
    TimedOut(Seq<char>),
}

impl Ready {
    pub open spec fn view(&self) -> Readied {
        match self {
            Ready::Up(s) => Readied::Up(s@),
            Ready::Again => Readied::Again,
            Ready::Failed(s) => Readied::Failed(s@),
            Ready::TimedOut(s) => Readied::TimedOut(s@),
        }
    }
}

pub open spec fn text_seen(s: Option<String>) -> Option<Seq<char>> {
    match s {
        Some(s) => Some(s@),
        None => None,
    }
}

/// The name as the journal shows it.
pub open spec fn name_debug(name: Option<Seq<char>>) -> Seq<char> {
    match name {
        Some(n) => "Some("@ + crate::text::quoted(n) + ")"@,
        None => "None"@,
    }
}

/// The name, once it was written; it does not change then.
pub open spec fn named(name: Option<Seq<char>>, text: Option<Seq<char>>) -> Option<Seq<char>> {
    match (name, text) {
        (Some(n), _) => Some(n),
        (None, Some(t)) => if crate::text::trim(t).len() > 0 {
            Some(crate::text::trim(t))
        } else {
            None
        },
        (None, None) => None,
    }
}

pub open spec fn waited(
    name: Option<Seq<char>>,
    looks: u32,
    there: bool,
    exited: Option<Seq<char>>,
) -> Readied {
    match (name, exited) {
        (Some(n), _) if there => Readied::Up(n),
        (_, Some(status)) => Readied::Failed("amneziawg-go exited: "@ + status),
        (_, None) => if looks + 1 < LOOKS {
            Readied::Again
        } else {
            Readied::TimedOut("amneziawg-go not ready, interface "@ + name_debug(name))
        },
    }
}

impl Waiting {
    pub fn new() -> (r: Waiting)
        ensures
            r.name is None,
            r.looks == 0,
    {
        Waiting { name: None, looks: 0 }
    }

    /// What the name file holds, if it is there; returns the socket to look
    /// for.
    pub fn look(&mut self, text: Option<String>, run_dir: &str) -> (r: Option<String>)
        ensures
            final(self).looks == old(self).looks,
            text_seen(final(self).name) == named(text_seen(old(self).name), text_seen(text)),
            text_seen(r) == match text_seen(final(self).name) {
                Some(n) => Some(crate::pf::below(run_dir@, n + ".sock"@)),
                None => None::<Seq<char>>,
            },
    {
        if self.name.is_none() {
            if let Some(t) = text {
                let n = trim_of(t.as_str());
                if !n.as_str().is_empty() {
                    self.name = Some(n);
                }
            }
        }
        match &self.name {
            Some(n) => {
                let mut s = n.clone();
                s.append(".sock");
                Some(join_path(run_dir, s.as_str()))
            },
            None => None,
        }
    }

    /// Whether the socket is there, and how the process ended if it did.
    pub fn next(&mut self, there: bool, exited: Option<String>) -> (r: Ready)
        requires
            old(self).looks < LOOKS,
        ensures
            r@ == waited(
                text_seen(old(self).name),
                old(self).looks,
                there,
                text_seen(exited),
            ),
            final(self).name == old(self).name,
            final(self).looks == old(self).looks + 1,
            r is Again ==> final(self).looks < LOOKS,
    {
        self.looks = self.looks + 1;
        if there {
            if let Some(n) = &self.name {
                return Ready::Up(n.clone());
            }
        }
        if let Some(status) = exited {
            let mut s = String::from_str("amneziawg-go exited: ");
            s.append(status.as_str());
            return Ready::Failed(s);
        }
        if self.looks < LOOKS {
            return Ready::Again;
        }
        let mut s = String::from_str("amneziawg-go not ready, interface ");
        match &self.name {
            Some(n) => {
                s.append("Some(");
                s.append(quote(n.as_str()).as_str());
                s.append(")");
            },
            None => s.append("None"),
        }
        proof {
            assert(s@ =~= "amneziawg-go not ready, interface "@ + name_debug(
                text_seen(self.name),
            ));
        }
        Ready::TimedOut(s)
    }
}

// ---------------------------------------------------------------------
// Laws.
// ---------------------------------------------------------------------

/// The header that the last of the lines is under.
pub open spec fn under(lines: Seq<Piece>) -> Seq<char>
    decreases lines.len(),
{
    if lines.len() == 0 {
        seq![]
    } else {
        match lines.last() {
            Piece::Text(s) => if header(s) {
                crate::text::lower(s)
            } else {
                under(lines.drop_last())
            },
            Piece::Endpoint => under(lines.drop_last()),
        }
    }
}

/// A line that awg-quick owns, under the header it stands under.
pub open spec fn owned(lines: Seq<Piece>, i: int) -> bool {
    match lines[i] {
        Piece::Text(s) => !header(s) && under(lines.take(i)) == "[interface]"@ && (
            pair(s) matches Some((k, _)) && quick(k)),
        Piece::Endpoint => false,
    }
}

/// How many lines stand for the endpoint.
pub open spec fn endpoints(lines: Seq<Piece>) -> nat
    decreases lines.len(),
{
    if lines.len() == 0 {
        0
    } else {
        endpoints(lines.drop_last()) + if lines.last() is Endpoint {
            1nat
        } else {
            0
        }
    }
}

/// `awg setconf` is handed no key that awg-quick owns: those are applied
/// here, or dropped and named.
pub proof fn lemma_setconf_holds_no_quick_key(lines: Seq<Seq<char>>, i: int)
    requires
        read(lines) is Ok,
        0 <= i < read(lines)->Ok_0.lines.len(),
    ensures
        !owned(read(lines)->Ok_0.lines, i),
{
    lemma_read(lines);
    assert(kept_well(read(lines)->Ok_0));
}

/// A file that is accepted names its server once.
pub proof fn lemma_one_endpoint(text: Seq<char>)
    requires
        conf(text) is Ok,
    ensures
        endpoints(conf(text)->Ok_0.lines) == 1,
{
    lemma_read(crate::text::lines(text));
}

/// The lines kept so far are under the section that is being read, none of
/// them is one that awg-quick owns, and one stands for the endpoint if one
/// was read.
pub open spec fn kept_well(r: Reading) -> bool {
    &&& under(r.lines) == r.section
    &&& endpoints(r.lines) == if r.endpoint is Some {
        1nat
    } else {
        0
    }
    &&& forall|i: int| 0 <= i < r.lines.len() ==> !#[trigger] owned(r.lines, i)
}

proof fn lemma_read(lines: Seq<Seq<char>>)
    ensures
        read(lines) matches Ok(r) ==> kept_well(r),
    decreases lines.len(),
{
    if lines.len() > 0 {
        lemma_read(lines.drop_last());
        if read(lines.drop_last()) is Ok {
            lemma_with_line(read(lines.drop_last())->Ok_0, lines.last());
        }
    }
}

proof fn lemma_with_line(r: Reading, raw: Seq<char>)
    requires
        kept_well(r),
    ensures
        with_line(r, raw) matches Ok(q) ==> kept_well(q),
{
    if with_line(r, raw) is Ok {
        let q = with_line(r, raw)->Ok_0;
        if q.lines != r.lines {
            let x = q.lines.last();
            assert(q.lines == r.lines.push(x));
            assert(q.lines.drop_last() =~= r.lines);
            assert forall|i: int| 0 <= i < q.lines.len() implies !#[trigger] owned(q.lines, i) by {
                if i < r.lines.len() {
                    assert(q.lines.take(i) =~= r.lines.take(i));
                    assert(!owned(r.lines, i));
                } else {
                    assert(q.lines.take(i) =~= r.lines);
                }
            }
        }
    }
}

/// A line is read without what stands behind a number sign, and without the
/// white space round it. A header begins a section and is kept; a line of
/// nothing says nothing; a line without an equals sign refuses the file.
pub proof fn lemma_what_a_line_does(r: Reading, raw: Seq<char>)
    ensures
        ({
            let line = crate::text::trim(
                if crate::text::around(raw, '#') is Some {
                    (crate::text::around(raw, '#')->0).0
                } else {
                    raw
                },
            );
            let eq = crate::text::around(line, '=');
            let key = crate::text::lower(crate::text::trim((eq->0).0));
            let value = crate::text::trim((eq->0).1);
            &&& line.len() == 0 ==> with_line(r, raw) == Ok::<Reading, Seq<char>>(r)
            &&& line.len() > 0 && line[0] == '[' ==> with_line(r, raw) == Ok::<
                Reading,
                Seq<char>,
            >(
                (Reading {
                    section: crate::text::lower(line),
                    lines: r.lines.push(Piece::Text(line)),
                    ..r
                }),
            )
            &&& line.len() > 0 && line[0] != '[' && eq is None ==> with_line(r, raw) == Err::<
                Reading,
                Seq<char>,
            >("not a key = value line: "@ + line)
            &&& line.len() > 0 && line[0] != '[' && eq is Some ==> {
                let own = r.section == "[interface]"@ && quick(key);
                let server = r.section == "[peer]"@ && key == "endpoint"@;
                &&& own ==> with_line(r, raw) == with_quick(r, key, value)
                &&& server && !own ==> with_line(r, raw) == with_endpoint(r, value)
                &&& !own && !server ==> with_line(r, raw) == Ok::<Reading, Seq<char>>(
                    (Reading { lines: r.lines.push(Piece::Text(line)), ..r }),
                )
            }
        }),
{
    reveal_strlit("[");
    let line = uncommented(raw);
    if line.len() > 0 {
        if line[0] == '[' {
            assert(line.take(1) =~= "["@);
        } else if header(line) {
            assert(line.take(1)[0] == line[0]);
        }
    }
}

/// Of the keys of awg-quick the address and the MTU are applied, and the
/// others dropped and named; they are kept from `awg setconf`.
pub proof fn lemma_which_keys_are_applied(r: Reading, key: Seq<char>, value: Seq<char>)
    ensures
        quick(key) <==> key == "address"@ || key == "mtu"@ || key == "table"@ || key == "dns"@
            || key == "saveconfig"@ || key == "preup"@ || key == "postup"@ || key == "predown"@
            || key == "postdown"@,
        key == "address"@ ==> with_quick(r, key, value) == Ok::<Reading, Seq<char>>(
            (Reading { address: first_address(crate::text::split(value, ',')), ..r }),
        ),
        key == "mtu"@ && crate::text::number(value, 65535) is Some ==> with_quick(r, key, value)
            == Ok::<Reading, Seq<char>>(
            (Reading { mtu: crate::text::number(value, 65535)->0 as u16, ..r }),
        ),
        key == "mtu"@ && crate::text::number(value, 65535) is None ==> with_quick(r, key, value)
            == Err::<Reading, Seq<char>>("bad MTU "@ + value),
        key != "address"@ && key != "mtu"@ ==> with_quick(r, key, value) == Ok::<
            Reading,
            Seq<char>,
        >((Reading { ignored: r.ignored.push(key), ..r })),
{
    reveal_strlit("address");
    reveal_strlit("mtu");
    assert("address"@.len() == 7 && "mtu"@.len() == 3);
}

/// The address is the first of IPv4 among those given, without the length
/// of its prefix.
pub proof fn lemma_the_first_address(v: Seq<Seq<char>>, i: int)
    requires
        0 <= i <= v.len(),
        forall|j: int|
            0 <= j < i ==> crate::addr::address(
                unprefixed(crate::text::trim(#[trigger] v[j])),
            ) is None,
        i < v.len() ==> crate::addr::address(unprefixed(crate::text::trim(v[i]))) is Some,
    ensures
        first_address(v) == if i < v.len() {
            crate::addr::address(unprefixed(crate::text::trim(v[i])))
        } else {
            None
        },
    decreases i,
{
    if i > 0 {
        let r = v.drop_first();
        assert(crate::addr::address(unprefixed(crate::text::trim(v[0]))) is None);
        assert forall|j: int| 0 <= j < i - 1 implies crate::addr::address(
            unprefixed(crate::text::trim(#[trigger] r[j])),
        ) is None by {
            assert(r[j] == v[j + 1]);
        }
        lemma_the_first_address(r, i - 1);
    }
}

/// What stands before a slash is the address, and all of it where there is
/// none.
pub proof fn lemma_before_the_slash(a: Seq<char>, b: Seq<char>)
    requires
        !a.contains('/'),
    ensures
        unprefixed(a) == a,
        unprefixed(a + seq!['/'] + b) == a,
{
    crate::text::lemma_parted(a, '/', b);
}

/// The server is what stands before the last colon, its port what stands
/// behind it; a second server is refused, and so is one without a port that
/// is a number up to 65535.
pub proof fn lemma_what_an_endpoint_is(r: Reading, host: Seq<char>, port: Seq<char>)
    requires
        !port.contains(':'),
        host.len() > 0 ==> host[0] != '[' && host[0] != ']' && host.last() != '[' && host.last()
            != ']',
    ensures
        ({
            let value = host + seq![':'] + port;
            let n = crate::text::number(port, 65535);
            &&& r.endpoint is Some ==> with_endpoint(r, value) == Err::<Reading, Seq<char>>(
                "more than one peer endpoint"@,
            )
            &&& r.endpoint is None && n is Some ==> with_endpoint(r, value) == Ok::<
                Reading,
                Seq<char>,
            >(
                (Reading {
                    endpoint: Some((host, n->0 as u16)),
                    lines: r.lines.push(Piece::Endpoint),
                    ..r
                }),
            )
            &&& r.endpoint is None && n is None ==> with_endpoint(r, value) == Err::<
                Reading,
                Seq<char>,
            >("bad endpoint port "@ + value)
            &&& r.endpoint is None ==> with_endpoint(r, port) == Err::<Reading, Seq<char>>(
                "bad endpoint "@ + port,
            )
        }),
{
    crate::text::lemma_parted_last(host, ':', port);
    let p = crate::text::edge(Edge::Bracket);
    if host.len() > 0 {
        assert(!p(host[0]) && !p(host.last()));
    }
    assert(unbracketed(host) == host);
}

/// The lines are read in order, from an MTU of 1280 on, and the first that
/// is refused refuses the file.
pub proof fn lemma_lines_are_read_in_order(lines: Seq<Seq<char>>, line: Seq<char>)
    ensures
        read(seq![]) matches Ok(r) && r.mtu == 1280 && r.address is None && r.endpoint is None
            && r.ignored.len() == 0 && r.lines.len() == 0 && r.section.len() == 0,
        read(lines) matches Err(e) ==> read(lines.push(line)) == Err::<Reading, Seq<char>>(e),
        read(lines) matches Ok(r) ==> read(lines.push(line)) == with_line(r, line),
{
    assert(lines.push(line).drop_last() =~= lines);
}

/// A file has a server and an address of its own, and means what was read.
pub proof fn lemma_what_a_file_is(text: Seq<char>)
    ensures
        ({
            let r = read(crate::text::lines(text));
            &&& r matches Err(e) ==> conf(text) == Err::<File, Seq<char>>(e)
            &&& r matches Ok(x) ==> {
                &&& x.endpoint is None ==> conf(text) == Err::<File, Seq<char>>(
                    "no peer endpoint"@,
                )
                &&& x.endpoint is Some && x.address is None ==> conf(text) == Err::<
                    File,
                    Seq<char>,
                >("no IPv4 Address in [Interface]"@)
                &&& x.endpoint is Some && x.address is Some ==> conf(text) == Ok::<
                    File,
                    Seq<char>,
                >(
                    (File {
                        address: x.address->0,
                        mtu: x.mtu,
                        endpoint_host: (x.endpoint->0).0,
                        endpoint_port: (x.endpoint->0).1,
                        ignored: x.ignored,
                        lines: x.lines,
                    }),
                )
            }
        }),
{
}

/// `awg setconf` is handed the lines in order, each with a line feed, and
/// the server by its address where it stood.
pub proof fn lemma_what_setconf_is_handed(f: File, ip: Ipv4Addr, s: Seq<char>)
    ensures
        setconf_line(Piece::Text(s), ip, f.endpoint_port) == s,
        setconf_line(Piece::Endpoint, ip, f.endpoint_port) == "Endpoint = "@ + ip.shown() + ":"@
            + crate::text::decimal(f.endpoint_port as nat),
        setconf_text(f, ip) == crate::text::paged(
            Seq::new(f.lines.len(), |i: int| setconf_line(f.lines[i], ip, f.endpoint_port)),
        ),
{
    assert(f.lines.map_values(|p: Piece| setconf_line(p, ip, f.endpoint_port)) =~= Seq::new(
        f.lines.len(),
        |i: int| setconf_line(f.lines[i], ip, f.endpoint_port),
    ));
}

/// An interface gets its keys, its address, its MTU, comes up, and has a
/// default route of its own, in this order.
pub proof fn lemma_how_an_interface_is_set_up(
    awg: Seq<char>,
    f: File,
    name: Seq<char>,
    endpoint: Ipv4Addr,
)
    ensures
        ({
            let c = setup_calls(awg, f, name, endpoint);
            let a = f.address.shown();
            &&& c.len() == 5
            &&& c[0].program == awg
            &&& c[0].args == seq!["setconf"@, name, "/dev/stdin"@]
            &&& c[0].input == Some(setconf_text(f, endpoint))
            &&& c[1].program == "/sbin/ifconfig"@
            &&& c[1].args == seq![name, "inet"@, a, a, "alias"@]
            &&& c[2].program == "/sbin/ifconfig"@
            &&& c[2].args == seq![name, "mtu"@, crate::text::decimal(f.mtu as nat)]
            &&& c[3].program == "/sbin/ifconfig"@
            &&& c[3].args == seq![name, "up"@]
            &&& c[4].program == "/sbin/route"@
            &&& c[4].args == seq![
                "-q"@,
                "-n"@,
                "add"@,
                "-inet"@,
                "default"@,
                "-interface"@,
                name,
                "-ifscope"@,
                name,
            ]
            &&& c[1].input is None && c[2].input is None && c[3].input is None && c[4].input is None
        }),
{
}

/// A tunnel that is stopped loses the route of its interface, unless its
/// process is gone and the name may be another's; then the process is asked
/// to end, where there is one.
pub proof fn lemma_how_a_tunnel_is_stopped(name: Seq<char>, exited: bool, pid: u32)
    ensures
        ({
            let route = Call {
                program: "/sbin/route"@,
                args: seq!["-q"@, "-n"@, "delete"@, "-inet"@, "default"@, "-ifscope"@, name],
                input: None,
            };
            let end = Call {
                program: "/bin/kill"@,
                args: seq!["-TERM"@, crate::text::decimal(pid as nat)],
                input: None,
            };
            &&& stop_calls(name, false, Some(pid)) == seq![route, end]
            &&& stop_calls(name, true, Some(pid)) == seq![end]
            &&& stop_calls(name, false, None) == seq![route]
            &&& stop_calls(name, true, None) == Seq::<Call>::empty()
        }),
{
    let route = Call {
        program: "/sbin/route"@,
        args: seq!["-q"@, "-n"@, "delete"@, "-inet"@, "default"@, "-ifscope"@, name],
        input: None,
    };
    let end = Call {
        program: "/bin/kill"@,
        args: seq!["-TERM"@, crate::text::decimal(pid as nat)],
        input: None,
    };
    assert(seq![route] + seq![end] =~= seq![route, end]);
    assert(Seq::<Call>::empty() + seq![end] =~= seq![end]);
    assert(seq![route] + Seq::<Call>::empty() =~= seq![route]);
    assert(Seq::<Call>::empty() + Seq::<Call>::empty() =~= Seq::<Call>::empty());
}

/// The handshake is as old as the time that stands behind the peer says, no
/// younger than now; zero is none at all.
pub proof fn lemma_how_old_a_handshake_is(out: Seq<char>, now: u64)
    ensures
        ({
            let w = crate::text::words(out);
            let at = crate::text::number(w[1], u64::MAX as nat);
            let none = w.len() < 2 || at is None || at->0 == 0;
            &&& none ==> handshake(out, now) is None
            &&& !none ==> handshake(out, now) == Some(
                if at->0 >= now {
                    0u64
                } else {
                    (now - at->0) as u64
                },
            )
        }),
{
}

/// The pids are the words that are numbers, in order.
pub proof fn lemma_which_words_are_pids(words: Seq<Seq<char>>)
    ensures
        pid_list(words) == words.filter(
            |w: Seq<char>| crate::text::number(w, u32::MAX as nat) is Some,
        ).map_values(|w: Seq<char>| crate::text::number(w, u32::MAX as nat)->0 as u32),
    decreases words.len(),
{
    reveal(Seq::filter);
    let p = |w: Seq<char>| crate::text::number(w, u32::MAX as nat) is Some;
    let f = |w: Seq<char>| crate::text::number(w, u32::MAX as nat)->0 as u32;
    if words.len() > 0 {
        lemma_which_words_are_pids(words.drop_last());
    }
    assert(pid_list(words) =~= words.filter(p).map_values(f));
}

/// An interface is up once its name and its socket are there, also when the
/// process just ended; a process that ended without them failed, and after
/// fifty looks the wait is over.
pub proof fn lemma_how_long_a_tunnel_is_waited_for(
    name: Option<Seq<char>>,
    looks: u32,
    there: bool,
    exited: Option<Seq<char>>,
)
    ensures
        ({
            let r = waited(name, looks, there, exited);
            let up = name is Some && there;
            &&& up ==> r == Readied::Up(name->0)
            &&& !up && exited is Some ==> r == Readied::Failed(
                "amneziawg-go exited: "@ + exited->0,
            )
            &&& !up && exited is None && looks < 49 ==> r == Readied::Again
            &&& !up && exited is None && looks >= 49 ==> r == Readied::TimedOut(
                "amneziawg-go not ready, interface "@ + (if name is Some {
                    "Some("@ + crate::text::quoted(name->0) + ")"@
                } else {
                    "None"@
                }),
            )
        }),
{
}

/// The name of an interface is the first that was written, without the
/// white space round it.
pub proof fn lemma_the_name_of_an_interface(n: Seq<char>, text: Seq<char>)
    ensures
        named(Some(n), Some(text)) == Some(n),
        named(Some(n), None) == Some(n),
        named(None, Some(text)) == if crate::text::trim(text).len() > 0 {
            Some(crate::text::trim(text))
        } else {
            None
        },
        named(None, None) is None,
{
}

} // verus!
