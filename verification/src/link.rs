//! One tunnel kept up: amneziawg-go started, confirmed and checked, and
//! replaced by a new one when it stops carrying. What it finds goes to the
//! resolver, which moves the routes of the rules.
//!
//! Liveness is only real exchange through the tunnel: a ping to anycast
//! addresses, then TLS. A tunnel through which no probe gets, while its
//! peer still answers, is degraded: it is left alone for as long as the
//! patience with it lasts. A reconnect is a new amneziawg-go, so a new source
//! port; the new tunnel comes up first and takes the routes over, then the
//! old one goes.
//!
//! A link decides and never waits: each call takes what just happened, and
//! returns what to write and to tell the resolver, in order, and the one
//! thing to do next, whose outcome is the next call.

use vstd::prelude::*;
use vstd::string::*;

use crate::addr::Ipv4Addr;
use crate::degraded::{
    age, carrying, elapsed, Degradation, Verdict, GROWTH, LONGEST, MINUTE, SECOND, YOUNG,
};
use crate::links::{Health, Iface, LinkState};
use crate::net::Network;
use crate::probe::{targets, Counters};
use crate::resolver::Resolver;
use crate::text::{same, show};

verus! {

/// A tunnel after connecting or waking is checked often: DPI cuts new flows
/// in their first seconds.
pub const FRESH: u128 = 2 * MINUTE;

pub const FAST: u128 = 5 * SECOND;

pub const SLOW: u128 = 30 * SECOND;

/// A new tunnel must pass TLS within this, or it is replaced at once.
pub const CONFIRM: u128 = 10 * SECOND;

pub const PING: u128 = 2 * SECOND;

/// The first check after a wake: a live tunnel answers well within it, and
/// a dead one should not hold the reconnect back with a TLS try.
pub const WAKE_PING: u128 = SECOND;

pub const TLS: u128 = 15 * SECOND;

/// A fresh tunnel that failed the ping gets a short TLS try: a cut in the
/// first seconds must end in a reconnect within 10 s.
pub const FRESH_TLS: u128 = 3 * SECOND;

pub const DIRECT_TLS: u128 = 5 * SECOND;

/// Connects in a row without a pause.
pub const FAST_TRIES: u32 = 5;

/// The attempt count starts over once a tunnel has stood this long.
pub const STABLE: u128 = 2 * MINUTE;

/// Sent within the window with nothing back: a cut flow, checked at once.
/// The counters are read every tick. Packets, not bytes: a connect that
/// gets no answer sends only its SYNs, a few dozen bytes each.
pub const CUT_WINDOW: u128 = 4 * SECOND;

pub const CUT_PACKETS: u64 = 3;

pub const MILLI: u128 = 1_000_000;

/// What the watch tells a link.
#[derive(Clone, Copy, Debug, PartialEq, Eq, Structural)]
pub struct Ctl {
    /// A rule in force takes the tunnel.
    pub wanted: bool,
    /// Wakes counted: a new count is a new wake.
    pub wakes: u64,
    /// The daemon stops: down and out.
    pub stop: bool,
}

/// What the next check knows beforehand; both skip the TLS try.
#[derive(Clone, Copy, Debug, PartialEq, Eq, Structural)]
pub enum Next {
    Usual,
    /// The counters show a cut.
    Cut,
    /// The first check after a wake: a short ping.
    Woke,
}

/// An event whose recovery is timed.
#[derive(Clone, Copy, Debug, PartialEq, Eq, Structural)]
pub enum Event {
    Start,
    Wake,
    Network,
    Reconnect,
}

impl Event {
    pub open spec fn shown(self) -> Seq<char> {
        match self {
            Event::Start => "start"@,
            Event::Wake => "wake"@,
            Event::Network => "network"@,
            Event::Reconnect => "reconnect"@,
        }
    }

    pub fn name(self) -> (r: &'static str)
        ensures
            r@ == self.shown(),
    {
        match self {
            Event::Start => "start",
            Event::Wake => "wake",
            Event::Network => "network",
            Event::Reconnect => "reconnect",
        }
    }
}

/// Counters of the tunnel interface: when, packets received, sent.
#[derive(Clone, Copy, Debug, PartialEq, Eq, Structural)]
pub struct Sample {
    pub at: u128,
    pub rx: u64,
    pub tx: u64,
}

/// A check under way.
#[derive(Clone, Copy, Debug, PartialEq, Eq, Structural)]
pub struct Check {
    /// What it knew beforehand.
    pub next: Next,
    /// The tunnel is fresh.
    pub fresh: bool,
    pub start: u128,
}

impl Check {
    pub open spec fn ping_time(self) -> u128 {
        if self.next == Next::Woke {
            WAKE_PING
        } else {
            PING
        }
    }

    /// How long the ping may take.
    pub fn ping_limit(self) -> (r: u128)
        ensures
            r == self.ping_time(),
    {
        if self.next == Next::Woke {
            WAKE_PING
        } else {
            PING
        }
    }

    /// None: no TLS try after a wake.
    pub open spec fn tls_time(self) -> Option<u128> {
        if self.next == Next::Woke {
            None
        } else if self.fresh {
            Some(FRESH_TLS)
        } else {
            Some(TLS)
        }
    }

    /// How long the TLS try may take, when there is one.
    pub fn tls_limit(self) -> (r: Option<u128>)
        ensures
            r == self.tls_time(),
    {
        if self.next == Next::Woke {
            None
        } else if self.fresh {
            Some(FRESH_TLS)
        } else {
            Some(TLS)
        }
    }
}

/// Why a tunnel is taken down.
#[derive(Clone, Copy, Debug, PartialEq, Eq, Structural)]
pub enum Why {
    Stop,
    NoRule,
}

impl Why {
    pub open spec fn shown(self) -> Seq<char> {
        match self {
            Why::Stop => "stop"@,
            Why::NoRule => "no rule in force takes it"@,
        }
    }

    pub fn text(self) -> (r: &'static str)
        ensures
            r@ == self.shown(),
    {
        match self {
            Why::Stop => "stop",
            Why::NoRule => "no rule in force takes it",
        }
    }
}

/// What is done next; its outcome is the next call.
#[derive(Clone, Copy, Debug, PartialEq, Eq, Structural)]
pub enum Then {
    /// Nothing until the next tick or change, then `step`.
    Rest,
    /// The link is over.
    Done,
    /// The tunnel is taken down, then `went_down`.
    TakeDown(Why),
    /// The process is gone: what is left of it is cleared away, then
    /// `dropped`.
    DropDead,
    /// The counters of the tunnel are read, then `counted`.
    ReadCounters,
    /// The next generation is drawn, then `connect`.
    Number,
    /// The server is resolved at the network DNS, then `resolved`.
    Resolve { start: u128 },
    /// A new amneziawg-go is started and configured, then `raised`.
    Raise { endpoint: Ipv4Addr, start: u128 },
    /// The tunnel that was replaced is taken down, then `retired`.
    Retire,
    /// TLS through the tunnel within `CONFIRM`, unless the network moves,
    /// then `confirmed`.
    Confirm { start: u128 },
    /// The handshake and the counters are read, then `looked`.
    LookAt,
    /// A ping through the tunnel, unless the network moves, then `pinged`.
    Ping(Check),
    /// TLS through the tunnel, unless the network moves, then `tls_tried`.
    Tls(Check),
    /// The handshake and the counters of a tunnel that failed its check are
    /// read, then `weighed`.
    Weigh(Check),
    /// A ping past the tunnel, unless the network moves, then
    /// `direct_pinged`.
    DirectPing(Check),
    /// TLS past the tunnel within `DIRECT_TLS`, unless the network moves,
    /// then `direct_tried`.
    DirectTls(Check),
}

/// What came of a ping.
#[derive(Clone, Copy, Debug, PartialEq, Eq, Structural)]
pub enum Pinged {
    /// The network changed first: nothing learned.
    Moved,
    Silent,
    /// A reply, after so long.
    Replied(u128),
}

/// What came of a TLS try.
#[derive(Clone, Copy, Debug, PartialEq, Eq, Structural)]
pub enum Tried {
    /// The network changed first: nothing learned.
    Moved,
    No,
    Yes,
}

/// What answered a check through the tunnel, and after how long.
#[derive(Clone, Copy, Debug, PartialEq, Eq, Structural)]
pub enum Found {
    Nothing,
    Ping(u128),
    Tls(u128),
}

// ---------------------------------------------------------------------
// The link without its names.
// ---------------------------------------------------------------------

/// What a link knows of its tunnel, the names apart.
#[derive(Clone, Copy, Debug)]
pub struct Run {
    pub generation: u32,
    /// Connects in a row that did not end in a confirmed tunnel.
    pub failures: u32,
    /// A connect is due at this time.
    pub connect_at: Option<u128>,
    pub confirmed: Option<u128>,
    pub fresh_until: u128,
    pub check_at: u128,
    /// A cut the ping refuted is not suspected again before the next check:
    /// a program knocking on a dead address would raise it every window.
    pub cut_quiet_until: u128,
    pub next: Next,
    pub offline: bool,
    pub wakes: u64,
    /// An event whose recovery is timed, and when it was seen.
    pub pending: Option<(Event, u128)>,
    /// A new network or a wake not yet checked, since when.
    pub works: Option<u128>,
    pub health: Health,
    pub since: Option<u128>,
    /// The ping has answered through this tunnel: its silence means
    /// something. Some servers never answer it.
    pub pinged: bool,
    pub endpoint: Option<Ipv4Addr>,
    /// When the interface came up, and the last wake or new network.
    pub up_at: u128,
    pub disturbed_at: u128,
    /// Bytes received as the counters were first read after the last check,
    /// or as they were read when a cut was suspected.
    pub rx: Option<u64>,
    pub degradation: Degradation,
    /// The connect that is due is the one reconnect of a degraded tunnel.
    pub forced: bool,
}

/// The pause after so many failures in a row, in seconds; none while the
/// tries are fast.
pub open spec fn pause(failures: int) -> Option<nat> {
    if failures < FAST_TRIES {
        None
    } else if failures == FAST_TRIES {
        Some(30)
    } else if failures == FAST_TRIES + 1 {
        Some(60)
    } else {
        Some(120)
    }
}

impl Run {
    /// Carrying for certain is since a time, and nothing else is; the one
    /// reconnect of a degraded tunnel is due while it is owed.
    pub open spec fn sound(self) -> bool {
        &&& self.since is Some <==> self.health == Health::Up
        &&& self.forced ==> self.connect_at is Some
        &&& self.degradation.wf()
        &&& self.degradation.grace * GROWTH * 2 <= LONGEST
    }

    /// How long the tunnel has been carrying undisturbed.
    pub open spec fn age(self, now: u128) -> u128 {
        crate::degraded::undisturbed(self.up_at, self.disturbed_at, now)
    }

    /// Bytes came in since the last check.
    pub open spec fn grew(self, c: Option<Counters>) -> bool {
        match (self.rx, c) {
            (Some(before), Some(c)) => c.rx_bytes > before,
            _ => false,
        }
    }

    /// The tunnel itself says that it carries.
    pub open spec fn speaks(self, handshake: Option<u64>, c: Option<Counters>, now: u128) -> bool {
        crate::degraded::evidence(self.age(now), handshake, self.grew(c))
    }

    /// Checked often from `now` on, and at once.
    pub open spec fn freshened(self, now: u128) -> Run {
        Run {
            fresh_until: (now + FRESH) as u128,
            check_at: if self.check_at < now {
                self.check_at
            } else {
                now
            },
            ..self
        }
    }

    /// Down, it is tried at once, with the fast attempts anew.
    pub open spec fn retried(self, now: u128) -> Run {
        if self.connect_at is Some {
            Run { failures: 0, connect_at: Some(now), ..self }
        } else {
            self
        }
    }

    /// After a wake: in doubt until a check.
    pub open spec fn woken(self, now: u128) -> Run {
        Run {
            works: Some(now),
            next: Next::Woke,
            pending: Some((Event::Wake, now)),
            disturbed_at: now,
            forced: false,
            ..self
        }.freshened(now).retried(now)
    }

    /// The recovery is timed from the first of the events.
    pub open spec fn pends(self, event: Event, now: u128) -> Run {
        Run {
            pending: match self.pending {
                Some(p) => Some(p),
                None => Some((event, now)),
            },
            ..self
        }
    }

    /// On a new network, or on none: in doubt until a check.
    pub open spec fn moved(self, online: bool, now: u128) -> Run {
        let r = Run { works: Some(now), disturbed_at: now, forced: false, ..self }.freshened(
            now,
        ).pends(Event::Network, now);
        if online {
            r.retried(now)
        } else {
            r
        }
    }

    /// Carries: from a doubt or a failure, its time to take a rule back
    /// starts now, and it is checked often meanwhile.
    pub open spec fn carries(self, now: u128) -> Run {
        if self.health != Health::Up || self.since is None {
            Run {
                health: Health::Up,
                since: Some(now),
                fresh_until: (now + FRESH) as u128,
                check_at: (now + FAST) as u128,
                ..self
            }
        } else {
            self
        }
    }

    pub open spec fn ailing(self) -> Run {
        Run { health: Health::Down, since: None, ..self }
    }

    /// Gone: a connect is due now.
    pub open spec fn gone(self, now: u128) -> Run {
        Run { confirmed: None, connect_at: Some(now), forced: false, ..self.ailing() }.pends(
            Event::Reconnect,
            now,
        )
    }

    /// The one reconnect did not help: the tunnel there is stays, out of
    /// the young window before it is checked again, and the next wait is
    /// longer.
    pub open spec fn spared(self, now: u128) -> Run {
        Run {
            connect_at: None,
            check_at: (now + YOUNG) as u128,
            cut_quiet_until: (now + YOUNG) as u128,
            degradation: Degradation { patience: self.degradation.grown(), ..self.degradation },
            forced: false,
            ..self.ailing()
        }
    }

    /// Left alone: it keeps what it has, and the next check decides.
    pub open spec fn limps(self) -> Run {
        Run {
            health: Health::Degraded,
            since: None,
            cut_quiet_until: self.check_at,
            ..self
        }
    }

    /// One more connect failed: the next is due after the pause it earned.
    pub open spec fn defeated(self, now: u128) -> Run {
        Run {
            failures: (self.failures + 1) as u32,
            connect_at: Some(
                match pause(self.failures + 1) {
                    None => now,
                    Some(secs) => (now + secs * SECOND) as u128,
                },
            ),
            ..self.ailing()
        }
    }

    fn fresh(&mut self, now: u128)
        requires
            now <= LONGEST,
        ensures
            *final(self) == old(self).freshened(now),
    {
        self.fresh_until = now + FRESH;
        if self.check_at >= now {
            self.check_at = now;
        }
    }

    fn retry_now(&mut self, now: u128)
        ensures
            *final(self) == old(self).retried(now),
    {
        if self.connect_at.is_some() {
            self.failures = 0;
            self.connect_at = Some(now);
        }
    }

    fn woke(&mut self, now: u128)
        requires
            now <= LONGEST,
        ensures
            *final(self) == old(self).woken(now),
    {
        self.fresh(now);
        self.disturbed_at = now;
        self.forced = false;
        self.next = Next::Woke;
        self.pending = Some((Event::Wake, now));
        self.retry_now(now);
        self.works = Some(now);
    }

    fn pend(&mut self, event: Event, now: u128)
        ensures
            *final(self) == old(self).pends(event, now),
    {
        if self.pending.is_none() {
            self.pending = Some((event, now));
        }
    }

    fn follow(&mut self, online: bool, now: u128)
        requires
            now <= LONGEST,
        ensures
            *final(self) == old(self).moved(online, now),
    {
        self.fresh(now);
        self.disturbed_at = now;
        self.forced = false;
        self.pend(Event::Network, now);
        if online {
            self.retry_now(now);
        }
        self.works = Some(now);
    }

    fn healthy(&mut self, now: u128)
        requires
            now <= LONGEST,
        ensures
            *final(self) == old(self).carries(now),
    {
        if self.health != Health::Up || self.since.is_none() {
            self.since = Some(now);
            self.fresh(now);
            self.check_at = now + FAST;
        }
        self.health = Health::Up;
    }

    fn unhealthy(&mut self)
        ensures
            *final(self) == old(self).ailing(),
    {
        self.health = Health::Down;
        self.since = None;
    }

    fn lost(&mut self, now: u128)
        ensures
            *final(self) == old(self).gone(now),
    {
        self.unhealthy();
        self.confirmed = None;
        self.connect_at = Some(now);
        self.forced = false;
        self.pend(Event::Reconnect, now);
    }

    fn spare(&mut self, now: u128)
        requires
            now <= LONGEST,
            old(self).sound(),
        ensures
            *final(self) == old(self).spared(now),
    {
        self.unhealthy();
        self.connect_at = None;
        self.check_at = now + YOUNG;
        self.cut_quiet_until = now + YOUNG;
        self.degradation.harder();
        self.forced = false;
    }

    /// The pause it earned, in seconds.
    fn failed(&mut self, now: u128) -> (r: Option<u64>)
        requires
            now <= LONGEST,
            old(self).failures < u32::MAX,
        ensures
            *final(self) == old(self).defeated(now),
            match r {
                None => pause(old(self).failures + 1) is None,
                Some(secs) => pause(old(self).failures + 1) == Some(secs as nat),
            },
    {
        self.unhealthy();
        self.failures = self.failures + 1;
        if self.failures < FAST_TRIES {
            self.connect_at = Some(now);
            return None;
        }
        let secs: u64 = if self.failures == FAST_TRIES {
            30
        } else if self.failures == FAST_TRIES + 1 {
            60
        } else {
            120
        };
        self.connect_at = Some(now + secs as u128 * SECOND);
        Some(secs)
    }
}

// ---------------------------------------------------------------------
// What a link writes and tells.
// ---------------------------------------------------------------------

/// A line for the journal, or a state for the resolver, which then moves
/// the routes of the rules and reloads pf.
#[derive(Debug)]
pub enum Act {
    Log(String),
    Tell(LinkState),
}

/// An act as a mathematical value.
pub enum Deed {
    Log(Seq<char>),
    Tell(crate::links::State),
}

impl Act {
    pub open spec fn view(&self) -> Deed {
        match self {
            Act::Log(s) => Deed::Log(s@),
            Act::Tell(s) => Deed::Tell(s@),
        }
    }
}

pub open spec fn deeds(v: Seq<Act>) -> Seq<Deed> {
    v.map_values(|a: Act| a@)
}

/// What to write and to tell, in order, and what to do then.
#[derive(Debug)]
pub struct Out {
    pub acts: Vec<Act>,
    pub after: Then,
}

pub struct Link {
    pub name: String,
    /// The server as the tunnel file names it, and its address when that is
    /// one.
    pub host: String,
    pub fixed: Option<Ipv4Addr>,
    pub run: Run,
    pub tunnel: Option<Iface>,
    /// The tunnel that was replaced, until it is down.
    pub retiring: Option<Iface>,
    pub network: Option<Network>,
    pub samples: Vec<Sample>,
    /// What the resolver was told last.
    pub published: LinkState,
}

/// A link as a mathematical value.
#[verifier::ext_equal]
pub struct Linked {
    pub name: Seq<char>,
    pub host: Seq<char>,
    pub fixed: Option<Ipv4Addr>,
    pub run: Run,
    pub tunnel: Option<(Seq<char>, u16)>,
    pub retiring: Option<(Seq<char>, u16)>,
    pub network: Option<crate::net::Place>,
    pub samples: Seq<Sample>,
    pub published: crate::links::State,
}

pub open spec fn iface_seen(i: Option<Iface>) -> Option<(Seq<char>, u16)> {
    match i {
        Some(i) => Some((i.name@, i.index)),
        None => None,
    }
}

pub open spec fn place_seen(n: Option<Network>) -> Option<crate::net::Place> {
    match n {
        Some(n) => Some(n@),
        None => None,
    }
}

impl Link {
    pub open spec fn view(&self) -> Linked {
        Linked {
            name: self.name@,
            host: self.host@,
            fixed: self.fixed,
            run: self.run,
            tunnel: iface_seen(self.tunnel),
            retiring: iface_seen(self.retiring),
            network: place_seen(self.network),
            samples: self.samples@,
            published: self.published@,
        }
    }
}

/// A line of the journal: the link it is of, then the event.
pub open spec fn line(name: Seq<char>, event: Seq<char>) -> Seq<char> {
    name + ": "@ + event
}

/// `utun4#17`.
pub open spec fn tunnel_shown(t: (Seq<char>, u16)) -> Seq<char> {
    t.0 + "#"@ + crate::text::decimal(t.1 as nat)
}

pub open spec fn millis(nanos: u128) -> Seq<char> {
    crate::text::decimal((nanos / MILLI) as nat) + "ms"@
}

/// A link together with what it has written and told in this call.
#[verifier::ext_equal]
pub struct Turn {
    pub link: Linked,
    pub acts: Seq<Deed>,
}

impl Linked {
    /// A tunnel that is not being connected is there.
    pub open spec fn sound(self) -> bool {
        &&& self.run.sound()
        &&& self.run.connect_at is None ==> self.tunnel is Some
    }

    /// What the resolver is told of it.
    pub open spec fn state(self) -> crate::links::State {
        crate::links::State {
            iface: self.tunnel,
            generation: self.run.generation,
            health: self.run.health,
            works: self.run.works is Some,
            since: self.run.since,
            endpoint: self.run.endpoint,
        }
    }

    /// A call begins: nothing written yet.
    pub open spec fn begins(self) -> Turn {
        Turn { link: self, acts: seq![] }
    }
}

impl Turn {
    /// An event is written.
    pub open spec fn says(self, event: Seq<char>) -> Turn {
        Turn { acts: self.acts.push(Deed::Log(line(self.link.name, event))), ..self }
    }

    /// The resolver is told, unless it knows.
    pub open spec fn synced(self) -> Turn {
        if self.link.state() == self.link.published {
            self
        } else {
            Turn {
                link: Linked { published: self.link.state(), ..self.link },
                acts: self.acts.push(Deed::Tell(self.link.state())),
            }
        }
    }

    pub open spec fn runs(self, run: Run) -> Turn {
        Turn { link: Linked { run, ..self.link }, ..self }
    }

    pub open spec fn run(self) -> Run {
        self.link.run
    }

    /// The tunnel is lost, for a reason.
    pub open spec fn loses(self, reason: Seq<char>, now: u128) -> Turn {
        self.says("lost "@ + reason).runs(self.run().gone(now))
    }

    /// A connect failed: the pause it earned is written. The one reconnect
    /// of a degraded tunnel is not followed by a row of them.
    pub open spec fn fails(self, now: u128) -> Turn {
        if self.run().forced && self.link.tunnel is Some {
            self.says("degraded: the reconnect did not help; tunnel kept"@).runs(
                self.run().spared(now),
            )
        } else {
            let t = self.runs(self.run().defeated(now));
            match pause(self.run().failures + 1) {
                None => t,
                Some(secs) => t.says("pause "@ + crate::text::decimal(secs) + "s"@),
            }
        }
    }

    /// What was pending is over; how long it took is written.
    pub open spec fn recovers(self, now: u128) -> Turn {
        match self.run().pending {
            None => self,
            Some((what, at)) => self.runs(Run { pending: None, ..self.run() }).says(
                "recovered "@ + what.shown() + " in "@ + millis(crate::degraded::since(at, now)),
            ),
        }
    }

    /// On another network.
    pub open spec fn follows(self, network: Option<crate::net::Place>, now: u128) -> Turn {
        Turn {
            link: Linked {
                network,
                run: self.run().moved(network is Some, now),
                ..self.link
            },
            ..self
        }
    }

    /// A probe was cut short by a network change: nothing learned about the
    /// tunnel, asked again on the new network.
    pub open spec fn aborts(self, next: Next, network: Option<crate::net::Place>, now: u128) -> Turn {
        self.says("check aborted: network changed"@).runs(
            Run { next, check_at: now, ..self.run() },
        ).follows(network, now)
    }
}

fn same_iface(a: &Option<Iface>, b: &Option<Iface>) -> (r: bool)
    ensures
        r == (iface_seen(*a) == iface_seen(*b)),
{
    match (a, b) {
        (Some(a), Some(b)) => same(a.name.as_str(), b.name.as_str()) && a.index == b.index,
        (None, None) => true,
        _ => false,
    }
}

fn same_state(a: &LinkState, b: &LinkState) -> (r: bool)
    ensures
        r == (a@ == b@),
{
    proof {
        assert(a@.iface == iface_seen(a.iface));
        assert(b@.iface == iface_seen(b.iface));
    }
    same_iface(&a.iface, &b.iface) && a.generation == b.generation && a.health == b.health
        && a.works == b.works && a.since == b.since && a.endpoint == b.endpoint
}

fn copy_iface(i: &Option<Iface>) -> (r: Option<Iface>)
    ensures
        iface_seen(r) == iface_seen(*i),
{
    match i {
        Some(i) => Some(Iface { name: i.name.clone(), index: i.index }),
        None => None,
    }
}

/// The same network, or none both.
pub fn same_network(a: &Option<Network>, b: &Option<Network>) -> (r: bool)
    ensures
        r == (place_seen(*a) == place_seen(*b)),
{
    match (a, b) {
        (Some(a), Some(b)) => a.same(b),
        (None, None) => true,
        _ => false,
    }
}

fn show_tunnel(i: &Iface) -> (r: String)
    ensures
        r@ == tunnel_shown((i.name@, i.index)),
{
    let mut s = i.name.clone();
    s.append("#");
    s.append(show(i.index as u128).as_str());
    s
}

fn show_millis(nanos: u128) -> (r: String)
    ensures
        r@ == millis(nanos),
{
    let mut s = show(nanos / MILLI);
    s.append("ms");
    s
}

impl Link {
    /// A turn so far: the link, and what it wrote and told.
    pub open spec fn turn(&self, acts: Seq<Act>) -> Turn {
        Turn { link: self@, acts: deeds(acts) }
    }

    /// A server written as an address is let out from the start; `grace` is
    /// how long a degraded tunnel is left alone.
    pub fn new(
        name: String,
        host: String,
        fixed: Option<Ipv4Addr>,
        network: Option<Network>,
        wakes: u64,
        grace: u128,
        now: u128,
    ) -> (r: Link)
        requires
            grace * GROWTH * 2 <= LONGEST,
        ensures
            r@.sound(),
            r@.name == name@,
            r@.host == host@,
            r@.fixed == fixed,
            r@.network == place_seen(network),
            r@.tunnel is None,
            r@.retiring is None,
            r@.samples == Seq::<Sample>::empty(),
            r@.published == (crate::links::State {
                iface: None,
                generation: 0,
                health: Health::Down,
                works: false,
                since: None,
                endpoint: None,
            }),
            r@.run == (Run {
                generation: 0,
                failures: 0,
                connect_at: Some(now),
                confirmed: None,
                fresh_until: now,
                check_at: now,
                cut_quiet_until: now,
                next: Next::Usual,
                offline: false,
                wakes,
                pending: Some((Event::Start, now)),
                works: None,
                health: Health::Down,
                since: None,
                pinged: false,
                endpoint: fixed,
                up_at: now,
                disturbed_at: now,
                rx: None,
                degradation: Degradation { grace, patience: grace, since: None },
                forced: false,
            }),
    {
        Link {
            name,
            host,
            fixed,
            run: Run {
                generation: 0,
                failures: 0,
                connect_at: Some(now),
                confirmed: None,
                fresh_until: now,
                check_at: now,
                cut_quiet_until: now,
                next: Next::Usual,
                offline: false,
                wakes,
                pending: Some((Event::Start, now)),
                works: None,
                health: Health::Down,
                since: None,
                pinged: false,
                endpoint: fixed,
                up_at: now,
                disturbed_at: now,
                rx: None,
                degradation: Degradation::new(grace),
                forced: false,
            },
            tunnel: None,
            retiring: None,
            network,
            samples: Vec::new(),
            published: LinkState::new(),
        }
    }

    fn log(&self, acts: &mut Vec<Act>, event: &str)
        ensures
            self.turn(final(acts)@) == self.turn(old(acts)@).says(event@),
    {
        let mut s = self.name.clone();
        s.append(": ");
        s.append(event);
        let ghost before = acts@;
        acts.push(Act::Log(s));
        proof {
            assert(deeds(acts@) =~= deeds(before).push(Deed::Log(line(self.name@, event@))));
        }
    }

    fn state(&self) -> (r: LinkState)
        ensures
            r@ == self@.state(),
    {
        LinkState {
            iface: copy_iface(&self.tunnel),
            generation: self.run.generation,
            health: self.run.health,
            works: self.run.works.is_some(),
            since: self.run.since,
            endpoint: self.run.endpoint,
        }
    }

    fn sync(&mut self, acts: &mut Vec<Act>)
        ensures
            final(self).turn(final(acts)@) == old(self).turn(old(acts)@).synced(),
    {
        let state = self.state();
        if same_state(&state, &self.published) {
            return;
        }
        let ghost before = acts@;
        let told = self.state();
        acts.push(Act::Tell(told));
        self.published = state;
        proof {
            assert(deeds(acts@) =~= deeds(before).push(Deed::Tell(old(self)@.state())));
        }
    }

    fn lose(&mut self, acts: &mut Vec<Act>, reason: &str, now: u128)
        ensures
            final(self).turn(final(acts)@) == old(self).turn(old(acts)@).loses(reason@, now),
    {
        let mut s = String::from_str("lost ");
        s.append(reason);
        self.log(acts, s.as_str());
        self.run.lost(now);
    }

    fn fail(&mut self, acts: &mut Vec<Act>, now: u128)
        requires
            now <= LONGEST,
            old(self).run.failures < u32::MAX,
            old(self).run.sound(),
        ensures
            final(self).turn(final(acts)@) == old(self).turn(old(acts)@).fails(now),
    {
        if self.run.forced && self.tunnel.is_some() {
            self.log(acts, "degraded: the reconnect did not help; tunnel kept");
            self.run.spare(now);
            return;
        }
        let pause = self.run.failed(now);
        if let Some(secs) = pause {
            let mut s = String::from_str("pause ");
            s.append(show(secs as u128).as_str());
            s.append("s");
            self.log(acts, s.as_str());
        }
    }

    fn recovered(&mut self, acts: &mut Vec<Act>, now: u128)
        ensures
            final(self).turn(final(acts)@) == old(self).turn(old(acts)@).recovers(now),
    {
        if let Some((what, at)) = self.run.pending {
            self.run.pending = None;
            let mut s = String::from_str("recovered ");
            s.append(what.name());
            s.append(" in ");
            s.append(show_millis(elapsed(at, now)).as_str());
            self.log(acts, s.as_str());
        }
    }

    fn follow_network(&mut self, network: Option<Network>, now: u128)
        requires
            now <= LONGEST,
        ensures
            forall|acts: Seq<Act>| #[trigger]
                final(self).turn(acts) == old(self).turn(acts).follows(place_seen(network), now),
    {
        let online = network.is_some();
        self.network = network;
        self.run.follow(online, now);
    }

    fn abort(&mut self, acts: &mut Vec<Act>, next: Next, network: Option<Network>, now: u128)
        requires
            now <= LONGEST,
        ensures
            final(self).turn(final(acts)@) == old(self).turn(old(acts)@).aborts(
                next,
                place_seen(network),
                now,
            ),
    {
        self.log(acts, "check aborted: network changed");
        self.run.next = next;
        self.run.check_at = now;
        self.follow_network(network, now);
        proof {
            let _ = self.turn(acts@);
        }
    }
}

// ---------------------------------------------------------------------
// A step of the watch.
// ---------------------------------------------------------------------

/// The newest sample that is at least a window old, and those after it.
pub open spec fn recent(s: Seq<Sample>, now: u128) -> Seq<Sample>
    decreases s.len(),
{
    if s.len() > 1 && crate::degraded::since(s[1].at, now) >= CUT_WINDOW {
        recent(s.drop_first(), now)
    } else {
        s
    }
}

/// Over a window packets went out and none came back.
pub open spec fn cut(s: Seq<Sample>, now: u128) -> bool {
    &&& s.len() > 0
    &&& crate::degraded::since(s[0].at, now) >= CUT_WINDOW
    &&& s.last().rx == s[0].rx
    &&& s.last().tx - s[0].tx >= CUT_PACKETS
}

impl Turn {
    /// Nothing more to do in this step.
    pub open spec fn rests(self) -> (Turn, Then) {
        (self.synced(), Then::Rest)
    }

    /// A check begins: the next is due soon while the tunnel is fresh.
    pub open spec fn checks(self, now: u128) -> (Turn, Then) {
        let fresh = now < self.run().fresh_until;
        let next = self.run().next;
        let check_at = (now + if fresh {
            FAST
        } else {
            SLOW
        }) as u128;
        if self.link.tunnel is None {
            self.runs(Run { check_at, works: None, ..self.run() }).loses(
                "no tunnel"@,
                now,
            ).rests()
        } else {
            (
                Turn {
                    link: Linked {
                        run: Run { check_at, next: Next::Usual, ..self.run() },
                        samples: seq![],
                        ..self.link
                    },
                    ..self
                },
                Then::Ping(Check { next, fresh, start: now }),
            )
        }
    }

    /// What is due: a connect, a check, or nothing.
    pub open spec fn proceeds(self, now: u128) -> (Turn, Then) {
        match self.run().connect_at {
            Some(at) => if now >= at {
                (self, Then::Number)
            } else {
                self.rests()
            },
            None => if now >= self.run().check_at {
                self.checks(now)
            } else {
                self.rests()
            },
        }
    }

    /// Whether the counters are looked at: not while a connect is due, nor
    /// when the next check knows something already.
    pub open spec fn watches(self, now: u128) -> (Turn, Then) {
        let r = self.run();
        if r.connect_at is None && r.next == Next::Usual && now >= r.cut_quiet_until
            && self.link.tunnel is Some {
            (self, Then::ReadCounters)
        } else {
            self.proceeds(now)
        }
    }

    /// What the counters say.
    pub open spec fn counts(self, c: Option<Counters>, now: u128) -> (Turn, Then) {
        match c {
            None => self.proceeds(now),
            Some(c) => {
                let samples = recent(
                    self.link.samples.push(Sample { at: now, rx: c.rx_packets, tx: c.tx_packets }),
                    now,
                );
                let t = Turn { link: Linked { samples, ..self.link }, ..self };
                if cut(samples, now) {
                    t.says("cut suspected: sent without reply for 4s"@).runs(
                        Run {
                            next: Next::Cut,
                            check_at: now,
                            rx: Some(c.rx_bytes),
                            ..self.run()
                        },
                    ).proceeds(now)
                } else if self.run().rx is None {
                    t.runs(Run { rx: Some(c.rx_bytes), ..self.run() }).proceeds(now)
                } else {
                    t.proceeds(now)
                }
            },
        }
    }

    /// The tunnel is down, for a reason, and the resolver knows.
    pub open spec fn downed(self, why: Why) -> Turn {
        let t = match self.link.tunnel {
            Some(i) => self.says("down "@ + tunnel_shown(i) + ": "@ + why.shown()),
            None => self,
        };
        Turn {
            link: Linked {
                tunnel: None,
                run: Run { confirmed: None, ..self.run().ailing() },
                ..self.link
            },
            ..t
        }.synced()
    }

    /// After a tunnel went down.
    pub open spec fn leaves(self, why: Why, now: u128) -> (Turn, Then) {
        let t = self.downed(why);
        match why {
            Why::Stop => (t, Then::Done),
            Why::NoRule => t.idles(now),
        }
    }

    /// No rule takes it: a connect is due when one does.
    pub open spec fn idles(self, now: u128) -> (Turn, Then) {
        self.runs(
            Run { connect_at: Some(now), failures: 0, works: None, forced: false, ..self.run() },
        ).rests()
    }

    /// What is left of a tunnel whose process exited is gone.
    pub open spec fn drops(self, now: u128) -> (Turn, Then) {
        let t = Turn {
            link: Linked { tunnel: None, run: Run { forced: false, ..self.run() }, ..self.link },
            ..self
        };
        let t = if self.run().connect_at is None {
            t.loses("process exited"@, now)
        } else {
            t
        };
        t.synced().watches(now)
    }

    /// A wake that was not seen yet, and a network that changed.
    pub open spec fn hears(self, ctl: Ctl, network: Option<crate::net::Place>, now: u128) -> Turn {
        let t = if ctl.wakes != self.run().wakes {
            self.runs(Run { wakes: ctl.wakes, ..self.run() }.woken(now))
        } else {
            self
        };
        if network != self.link.network {
            t.follows(network, now)
        } else {
            t
        }
    }

    pub open spec fn steps(
        self,
        ctl: Ctl,
        network: Option<crate::net::Place>,
        exited: bool,
        now: u128,
    ) -> (Turn, Then) {
        if ctl.stop {
            if self.link.tunnel is Some {
                (self, Then::TakeDown(Why::Stop))
            } else {
                self.leaves(Why::Stop, now)
            }
        } else {
            let t = self.hears(ctl, network, now);
            if !ctl.wanted {
                if t.link.tunnel is Some {
                    (t, Then::TakeDown(Why::NoRule))
                } else {
                    t.idles(now)
                }
            } else if t.link.tunnel is Some && exited {
                (t, Then::DropDead)
            } else {
                t.watches(now)
            }
        }
    }
}

impl Link {
    /// What a call comes to.
    pub open spec fn gives(&self, o: Out) -> (Turn, Then) {
        (self.turn(o.acts@), o.after)
    }

    fn rest(&mut self, acts: Vec<Act>) -> (r: Out)
        ensures
            final(self).gives(r) == old(self).turn(acts@).rests(),
    {
        let mut acts = acts;
        self.sync(&mut acts);
        Out { acts, after: Then::Rest }
    }

    fn check(&mut self, acts: Vec<Act>, now: u128) -> (r: Out)
        requires
            now <= LONGEST,
        ensures
            final(self).gives(r) == old(self).turn(acts@).checks(now),
    {
        let fresh = now < self.run.fresh_until;
        self.run.check_at = now + if fresh {
            FAST
        } else {
            SLOW
        };
        let mut acts = acts;
        if self.tunnel.is_none() {
            self.run.works = None;
            self.lose(&mut acts, "no tunnel", now);
            return self.rest(acts);
        }
        let next = self.run.next;
        self.run.next = Next::Usual;
        // After the probe below nothing sent before it counts: a new window.
        self.samples = Vec::new();
        proof {
            assert(self.samples@ =~= seq![]);
        }
        Out { acts, after: Then::Ping(Check { next, fresh, start: now }) }
    }

    fn proceed(&mut self, acts: Vec<Act>, now: u128) -> (r: Out)
        requires
            now <= LONGEST,
        ensures
            final(self).gives(r) == old(self).turn(acts@).proceeds(now),
    {
        match self.run.connect_at {
            Some(at) => if now >= at {
                Out { acts, after: Then::Number }
            } else {
                self.rest(acts)
            },
            None => if now >= self.run.check_at {
                self.check(acts, now)
            } else {
                self.rest(acts)
            },
        }
    }

    fn watch(&mut self, acts: Vec<Act>, now: u128) -> (r: Out)
        requires
            now <= LONGEST,
        ensures
            final(self).gives(r) == old(self).turn(acts@).watches(now),
    {
        if self.run.connect_at.is_none() && self.run.next == Next::Usual && now
            >= self.run.cut_quiet_until && self.tunnel.is_some() {
            Out { acts, after: Then::ReadCounters }
        } else {
            self.proceed(acts, now)
        }
    }

    /// Takes in a reading of the counters; true when over the last window
    /// packets went out and none came back.
    fn cut_seen(&mut self, c: Counters, now: u128) -> (r: bool)
        ensures
            final(self)@ == (Linked {
                samples: recent(
                    old(self).samples@.push(
                        Sample { at: now, rx: c.rx_packets, tx: c.tx_packets },
                    ),
                    now,
                ),
                ..old(self)@
            }),
            r == cut(final(self).samples@, now),
    {
        self.samples.push(Sample { at: now, rx: c.rx_packets, tx: c.tx_packets });
        let ghost all = self.samples@;
        while self.samples.len() > 1 && elapsed(self.samples[1].at, now) >= CUT_WINDOW
            invariant
                self.samples@.len() > 0,
                self.samples@.last() == (Sample { at: now, rx: c.rx_packets, tx: c.tx_packets }),
                recent(self.samples@, now) == recent(all, now),
                self@ == (Linked { samples: self.samples@, ..old(self)@ }),
            decreases self.samples@.len(),
        {
            let ghost before = self.samples@;
            self.samples.remove(0);
            proof {
                assert(self.samples@ =~= before.drop_first());
            }
        }
        let first = self.samples[0];
        elapsed(first.at, now) >= CUT_WINDOW && c.rx_packets == first.rx && c.tx_packets >= first.tx
            && c.tx_packets - first.tx >= CUT_PACKETS
    }

    /// The counters of the tunnel as they are now; none when they could not
    /// be read.
    pub fn counted(&mut self, c: Option<Counters>, now: u128) -> (r: Out)
        requires
            now <= LONGEST,
            old(self)@.sound(),
        ensures
            final(self)@.sound(),
            final(self).gives(r) == old(self)@.begins().counts(c, now),
    {
        let mut acts: Vec<Act> = Vec::new();
        proof {
            assert(deeds(acts@) =~= seq![]);
        }
        if let Some(c) = c {
            if self.cut_seen(c, now) {
                self.log(&mut acts, "cut suspected: sent without reply for 4s");
                self.run.next = Next::Cut;
                self.run.check_at = now;
                self.run.rx = Some(c.rx_bytes);
            } else if self.run.rx.is_none() {
                self.run.rx = Some(c.rx_bytes);
            }
        }
        self.proceed(acts, now)
    }

    fn went(&mut self, acts: &mut Vec<Act>, why: Why)
        ensures
            final(self).turn(final(acts)@) == old(self).turn(old(acts)@).downed(why),
    {
        if let Some(i) = &self.tunnel {
            let mut s = String::from_str("down ");
            s.append(show_tunnel(i).as_str());
            s.append(": ");
            s.append(why.text());
            self.log(acts, s.as_str());
        }
        self.tunnel = None;
        self.run.unhealthy();
        self.run.confirmed = None;
        self.sync(acts);
    }

    fn idle(&mut self, acts: Vec<Act>, now: u128) -> (r: Out)
        ensures
            final(self).gives(r) == old(self).turn(acts@).idles(now),
    {
        self.run.connect_at = Some(now);
        self.run.failures = 0;
        self.run.works = None;
        self.run.forced = false;
        self.rest(acts)
    }

    /// The tunnel is down.
    pub fn went_down(&mut self, why: Why, now: u128) -> (r: Out)
        requires
            old(self)@.sound(),
        ensures
            r.after is Done || final(self)@.sound(),
            final(self).gives(r) == old(self)@.begins().leaves(why, now),
    {
        let mut acts: Vec<Act> = Vec::new();
        proof {
            assert(deeds(acts@) =~= seq![]);
        }
        self.went(&mut acts, why);
        match why {
            Why::Stop => Out { acts, after: Then::Done },
            Why::NoRule => self.idle(acts, now),
        }
    }

    /// What was left of the tunnel whose process exited is cleared away.
    /// Nothing to hand over: the kernel drops the routes with the
    /// interface, and a new tunnel may reuse its name.
    pub fn dropped(&mut self, now: u128) -> (r: Out)
        requires
            now <= LONGEST,
            old(self)@.sound(),
        ensures
            final(self)@.sound(),
            final(self).gives(r) == old(self)@.begins().drops(now),
    {
        let mut acts: Vec<Act> = Vec::new();
        proof {
            assert(deeds(acts@) =~= seq![]);
        }
        self.tunnel = None;
        self.run.forced = false;
        if self.run.connect_at.is_none() {
            self.lose(&mut acts, "process exited", now);
        }
        self.sync(&mut acts);
        self.watch(acts, now)
    }

    /// A tick, or a change of what the watch says or of the network;
    /// `exited` when the process of the tunnel is gone.
    #[verifier::rlimit(60)]
    pub fn step(
        &mut self,
        ctl: Ctl,
        network: Option<Network>,
        exited: bool,
        now: u128,
    ) -> (r: Out)
        requires
            now <= LONGEST,
            old(self)@.sound(),
        ensures
            r.after is Done || final(self)@.sound(),
            final(self).gives(r) == old(self)@.begins().steps(
                ctl,
                place_seen(network),
                exited,
                now,
            ),
    {
        let acts: Vec<Act> = Vec::new();
        proof {
            assert(deeds(acts@) =~= seq![]);
        }
        if ctl.stop {
            if self.tunnel.is_some() {
                return Out { acts, after: Then::TakeDown(Why::Stop) };
            }
            let mut acts = acts;
            self.went(&mut acts, Why::Stop);
            return Out { acts, after: Then::Done };
        }
        if ctl.wakes != self.run.wakes {
            self.run.wakes = ctl.wakes;
            self.run.woke(now);
        }
        if !same_network(&network, &self.network) {
            self.follow_network(network, now);
        }
        proof {
            assert(self.turn(acts@) == old(self)@.begins().hears(ctl, place_seen(network), now));
        }
        if !ctl.wanted {
            if self.tunnel.is_some() {
                return Out { acts, after: Then::TakeDown(Why::NoRule) };
            }
            return self.idle(acts, now);
        }
        if self.tunnel.is_some() && exited {
            return Out { acts, after: Then::DropDead };
        }
        self.watch(acts, now)
    }
}

// ---------------------------------------------------------------------
// A connect.
// ---------------------------------------------------------------------

/// The port as the journal shows it.
pub open spec fn port_shown(port: Option<u16>) -> Seq<char> {
    match port {
        Some(p) => crate::text::decimal(p as nat),
        None => "?"@,
    }
}

/// The handshake and the counters of a tunnel, for the journal.
pub open spec fn look_shown(handshake: Option<u64>, c: Option<Counters>) -> Seq<char> {
    "handshake="@ + (match handshake {
        Some(s) => crate::text::decimal(s as nat) + "s"@,
        None => "none"@,
    }) + " "@ + (match c {
        Some(c) => "rx="@ + crate::text::decimal(c.rx_bytes as nat) + " tx="@
            + crate::text::decimal(c.tx_bytes as nat),
        None => "?"@,
    })
}

impl Turn {
    /// The server is known, and let out before the first packet to it.
    pub open spec fn raises(self, endpoint: Ipv4Addr, start: u128) -> (Turn, Then) {
        (
            self.runs(Run { endpoint: Some(endpoint), ..self.run() }).synced(),
            Then::Raise { endpoint, start },
        )
    }

    /// A connect begins: with the address of the tunnel file, else with one
    /// that the network DNS is asked for.
    pub open spec fn connects(self, generation: u32, now: u128) -> (Turn, Then) {
        let t = self.runs(Run { generation, ..self.run() }).says(
            "connect attempt="@ + crate::text::decimal((self.run().failures + 1) as nat),
        );
        match self.link.fixed {
            Some(ip) => t.raises(ip, now),
            None => if self.link.network is None {
                t.says("connect-fail endpoint: no network"@).fails(now).rests()
            } else {
                (t, Then::Resolve { start: now })
            },
        }
    }

    pub open spec fn resolves(
        self,
        got: Result<Ipv4Addr, Seq<char>>,
        start: u128,
        now: u128,
    ) -> (Turn, Then) {
        match got {
            Ok(ip) => self.raises(ip, start),
            Err(e) => self.says("connect-fail endpoint: "@ + e).fails(now).rests(),
        }
    }

    /// The new tunnel is there: it has the routes before the old one goes.
    pub open spec fn takes(
        self,
        got: Result<((Seq<char>, u16), Option<u16>), Seq<char>>,
        endpoint: Ipv4Addr,
        start: u128,
        now: u128,
    ) -> (Turn, Then) {
        match got {
            Err(e) => self.says("connect-fail "@ + e).fails(now).rests(),
            Ok((iface, port)) => {
                let t = self.says(
                    "up "@ + tunnel_shown(iface) + " endpoint="@ + endpoint.shown() + " port="@
                        + port_shown(port) + " in "@ + millis(crate::degraded::since(start, now)),
                );
                let t = Turn {
                    link: Linked {
                        tunnel: Some(iface),
                        retiring: self.link.tunnel,
                        run: Run { pinged: false, up_at: now, rx: None, ..self.run().ailing() },
                        ..t.link
                    },
                    ..t
                }.synced();
                if self.link.tunnel is Some {
                    (t, Then::Retire)
                } else {
                    (t, Then::Confirm { start: now })
                }
            },
        }
    }

    /// The old one is down.
    pub open spec fn retires(self, now: u128) -> (Turn, Then) {
        let t = match self.link.retiring {
            Some(i) => self.says("down "@ + tunnel_shown(i)),
            None => self,
        };
        (Turn { link: Linked { retiring: None, ..t.link }, ..t }, Then::Confirm { start: now })
    }

    pub open spec fn confirms(
        self,
        got: Tried,
        network: Option<crate::net::Place>,
        start: u128,
        now: u128,
    ) -> (Turn, Then) {
        match got {
            Tried::Yes => {
                let t = self.says("confirm "@ + millis(crate::degraded::since(start, now)));
                Turn {
                    link: Linked {
                        samples: seq![],
                        run: Run {
                            connect_at: None,
                            confirmed: Some(now),
                            next: Next::Usual,
                            offline: false,
                            works: None,
                            degradation: self.run().degradation.whole(),
                            forced: false,
                            ..self.run().carries(now)
                        },
                        ..t.link
                    },
                    ..t
                }.recovers(now).rests()
            },
            Tried::No => (self, Then::LookAt),
            // Not this tunnel's failure: the next one goes out on the new
            // network.
            Tried::Moved => self.says("confirm aborted: network changed"@).runs(
                Run { connect_at: Some(now), ..self.run() },
            ).follows(network, now).rests(),
        }
    }

    /// No handshake: the packets are lost on the way; one and no TLS: the
    /// data is.
    pub open spec fn looks(
        self,
        handshake: Option<u64>,
        c: Option<Counters>,
        now: u128,
    ) -> (Turn, Then) {
        self.says(
            "confirm-fail "@ + if self.link.tunnel is Some {
                look_shown(handshake, c)
            } else {
                "no tunnel"@
            },
        ).fails(now).rests()
    }
}

/// What came of starting amneziawg-go: its interface, and the port it
/// sends from, or why it failed.
pub open spec fn raised_seen(
    got: Result<(Iface, Option<u16>), String>,
) -> Result<((Seq<char>, u16), Option<u16>), Seq<char>> {
    match got {
        Ok((i, port)) => Ok(((i.name@, i.index), port)),
        Err(e) => Err(e@),
    }
}

pub open spec fn resolved_seen(got: Result<Ipv4Addr, String>) -> Result<Ipv4Addr, Seq<char>> {
    match got {
        Ok(ip) => Ok(ip),
        Err(e) => Err(e@),
    }
}

fn show_look(handshake: Option<u64>, c: Option<Counters>) -> (r: String)
    ensures
        r@ == look_shown(handshake, c),
{
    let mut s = String::from_str("handshake=");
    match handshake {
        Some(n) => {
            s.append(show(n as u128).as_str());
            s.append("s");
        },
        None => s.append("none"),
    }
    s.append(" ");
    match c {
        Some(c) => {
            s.append("rx=");
            s.append(show(c.rx_bytes as u128).as_str());
            s.append(" tx=");
            s.append(show(c.tx_bytes as u128).as_str());
        },
        None => s.append("?"),
    }
    proof {
        assert(s@ =~= look_shown(handshake, c));
    }
    s
}

impl Link {
    fn raise(&mut self, acts: Vec<Act>, endpoint: Ipv4Addr, start: u128) -> (r: Out)
        ensures
            final(self).gives(r) == old(self).turn(acts@).raises(endpoint, start),
    {
        self.run.endpoint = Some(endpoint);
        let mut acts = acts;
        self.sync(&mut acts);
        Out { acts, after: Then::Raise { endpoint, start } }
    }

    fn fail_and_rest(&mut self, acts: Vec<Act>, why: &str, now: u128) -> (r: Out)
        requires
            now <= LONGEST,
            old(self).run.failures < u32::MAX,
            old(self).run.sound(),
        ensures
            final(self).gives(r) == old(self).turn(acts@).says(why@).fails(now).rests(),
    {
        let mut acts = acts;
        self.log(&mut acts, why);
        self.fail(&mut acts, now);
        self.rest(acts)
    }

    /// A connect, of this generation.
    pub fn connect(&mut self, generation: u32, now: u128) -> (r: Out)
        requires
            now <= LONGEST,
            old(self)@.sound(),
            old(self).run.failures < u32::MAX,
        ensures
            final(self)@.sound(),
            final(self).gives(r) == old(self)@.begins().connects(generation, now),
    {
        let mut acts: Vec<Act> = Vec::new();
        proof {
            assert(deeds(acts@) =~= seq![]);
        }
        self.run.generation = generation;
        let mut s = String::from_str("connect attempt=");
        s.append(show((self.run.failures + 1) as u128).as_str());
        self.log(&mut acts, s.as_str());
        if let Some(ip) = self.fixed {
            return self.raise(acts, ip, now);
        }
        if self.network.is_none() {
            return self.fail_and_rest(acts, "connect-fail endpoint: no network", now);
        }
        Out { acts, after: Then::Resolve { start: now } }
    }

    /// The server as the network DNS gave it, or why it did not.
    pub fn resolved(&mut self, got: Result<Ipv4Addr, String>, start: u128, now: u128) -> (r: Out)
        requires
            now <= LONGEST,
            old(self)@.sound(),
            old(self).run.failures < u32::MAX,
        ensures
            final(self)@.sound(),
            final(self).gives(r) == old(self)@.begins().resolves(resolved_seen(got), start, now),
    {
        let acts: Vec<Act> = Vec::new();
        proof {
            assert(deeds(acts@) =~= seq![]);
        }
        match got {
            Ok(ip) => self.raise(acts, ip, start),
            Err(e) => {
                let mut s = String::from_str("connect-fail endpoint: ");
                s.append(e.as_str());
                self.fail_and_rest(acts, s.as_str(), now)
            },
        }
    }

    /// The new tunnel, up and configured, or why it is not.
    pub fn raised(
        &mut self,
        got: Result<(Iface, Option<u16>), String>,
        endpoint: Ipv4Addr,
        start: u128,
        now: u128,
    ) -> (r: Out)
        requires
            now <= LONGEST,
            old(self)@.sound(),
            old(self).run.failures < u32::MAX,
        ensures
            final(self)@.sound(),
            final(self).gives(r) == old(self)@.begins().takes(
                raised_seen(got),
                endpoint,
                start,
                now,
            ),
    {
        let mut acts: Vec<Act> = Vec::new();
        proof {
            assert(deeds(acts@) =~= seq![]);
        }
        match got {
            Err(e) => {
                let mut s = String::from_str("connect-fail ");
                s.append(e.as_str());
                self.fail_and_rest(acts, s.as_str(), now)
            },
            Ok((iface, port)) => {
                let mut s = String::from_str("up ");
                s.append(show_tunnel(&iface).as_str());
                s.append(" endpoint=");
                s.append(endpoint.to_string().as_str());
                s.append(" port=");
                match port {
                    Some(p) => s.append(show(p as u128).as_str()),
                    None => s.append("?"),
                }
                s.append(" in ");
                s.append(show_millis(elapsed(start, now)).as_str());
                self.log(&mut acts, s.as_str());
                let replaced = self.tunnel.is_some();
                self.retiring = self.tunnel.take();
                self.tunnel = Some(iface);
                self.run.unhealthy();
                self.run.pinged = false;
                self.run.up_at = now;
                self.run.rx = None;
                self.sync(&mut acts);
                if replaced {
                    Out { acts, after: Then::Retire }
                } else {
                    Out { acts, after: Then::Confirm { start: now } }
                }
            },
        }
    }

    /// The tunnel that was replaced is down.
    pub fn retired(&mut self, now: u128) -> (r: Out)
        requires
            old(self)@.sound(),
        ensures
            final(self)@.sound(),
            final(self).gives(r) == old(self)@.begins().retires(now),
    {
        let mut acts: Vec<Act> = Vec::new();
        proof {
            assert(deeds(acts@) =~= seq![]);
        }
        if let Some(i) = &self.retiring {
            let mut s = String::from_str("down ");
            s.append(show_tunnel(i).as_str());
            self.log(&mut acts, s.as_str());
        }
        self.retiring = None;
        Out { acts, after: Then::Confirm { start: now } }
    }

    /// What came of the TLS through the new tunnel, and the network now.
    pub fn confirmed(
        &mut self,
        got: Tried,
        network: Option<Network>,
        start: u128,
        now: u128,
    ) -> (r: Out)
        requires
            now <= LONGEST,
            old(self)@.sound(),
            old(self)@.tunnel is Some,
        ensures
            final(self)@.sound(),
            final(self).gives(r) == old(self)@.begins().confirms(
                got,
                place_seen(network),
                start,
                now,
            ),
    {
        let mut acts: Vec<Act> = Vec::new();
        proof {
            assert(deeds(acts@) =~= seq![]);
        }
        match got {
            Tried::Yes => {
                let mut s = String::from_str("confirm ");
                s.append(show_millis(elapsed(start, now)).as_str());
                self.log(&mut acts, s.as_str());
                self.run.connect_at = None;
                self.run.confirmed = Some(now);
                self.run.healthy(now);
                self.samples = Vec::new();
                self.run.next = Next::Usual;
                self.run.offline = false;
                self.run.works = None;
                self.run.degradation.passed();
                self.run.forced = false;
                proof {
                    assert(self.samples@ =~= seq![]);
                }
                self.recovered(&mut acts, now);
                self.rest(acts)
            },
            Tried::No => Out { acts, after: Then::LookAt },
            Tried::Moved => {
                self.log(&mut acts, "confirm aborted: network changed");
                self.run.connect_at = Some(now);
                self.follow_network(network, now);
                proof {
                    let _ = self.turn(acts@);
                }
                self.rest(acts)
            },
        }
    }

    /// What the tunnel that was not confirmed says of itself.
    pub fn looked(&mut self, handshake: Option<u64>, c: Option<Counters>, now: u128) -> (r: Out)
        requires
            now <= LONGEST,
            old(self)@.sound(),
            old(self).run.failures < u32::MAX,
        ensures
            final(self)@.sound(),
            final(self).gives(r) == old(self)@.begins().looks(handshake, c, now),
    {
        let acts: Vec<Act> = Vec::new();
        proof {
            assert(deeds(acts@) =~= seq![]);
        }
        let mut s = String::from_str("confirm-fail ");
        if self.tunnel.is_some() {
            s.append(show_look(handshake, c).as_str());
        } else {
            s.append("no tunnel");
        }
        self.fail_and_rest(acts, s.as_str(), now)
    }
}

// ---------------------------------------------------------------------
// A check.
// ---------------------------------------------------------------------

/// What is written of a check.
pub open spec fn report(found: Found, next: Next) -> Seq<char> {
    match found {
        Found::Ping(rtt) => "check ping "@ + millis(rtt),
        Found::Tls(took) => "check tls "@ + millis(took) + ", ping failed"@,
        Found::Nothing => match next {
            Next::Cut => "check cut: sent without reply, ping failed"@,
            Next::Woke => "check fail: ping after wake"@,
            Next::Usual => "check fail: ping and tls"@,
        },
    }
}

impl Turn {
    /// The tunnel carries.
    #[verifier::opaque]
    pub open spec fn passes(self, check: Check, now: u128) -> (Turn, Then) {
        let quiet = if check.next == Next::Cut {
            self.run().check_at
        } else {
            self.run().cut_quiet_until
        };
        let t = self.runs(
            Run {
                cut_quiet_until: quiet,
                // One that its reconnect left unconfirmed is confirmed now.
                confirmed: match self.run().confirmed {
                    Some(c) => Some(c),
                    None => Some(now),
                },
                rx: None,
                degradation: self.run().degradation.whole(),
                ..self.run().carries(now)
            },
        );
        let t = if t.run().offline {
            t.runs(Run { offline: false, ..t.run() }).says("online"@)
        } else {
            t
        };
        let stood = match t.run().confirmed {
            Some(c) => crate::degraded::since(c, now) >= STABLE,
            None => false,
        };
        let t = if t.run().failures > 0 && stood {
            t.runs(Run { failures: 0, ..t.run() }).says("stable"@)
        } else {
            t
        };
        t.recovers(now).rests()
    }

    /// Whatever this check finds is a reason of its own, or none. Where it
    /// finds nothing, a tunnel that is not young is asked what it says of
    /// itself.
    #[verifier::opaque]
    pub open spec fn concludes(self, found: Found, check: Check, now: u128) -> (Turn, Then) {
        let t = self.runs(Run { works: None, ..self.run() }).says(report(found, check.next));
        if found != Found::Nothing {
            t.passes(check, now)
        } else if t.link.tunnel is Some && t.run().age(now) >= YOUNG {
            (t, Then::Weigh(check))
        } else {
            t.sinks(check, now)
        }
    }

    /// A tunnel of which nothing says that it carries: the rules leave it
    /// before the probe past it.
    #[verifier::opaque]
    pub open spec fn sinks(self, check: Check, now: u128) -> (Turn, Then) {
        let r = self.run();
        let t = self.runs(
            Run { degradation: r.degradation.after(Verdict::Down, now), ..r.ailing() },
        ).synced();
        if t.link.network is Some {
            (t, Then::DirectPing(check))
        } else {
            t.sees(false, check, now)
        }
    }

    /// What a tunnel through which no probe gets says of itself: nothing,
    /// or that it carries, and then it is left alone while the patience
    /// lasts.
    #[verifier::opaque]
    pub open spec fn weighs(
        self,
        check: Check,
        handshake: Option<u64>,
        c: Option<Counters>,
        now: u128,
    ) -> (Turn, Then) {
        let r = self.run();
        let verdict = r.degradation.verdict(now, r.speaks(handshake, c, now));
        let t = self.runs(
            Run {
                degradation: r.degradation.after(verdict, now),
                rx: match c {
                    Some(c) => Some(c.rx_bytes),
                    None => None,
                },
                ..r
            },
        );
        match verdict {
            Verdict::Down => t.sinks(check, now),
            Verdict::Left(_) => {
                let t = if r.health == Health::Degraded {
                    t
                } else {
                    t.says("degraded: no probe gets through, the peer answers; tunnel kept"@)
                };
                t.runs(t.run().limps()).rests()
            },
            Verdict::Restart => {
                let t = t.loses("degraded"@, now);
                t.runs(Run { forced: true, ..t.run() }).rests()
            },
        }
    }

    /// Whether there is an internet past the tunnel. With one, the tunnel
    /// is to blame; without one, it is kept.
    #[verifier::opaque]
    pub open spec fn sees(self, direct: bool, check: Check, now: u128) -> (Turn, Then) {
        if direct {
            self.loses(
                if check.next == Next::Cut {
                    "cut"@
                } else {
                    "dead"@
                },
                now,
            ).rests()
        } else if !self.run().offline {
            self.runs(Run { offline: true, ..self.run() }).says(
                "offline: nothing past the tunnel either; tunnel kept"@,
            ).rests()
        } else {
            self.rests()
        }
    }

    /// After the ping.
    pub open spec fn pings(
        self,
        check: Check,
        got: Pinged,
        network: Option<crate::net::Place>,
        now: u128,
    ) -> (Turn, Then) {
        match got {
            Pinged::Moved => self.aborts(check.next, network, now).rests(),
            Pinged::Replied(rtt) => self.runs(Run { pinged: true, ..self.run() }).concludes(
                Found::Ping(rtt),
                check,
                now,
            ),
            Pinged::Silent => if check.next == Next::Usual {
                // A rule may go to its next tunnel while TLS tells.
                let t = if self.run().pinged && self.run().health == Health::Up {
                    self.says("suspect: ping failed, tls next"@).runs(
                        Run { health: Health::Suspect, since: None, ..self.run() },
                    ).synced()
                } else {
                    self
                };
                (t, Then::Tls(check))
            } else {
                self.concludes(Found::Nothing, check, now)
            },
        }
    }

    /// After the TLS try.
    pub open spec fn tries(
        self,
        check: Check,
        got: Tried,
        network: Option<crate::net::Place>,
        now: u128,
    ) -> (Turn, Then) {
        match got {
            Tried::Moved => self.aborts(check.next, network, now).rests(),
            Tried::Yes => self.concludes(
                Found::Tls(crate::degraded::since(check.start, now)),
                check,
                now,
            ),
            Tried::No => self.concludes(Found::Nothing, check, now),
        }
    }

    /// After the ping past the tunnel.
    pub open spec fn direct_pings(
        self,
        check: Check,
        got: Pinged,
        network: Option<crate::net::Place>,
        now: u128,
    ) -> (Turn, Then) {
        match got {
            Pinged::Moved => self.aborts(Next::Usual, network, now).rests(),
            Pinged::Replied(_) => self.sees(true, check, now),
            Pinged::Silent => (self, Then::DirectTls(check)),
        }
    }

    /// After the TLS try past the tunnel.
    pub open spec fn direct_tries(
        self,
        check: Check,
        got: Tried,
        network: Option<crate::net::Place>,
        now: u128,
    ) -> (Turn, Then) {
        match got {
            Tried::Moved => self.aborts(Next::Usual, network, now).rests(),
            Tried::Yes => self.sees(true, check, now),
            Tried::No => self.sees(false, check, now),
        }
    }
}

fn show_report(found: Found, next: Next) -> (r: String)
    ensures
        r@ == report(found, next),
{
    match found {
        Found::Ping(rtt) => {
            let mut s = String::from_str("check ping ");
            s.append(show_millis(rtt).as_str());
            s
        },
        Found::Tls(took) => {
            let mut s = String::from_str("check tls ");
            s.append(show_millis(took).as_str());
            s.append(", ping failed");
            s
        },
        Found::Nothing => match next {
            Next::Cut => String::from_str("check cut: sent without reply, ping failed"),
            Next::Woke => String::from_str("check fail: ping after wake"),
            Next::Usual => String::from_str("check fail: ping and tls"),
        },
    }
}

impl Link {
    #[verifier::rlimit(60)]
    fn pass(&mut self, acts: Vec<Act>, check: Check, now: u128) -> (r: Out)
        requires
            now <= LONGEST,
        ensures
            final(self).gives(r) == old(self).turn(acts@).passes(check, now),
            old(self)@.sound() ==> final(self)@.sound(),
    {
        proof {
            reveal(Turn::passes);
        }
        let mut acts = acts;
        if check.next == Next::Cut {
            self.run.cut_quiet_until = self.run.check_at;
        }
        self.run.healthy(now);
        if self.run.confirmed.is_none() {
            self.run.confirmed = Some(now);
        }
        self.run.rx = None;
        self.run.degradation.passed();
        if self.run.offline {
            self.run.offline = false;
            self.log(&mut acts, "online");
        }
        let stood = match self.run.confirmed {
            Some(c) => elapsed(c, now) >= STABLE,
            None => false,
        };
        if self.run.failures > 0 && stood {
            self.run.failures = 0;
            self.log(&mut acts, "stable");
        }
        self.recovered(&mut acts, now);
        self.rest(acts)
    }

    fn direct_seen(&mut self, acts: Vec<Act>, direct: bool, check: Check, now: u128) -> (r: Out)
        ensures
            final(self).gives(r) == old(self).turn(acts@).sees(direct, check, now),
            old(self)@.sound() ==> final(self)@.sound(),
    {
        proof {
            reveal(Turn::sees);
        }
        let mut acts = acts;
        if direct {
            if check.next == Next::Cut {
                self.lose(&mut acts, "cut", now);
            } else {
                self.lose(&mut acts, "dead", now);
            }
        } else if !self.run.offline {
            self.run.offline = true;
            self.log(&mut acts, "offline: nothing past the tunnel either; tunnel kept");
        }
        self.rest(acts)
    }

    fn conclude(&mut self, acts: Vec<Act>, found: Found, check: Check, now: u128) -> (r: Out)
        requires
            now <= LONGEST,
        ensures
            final(self).gives(r) == old(self).turn(acts@).concludes(found, check, now),
            old(self)@.sound() ==> final(self)@.sound(),
    {
        proof {
            reveal(Turn::concludes);
        }
        let mut acts = acts;
        self.run.works = None;
        let s = show_report(found, check.next);
        self.log(&mut acts, s.as_str());
        if found != Found::Nothing {
            return self.pass(acts, check, now);
        }
        if self.tunnel.is_some() && age(self.run.up_at, self.run.disturbed_at, now) >= YOUNG {
            Out { acts, after: Then::Weigh(check) }
        } else {
            self.sink(acts, check, now)
        }
    }

    fn sink(&mut self, acts: Vec<Act>, check: Check, now: u128) -> (r: Out)
        ensures
            final(self).gives(r) == old(self).turn(acts@).sinks(check, now),
            old(self)@.sound() ==> final(self)@.sound(),
    {
        proof {
            reveal(Turn::sinks);
        }
        let mut acts = acts;
        self.run.degradation.failed(now, false);
        self.run.unhealthy();
        self.sync(&mut acts);
        if self.network.is_some() {
            Out { acts, after: Then::DirectPing(check) }
        } else {
            self.direct_seen(acts, false, check, now)
        }
    }

    /// What the tunnel that failed its check says of itself: the age of its
    /// handshake in seconds, and its counters.
    pub fn weighed(
        &mut self,
        check: Check,
        handshake: Option<u64>,
        c: Option<Counters>,
        now: u128,
    ) -> (r: Out)
        requires
            now <= LONGEST,
            old(self)@.sound(),
        ensures
            final(self)@.sound(),
            final(self).gives(r) == old(self)@.begins().weighs(check, handshake, c, now),
    {
        proof {
            reveal(Turn::weighs);
        }
        let mut acts: Vec<Act> = Vec::new();
        proof {
            assert(deeds(acts@) =~= seq![]);
        }
        let grew = match (self.run.rx, c) {
            (Some(before), Some(c)) => c.rx_bytes > before,
            _ => false,
        };
        let old_enough = age(self.run.up_at, self.run.disturbed_at, now);
        let verdict = self.run.degradation.failed(now, carrying(old_enough, handshake, grew));
        self.run.rx = match c {
            Some(c) => Some(c.rx_bytes),
            None => None,
        };
        match verdict {
            Verdict::Down => self.sink(acts, check, now),
            Verdict::Left(_) => {
                if self.run.health != Health::Degraded {
                    self.log(
                        &mut acts,
                        "degraded: no probe gets through, the peer answers; tunnel kept",
                    );
                }
                self.run.health = Health::Degraded;
                self.run.since = None;
                self.run.cut_quiet_until = self.run.check_at;
                self.rest(acts)
            },
            Verdict::Restart => {
                self.lose(&mut acts, "degraded", now);
                self.run.forced = true;
                self.rest(acts)
            },
        }
    }

    fn abort_and_rest(
        &mut self,
        acts: Vec<Act>,
        next: Next,
        network: Option<Network>,
        now: u128,
    ) -> (r: Out)
        requires
            now <= LONGEST,
        ensures
            final(self).gives(r) == old(self).turn(acts@).aborts(
                next,
                place_seen(network),
                now,
            ).rests(),
            old(self)@.sound() ==> final(self)@.sound(),
    {
        let mut acts = acts;
        self.abort(&mut acts, next, network, now);
        self.rest(acts)
    }

    /// What came of the ping through the tunnel, and the network now.
    pub fn pinged(
        &mut self,
        check: Check,
        got: Pinged,
        network: Option<Network>,
        now: u128,
    ) -> (r: Out)
        requires
            now <= LONGEST,
            old(self)@.sound(),
        ensures
            final(self)@.sound(),
            final(self).gives(r) == old(self)@.begins().pings(
                check,
                got,
                place_seen(network),
                now,
            ),
    {
        let mut acts: Vec<Act> = Vec::new();
        proof {
            assert(deeds(acts@) =~= seq![]);
        }
        match got {
            Pinged::Moved => self.abort_and_rest(acts, check.next, network, now),
            Pinged::Replied(rtt) => {
                self.run.pinged = true;
                self.conclude(acts, Found::Ping(rtt), check, now)
            },
            Pinged::Silent => {
                if check.next != Next::Usual {
                    return self.conclude(acts, Found::Nothing, check, now);
                }
                if self.run.pinged && self.run.health == Health::Up {
                    self.log(&mut acts, "suspect: ping failed, tls next");
                    self.run.health = Health::Suspect;
                    self.run.since = None;
                    self.sync(&mut acts);
                }
                Out { acts, after: Then::Tls(check) }
            },
        }
    }

    /// What came of the TLS through the tunnel, and the network now.
    pub fn tls_tried(
        &mut self,
        check: Check,
        got: Tried,
        network: Option<Network>,
        now: u128,
    ) -> (r: Out)
        requires
            now <= LONGEST,
            old(self)@.sound(),
        ensures
            final(self)@.sound(),
            final(self).gives(r) == old(self)@.begins().tries(
                check,
                got,
                place_seen(network),
                now,
            ),
    {
        let acts: Vec<Act> = Vec::new();
        proof {
            assert(deeds(acts@) =~= seq![]);
        }
        match got {
            Tried::Moved => self.abort_and_rest(acts, check.next, network, now),
            Tried::Yes => {
                let took = elapsed(check.start, now);
                self.conclude(acts, Found::Tls(took), check, now)
            },
            Tried::No => self.conclude(acts, Found::Nothing, check, now),
        }
    }

    /// What came of the ping past the tunnel, and the network now.
    pub fn direct_pinged(
        &mut self,
        check: Check,
        got: Pinged,
        network: Option<Network>,
        now: u128,
    ) -> (r: Out)
        requires
            now <= LONGEST,
            old(self)@.sound(),
        ensures
            final(self)@.sound(),
            final(self).gives(r) == old(self)@.begins().direct_pings(
                check,
                got,
                place_seen(network),
                now,
            ),
    {
        let acts: Vec<Act> = Vec::new();
        proof {
            assert(deeds(acts@) =~= seq![]);
        }
        match got {
            Pinged::Moved => self.abort_and_rest(acts, Next::Usual, network, now),
            Pinged::Replied(_) => self.direct_seen(acts, true, check, now),
            Pinged::Silent => Out { acts, after: Then::DirectTls(check) },
        }
    }

    /// What came of the TLS past the tunnel, and the network now.
    pub fn direct_tried(
        &mut self,
        check: Check,
        got: Tried,
        network: Option<Network>,
        now: u128,
    ) -> (r: Out)
        requires
            now <= LONGEST,
            old(self)@.sound(),
        ensures
            final(self)@.sound(),
            final(self).gives(r) == old(self)@.begins().direct_tries(
                check,
                got,
                place_seen(network),
                now,
            ),
    {
        let acts: Vec<Act> = Vec::new();
        proof {
            assert(deeds(acts@) =~= seq![]);
        }
        match got {
            Tried::Moved => self.abort_and_rest(acts, Next::Usual, network, now),
            Tried::Yes => self.direct_seen(acts, true, check, now),
            Tried::No => self.direct_seen(acts, false, check, now),
        }
    }
}

/// Where a ping past the tunnel goes: to the targets that are not routed
/// into a tunnel, when there are such.
pub open spec fn free_targets(r: &Resolver) -> Seq<Ipv4Addr> {
    let free = crate::probe::target_list().filter(|ip: Ipv4Addr| !routed_in(r, ip));
    if free.len() == 0 {
        crate::probe::target_list()
    } else {
        free
    }
}

/// Routed into a tunnel by a host route or a subnet.
pub open spec fn routed_in(r: &Resolver, ip: Ipv4Addr) -> bool {
    let k = crate::resolver::host_key(ip);
    (r.hosts@.dom().contains(k) && r.hosts@[k].placed is Some) || exists|k: u64| #[trigger]
        r.subnets@.dom().contains(k) && r.subnets@[k].net.has(ip)
}

/// The targets of a ping past the tunnel.
pub fn direct_targets(r: &Resolver) -> (v: Vec<Ipv4Addr>)
    requires
        r.wf(),
    ensures
        v@ == free_targets(r),
{
    let all = targets();
    let ghost p = |ip: Ipv4Addr| !routed_in(r, ip);
    let mut free: Vec<Ipv4Addr> = Vec::new();
    let mut i: usize = 0;
    proof {
        assert(all@.take(0).filter(p) =~= seq![]) by {
            reveal(Seq::filter);
        }
    }
    while i < all.len()
        invariant
            i <= all@.len(),
            r.wf(),
            p == (|ip: Ipv4Addr| !routed_in(r, ip)),
            free@ == all@.take(i as int).filter(p),
        decreases all@.len() - i,
    {
        proof {
            reveal(Seq::filter);
            assert(all@.take(i + 1).drop_last() =~= all@.take(i as int));
            assert(all@.take(i + 1).last() == all@[i as int]);
        }
        if !r.covers(all[i]) {
            free.push(all[i]);
        }
        i += 1;
    }
    proof {
        assert(all@.take(i as int) =~= all@);
    }
    if free.len() == 0 {
        all
    } else {
        free
    }
}

// ---------------------------------------------------------------------
// Laws.
// ---------------------------------------------------------------------

/// A link at rest has told the resolver everything: what it told last is
/// what it is.
pub open spec fn settled(t: (Turn, Then)) -> bool {
    t.1 == Then::Rest ==> t.0.link.published == t.0.link.state()
}

proof fn lemma_due(t: Turn, now: u128)
    ensures
        settled(t.checks(now)),
        settled(t.proceeds(now)),
        settled(t.watches(now)),
        settled(t.idles(now)),
{
}

/// The resolver is never left behind: after a step, a link that rests has
/// told it what it is.
pub proof fn lemma_rest_after_a_step(
    t: Turn,
    ctl: Ctl,
    network: Option<crate::net::Place>,
    exited: bool,
    now: u128,
)
    ensures
        settled(t.steps(ctl, network, exited, now)),
{
    let u = t.hears(ctl, network, now);
    lemma_due(u, now);
}

/// The same after a tunnel went down, or was dropped, and after the
/// counters were read.
pub proof fn lemma_rest_after_a_loss(t: Turn, why: Why, c: Option<Counters>, now: u128)
    ensures
        settled(t.leaves(why, now)),
        settled(t.drops(now)),
        settled(t.counts(c, now)),
{
    assert(settled(t.leaves(why, now))) by {
        lemma_due(t.downed(why), now);
    }
    assert(settled(t.drops(now))) by {
        let u = Turn {
            link: Linked { tunnel: None, run: Run { forced: false, ..t.run() }, ..t.link },
            ..t
        };
        lemma_due(u.synced(), now);
        lemma_due(u.loses("process exited"@, now).synced(), now);
    }
    assert(settled(t.counts(c, now))) by {
        lemma_due(t, now);
        if c is Some {
            let samples = recent(
                t.link.samples.push(
                    Sample { at: now, rx: c->0.rx_packets, tx: c->0.tx_packets },
                ),
                now,
            );
            let u = Turn { link: Linked { samples, ..t.link }, ..t };
            lemma_due(u, now);
            lemma_due(u.runs(Run { rx: Some(c->0.rx_bytes), ..t.run() }), now);
            lemma_due(
                u.says("cut suspected: sent without reply for 4s"@).runs(
                    Run {
                        next: Next::Cut,
                        check_at: now,
                        rx: Some(c->0.rx_bytes),
                        ..t.run()
                    },
                ),
                now,
            );
        }
    }
}

/// The same while connecting.
pub proof fn lemma_rest_after_a_connect(
    t: Turn,
    generation: u32,
    ip: Result<Ipv4Addr, Seq<char>>,
    up: Result<((Seq<char>, u16), Option<u16>), Seq<char>>,
    endpoint: Ipv4Addr,
    tls: Tried,
    network: Option<crate::net::Place>,
    handshake: Option<u64>,
    c: Option<Counters>,
    start: u128,
    now: u128,
)
    ensures
        settled(t.connects(generation, now)),
        settled(t.resolves(ip, start, now)),
        settled(t.takes(up, endpoint, start, now)),
        settled(t.retires(now)),
        settled(t.confirms(tls, network, start, now)),
        settled(t.looks(handshake, c, now)),
{
}

proof fn lemma_ends(t: Turn, found: Found, check: Check, direct: bool, now: u128)
    ensures
        settled(t.sees(direct, check, now)),
        settled(t.passes(check, now)),
        t.sees(direct, check, now).1 == Then::Rest,
        t.passes(check, now).1 == Then::Rest,
        t.passes(check, now).0.run().works == t.run().works,
        t.sees(direct, check, now).0.run().works == t.run().works,
{
    reveal(Turn::sees);
    reveal(Turn::passes);
}

proof fn lemma_sinks(t: Turn, check: Check, now: u128)
    ensures
        settled(t.sinks(check, now)),
        t.sinks(check, now).1 is DirectPing ==> t.sinks(check, now).0.link.published.health
            == Health::Down,
        t.sinks(check, now).1 is DirectPing || t.sinks(check, now).1 is Rest,
        t.sinks(check, now).0.run().works == t.run().works,
{
    reveal(Turn::sinks);
    let r = t.run();
    let u = t.runs(
        Run { degradation: r.degradation.after(Verdict::Down, now), ..r.ailing() },
    ).synced();
    lemma_ends(u, Found::Nothing, check, false, now);
}

proof fn lemma_concludes(t: Turn, found: Found, check: Check, now: u128)
    ensures
        settled(t.concludes(found, check, now)),
        t.concludes(found, check, now).1 is DirectPing ==> t.concludes(
            found,
            check,
            now,
        ).0.link.published.health == Health::Down,
        t.concludes(found, check, now).0.run().works is None,
{
    reveal(Turn::concludes);
    let u = t.runs(Run { works: None, ..t.run() }).says(report(found, check.next));
    lemma_ends(u, found, check, false, now);
    lemma_sinks(u, check, now);
}

proof fn lemma_weighs(
    t: Turn,
    check: Check,
    handshake: Option<u64>,
    c: Option<Counters>,
    now: u128,
)
    ensures
        settled(t.weighs(check, handshake, c, now)),
        t.weighs(check, handshake, c, now).1 is DirectPing ==> t.weighs(
            check,
            handshake,
            c,
            now,
        ).0.link.published.health == Health::Down,
{
    reveal(Turn::weighs);
    let r = t.run();
    let verdict = r.degradation.verdict(now, r.speaks(handshake, c, now));
    let u = t.runs(
        Run {
            degradation: r.degradation.after(verdict, now),
            rx: match c {
                Some(c) => Some(c.rx_bytes),
                None => None,
            },
            ..r
        },
    );
    lemma_sinks(u, check, now);
}

/// The same while checking.
pub proof fn lemma_rest_after_a_check(
    t: Turn,
    check: Check,
    ping: Pinged,
    tls: Tried,
    network: Option<crate::net::Place>,
    handshake: Option<u64>,
    c: Option<Counters>,
    now: u128,
)
    ensures
        settled(t.pings(check, ping, network, now)),
        settled(t.weighs(check, handshake, c, now)),
        settled(t.tries(check, tls, network, now)),
        settled(t.direct_pings(check, ping, network, now)),
        settled(t.direct_tries(check, tls, network, now)),
{
    let u = t.runs(Run { pinged: true, ..t.run() });
    if ping is Replied {
        lemma_concludes(u, Found::Ping(ping->Replied_0), check, now);
    }
    lemma_concludes(t, Found::Nothing, check, now);
    lemma_concludes(t, Found::Tls(crate::degraded::since(check.start, now)), check, now);
    lemma_weighs(t, check, handshake, c, now);
    lemma_ends(t, Found::Nothing, check, true, now);
    lemma_ends(t, Found::Nothing, check, false, now);
}

/// The server is let out before the first packet to it: a tunnel is started
/// only once the resolver was told of the server.
pub proof fn lemma_server_is_let_out_first(
    t: Turn,
    generation: u32,
    ip: Result<Ipv4Addr, Seq<char>>,
    start: u128,
    now: u128,
)
    ensures
        t.connects(generation, now).1 matches Then::Raise { endpoint, .. } ==> t.connects(
            generation,
            now,
        ).0.link.published.endpoint == Some(endpoint),
        t.resolves(ip, start, now).1 matches Then::Raise { endpoint, .. } ==> t.resolves(
            ip,
            start,
            now,
        ).0.link.published.endpoint == Some(endpoint),
{
}

/// The routes go to the new interface before the old one goes: it is taken
/// down only once the resolver was told of the new one.
pub proof fn lemma_new_tunnel_takes_over_first(
    t: Turn,
    up: Result<((Seq<char>, u16), Option<u16>), Seq<char>>,
    endpoint: Ipv4Addr,
    start: u128,
    now: u128,
)
    ensures
        ({
            let (after, then_) = t.takes(up, endpoint, start, now);
            then_ == Then::Retire ==> up is Ok && after.link.tunnel == Some(up->Ok_0.0)
                && after.link.published.iface == after.link.tunnel && after.link.retiring
                == t.link.tunnel
        }),
{
}

/// The rules leave a tunnel that failed its check before anything is sent
/// past it.
pub proof fn lemma_rules_leave_before_the_direct_probe(
    t: Turn,
    check: Check,
    ping: Pinged,
    tls: Tried,
    network: Option<crate::net::Place>,
    handshake: Option<u64>,
    c: Option<Counters>,
    now: u128,
)
    ensures
        t.weighs(check, handshake, c, now).1 is DirectPing ==> t.weighs(
            check,
            handshake,
            c,
            now,
        ).0.link.published.health == Health::Down,
        t.pings(check, ping, network, now).1 is DirectPing ==> t.pings(
            check,
            ping,
            network,
            now,
        ).0.link.published.health == Health::Down,
        t.tries(check, tls, network, now).1 is DirectPing ==> t.tries(
            check,
            tls,
            network,
            now,
        ).0.link.published.health == Health::Down,
{
    let u = t.runs(Run { pinged: true, ..t.run() });
    if ping is Replied {
        lemma_concludes(u, Found::Ping(ping->Replied_0), check, now);
    }
    lemma_weighs(t, check, handshake, c, now);
    lemma_concludes(t, Found::Nothing, check, now);
    lemma_concludes(t, Found::Tls(crate::degraded::since(check.start, now)), check, now);
}

/// A tunnel whose ping used to answer is in doubt while TLS tells, and the
/// resolver knows.
pub proof fn lemma_doubt_is_told(
    t: Turn,
    check: Check,
    network: Option<crate::net::Place>,
    now: u128,
)
    requires
        check.next == Next::Usual,
        t.run().pinged,
        t.run().health == Health::Up,
    ensures
        t.pings(check, Pinged::Silent, network, now).1 == Then::Tls(check),
        t.pings(check, Pinged::Silent, network, now).0.link.published.health == Health::Suspect,
{
}

/// Nothing past the tunnel either: it is kept, and no connect is due that
/// was not.
pub proof fn lemma_offline_keeps_the_tunnel(t: Turn, check: Check, now: u128)
    ensures
        t.sees(false, check, now).0.link.tunnel == t.link.tunnel,
        t.sees(false, check, now).0.run().connect_at == t.run().connect_at,
        t.sees(false, check, now).0.run().offline,
        t.sees(false, check, now).1 == Then::Rest,
{
    reveal(Turn::sees);
}

/// A tunnel whose peer still answers is left alone while the patience
/// lasts: no connect is due, and the resolver is told that it is degraded.
pub proof fn lemma_degraded_is_left_alone(
    t: Turn,
    check: Check,
    handshake: Option<u64>,
    c: Option<Counters>,
    now: u128,
)
    requires
        t.run().speaks(handshake, c, now),
        t.run().degradation.patience == 0 || crate::degraded::since(
            t.run().degradation.began(now),
            now,
        ) < t.run().degradation.patience,
    ensures
        ({
            let (after, next) = t.weighs(check, handshake, c, now);
            &&& next == Then::Rest
            &&& after.link.tunnel == t.link.tunnel
            &&& after.run().connect_at == t.run().connect_at
            &&& after.run().failures == t.run().failures
            &&& after.link.published.health == Health::Degraded
            &&& after.run().degradation.since == Some(t.run().degradation.began(now))
        }),
{
    reveal(Turn::weighs);
}

/// A tunnel whose peer still answers is reconnected only when it has been
/// degraded for the whole of the patience, which is never less than the
/// setting; with the setting at zero, never.
pub proof fn lemma_reconnect_waits_out_the_patience(
    t: Turn,
    check: Check,
    handshake: Option<u64>,
    c: Option<Counters>,
    now: u128,
)
    requires
        t.link.sound(),
        t.run().connect_at is None,
        t.run().speaks(handshake, c, now),
    ensures
        ({
            let d = t.run().degradation;
            let after = t.weighs(check, handshake, c, now).0.run();
            after.connect_at is Some ==> {
                &&& crate::degraded::since(d.began(now), now) >= d.patience >= d.grace > 0
                &&& d.since is Some
                &&& after.forced
            }
        }),
{
    reveal(Turn::weighs);
}

/// A tunnel that says nothing of itself gets the usual repair, however
/// patient the setting: it is down, and the patience keeps what it grew to.
pub proof fn lemma_silence_is_down(
    t: Turn,
    check: Check,
    handshake: Option<u64>,
    c: Option<Counters>,
    now: u128,
)
    requires
        !t.run().speaks(handshake, c, now),
    ensures
        ({
            let (after, next) = t.weighs(check, handshake, c, now);
            &&& after.run().health == Health::Down
            &&& after.run().degradation.patience == t.run().degradation.patience
            &&& after.run().degradation.since is None
            &&& t.link.network is Some ==> next == Then::DirectPing(check)
        }),
{
    reveal(Turn::weighs);
    reveal(Turn::sinks);
    reveal(Turn::sees);
}

/// A young tunnel, by its own age or after a wake or a new network, is not
/// asked: only traffic through it decides.
pub proof fn lemma_young_is_not_weighed(t: Turn, found: Found, check: Check, now: u128)
    requires
        t.run().age(now) < YOUNG,
    ensures
        !(t.concludes(found, check, now).1 is Weigh),
{
    reveal(Turn::concludes);
    let u = t.runs(Run { works: None, ..t.run() }).says(report(found, check.next));
    lemma_ends(u, found, check, false, now);
    lemma_sinks(u, check, now);
}

/// The reconnect of a degraded tunnel is one: where it does not help, no
/// other is due, the tunnel there is stays, it is out of the young window
/// when it is checked again, and the next wait is longer.
pub proof fn lemma_one_reconnect(t: Turn, now: u128)
    requires
        t.link.sound(),
        t.run().forced,
        t.link.tunnel is Some,
        now + YOUNG <= u128::MAX,
    ensures
        ({
            let after = t.fails(now).run();
            &&& after.connect_at is None
            &&& t.fails(now).link.tunnel == t.link.tunnel
            &&& after.failures == t.run().failures
            &&& after.check_at == now + YOUNG
            &&& after.degradation.patience == t.run().degradation.grown()
            &&& after.degradation.patience >= t.run().degradation.patience
            &&& !after.forced
        }),
{
}

/// A tunnel that answers again has its whole patience back, by a check or
/// by the confirmation of a new one.
pub proof fn lemma_an_answer_restores_the_patience(
    t: Turn,
    check: Check,
    network: Option<crate::net::Place>,
    start: u128,
    now: u128,
)
    ensures
        t.passes(check, now).0.run().degradation == t.run().degradation.whole(),
        t.confirms(Tried::Yes, network, start, now).0.run().degradation
            == t.run().degradation.whole(),
{
    reveal(Turn::passes);
}

/// A wake or a new network does not sit out a pause earned elsewhere: a
/// tunnel that is down is connected in the same step, as a first attempt.
pub proof fn lemma_a_change_retries_at_once(
    t: Turn,
    ctl: Ctl,
    network: Option<crate::net::Place>,
    now: u128,
)
    requires
        !ctl.stop,
        ctl.wanted,
        t.run().connect_at is Some,
        ctl.wakes != t.run().wakes || (network != t.link.network && network is Some),
    ensures
        t.steps(ctl, network, false, now).1 == Then::Number,
        t.steps(ctl, network, false, now).0.run().failures == 0,
{
}

/// The tries are fast at first and then the pauses grow, to two minutes:
/// no more, and never less than before.
pub proof fn lemma_pauses(a: int, b: int)
    requires
        0 <= a <= b,
    ensures
        a < FAST_TRIES <==> pause(a) is None,
        pause(a) matches Some(x) ==> 30 <= x <= 120 && pause(b) is Some && x <= pause(b)->0,
        a >= FAST_TRIES + 2 ==> pause(a) == Some(120nat),
{
}

/// What is kept of the samples is the end of them, and only the first kept
/// may be as old as the window.
pub proof fn lemma_recent(s: Seq<Sample>, now: u128)
    requires
        s.len() > 0,
    ensures
        0 < recent(s, now).len() <= s.len(),
        recent(s, now) == s.skip(s.len() - recent(s, now).len()),
        recent(s, now).len() > 1 ==> crate::degraded::since(recent(s, now)[1].at, now)
            < CUT_WINDOW,
    decreases s.len(),
{
    if s.len() > 1 && crate::degraded::since(s[1].at, now) >= CUT_WINDOW {
        let rest = s.drop_first();
        lemma_recent(rest, now);
        let n = recent(rest, now).len() as int;
        assert(s.skip(s.len() - n) =~= rest.skip(rest.len() - n));
    } else {
        assert(s.skip(0) =~= s);
    }
}

/// A check that ended has cleared the doubt that a wake or a new network
/// raised, unless the network moved again.
pub proof fn lemma_a_check_clears_the_doubt(t: Turn, found: Found, check: Check, now: u128)
    ensures
        t.concludes(found, check, now).0.run().works is None,
{
    lemma_concludes(t, found, check, now);
}

/// How long the probes may take: a second for the ping after a wake, two
/// for any other; no TLS after a wake, three seconds of it for a fresh
/// tunnel and fifteen for another; ten to confirm a new tunnel and five
/// past the tunnels.
pub proof fn lemma_how_long_probes_take(check: Check)
    ensures
        check.ping_time() == if check.next == Next::Woke {
            1_000_000_000u128
        } else {
            2_000_000_000u128
        },
        check.tls_time() == if check.next == Next::Woke {
            None
        } else if check.fresh {
            Some(3_000_000_000u128)
        } else {
            Some(15_000_000_000u128)
        },
        CONFIRM == 10_000_000_000,
        DIRECT_TLS == 5_000_000_000,
        MILLI == 1_000_000,
{
}

/// The first five tries come one after another; after the fifth failure in
/// a row the pause is half a minute, after the sixth a minute, and after
/// every later one two minutes.
pub proof fn lemma_how_long_a_pause_is(failures: int)
    ensures
        pause(failures) == if failures < 5 {
            None
        } else if failures == 5 {
            Some(30nat)
        } else if failures == 6 {
            Some(60nat)
        } else {
            Some(120nat)
        },
{
}

/// A wake puts the tunnel in doubt and is timed; the tunnel counts as young
/// again, is checked at once with the short ping and often for two minutes,
/// and one that is down is tried at once. Nothing else is changed.
pub proof fn lemma_what_a_wake_does(r: Run, now: u128)
    requires
        now <= LONGEST,
    ensures
        r.woken(now) == (Run {
            works: Some(now),
            next: Next::Woke,
            pending: Some((Event::Wake, now)),
            disturbed_at: now,
            forced: false,
            fresh_until: (now + 120_000_000_000) as u128,
            check_at: if r.check_at < now {
                r.check_at
            } else {
                now
            },
            failures: if r.connect_at is Some {
                0
            } else {
                r.failures
            },
            connect_at: if r.connect_at is Some {
                Some(now)
            } else {
                None
            },
            ..r
        }),
{
}

/// A new network puts the tunnel in doubt in the same way, but the recovery
/// is timed from the first of several events, and a tunnel that is down is
/// tried only when there is a network.
pub proof fn lemma_what_a_new_network_does(r: Run, online: bool, now: u128)
    requires
        now <= LONGEST,
    ensures
        r.moved(online, now) == (Run {
            works: Some(now),
            pending: if r.pending is Some {
                r.pending
            } else {
                Some((Event::Network, now))
            },
            disturbed_at: now,
            forced: false,
            fresh_until: (now + 120_000_000_000) as u128,
            check_at: if r.check_at < now {
                r.check_at
            } else {
                now
            },
            failures: if online && r.connect_at is Some {
                0
            } else {
                r.failures
            },
            connect_at: if online && r.connect_at is Some {
                Some(now)
            } else {
                r.connect_at
            },
            ..r
        }),
{
}

/// A tunnel that begins to carry does so from now on, and is checked often
/// for two minutes, first in five seconds; one that carried keeps its time.
pub proof fn lemma_what_carrying_does(r: Run, now: u128)
    requires
        now <= LONGEST,
    ensures
        r.health == Health::Up && r.since is Some ==> r.carries(now) == r,
        !(r.health == Health::Up && r.since is Some) ==> r.carries(now) == (Run {
            health: Health::Up,
            since: Some(now),
            fresh_until: (now + 120_000_000_000) as u128,
            check_at: (now + 5_000_000_000) as u128,
            ..r
        }),
{
}

/// A tunnel that is lost is down and to be connected at once, and the time
/// without it counts from the first event that is still pending.
pub proof fn lemma_what_a_loss_does(r: Run, now: u128)
    ensures
        r.gone(now) == (Run {
            health: Health::Down,
            since: None,
            confirmed: None,
            connect_at: Some(now),
            forced: false,
            pending: if r.pending is Some {
                r.pending
            } else {
                Some((Event::Reconnect, now))
            },
            ..r
        }),
{
}

/// A connect that failed counts, and the next comes after the pause.
pub proof fn lemma_what_a_failed_connect_does(r: Run, now: u128)
    requires
        now <= LONGEST,
        r.failures < u32::MAX,
    ensures
        r.defeated(now) == (Run {
            failures: (r.failures + 1) as u32,
            health: Health::Down,
            since: None,
            connect_at: Some(
                if r.failures < 4 {
                    now
                } else if r.failures == 4 {
                    (now + 30_000_000_000) as u128
                } else if r.failures == 5 {
                    (now + 60_000_000_000) as u128
                } else {
                    (now + 120_000_000_000) as u128
                },
            ),
            ..r
        }),
{
}

/// The one reconnect of a degraded tunnel that did not help leaves the
/// tunnel there is, out of reach of a check and of the counters for half a
/// minute, and the patience grown; any other failed connect is counted.
pub proof fn lemma_what_a_failure_does(t: Turn, now: u128)
    requires
        now <= LONGEST,
        t.run().failures < u32::MAX,
        t.run().sound(),
    ensures
        t.fails(now).link == (Linked { run: t.fails(now).run(), ..t.link }),
        t.run().forced && t.link.tunnel is Some ==> {
            &&& t.fails(now).run() == (Run {
                health: Health::Down,
                since: None,
                connect_at: None,
                check_at: (now + 30_000_000_000) as u128,
                cut_quiet_until: (now + 30_000_000_000) as u128,
                degradation: Degradation {
                    patience: t.run().degradation.grown(),
                    ..t.run().degradation
                },
                forced: false,
                ..t.run()
            })
            &&& t.fails(now).acts == t.acts.push(
                Deed::Log(
                    t.link.name + ": "@ + "degraded: the reconnect did not help; tunnel kept"@,
                ),
            )
        },
        !(t.run().forced && t.link.tunnel is Some) ==> {
            &&& t.fails(now).run() == t.run().defeated(now)
            &&& t.run().failures < 4 ==> t.fails(now).acts == t.acts
            &&& t.run().failures >= 4 ==> t.fails(now).acts == t.acts.push(
                Deed::Log(
                    t.link.name + ": "@ + ("pause "@ + crate::text::decimal(
                        if t.run().failures == 4 {
                            30
                        } else if t.run().failures == 5 {
                            60
                        } else {
                            120
                        },
                    ) + "s"@),
                ),
            )
        },
{
}

/// What is due: a connect at its time, and while none is wanted a check at
/// its own; otherwise the link rests, and the resolver knows what it is.
pub proof fn lemma_what_is_due(t: Turn, now: u128)
    requires
        now <= LONGEST,
    ensures
        ({
            let (after, next) = t.proceeds(now);
            let r = t.run();
            let fresh = now < r.fresh_until;
            &&& next == Then::Number <==> r.connect_at is Some && now >= r.connect_at->0
            &&& next == Then::Number ==> after == t
            &&& next is Ping <==> r.connect_at is None && now >= r.check_at && t.link.tunnel is Some
            &&& next is Ping ==> {
                &&& next == Then::Ping(Check { next: r.next, fresh, start: now })
                &&& after.acts == t.acts
                &&& after.link == (Linked {
                    run: Run {
                        check_at: (now + if fresh {
                            5_000_000_000int
                        } else {
                            30_000_000_000int
                        }) as u128,
                        next: Next::Usual,
                        ..r
                    },
                    samples: Seq::<Sample>::empty(),
                    ..t.link
                })
            }
            &&& next == Then::Number || next is Ping || next == Then::Rest
            &&& next == Then::Rest && !(r.connect_at is None && now >= r.check_at)
                ==> after.link == (Linked { published: t.link.state(), ..t.link })
        }),
{
}

/// The counters are read while nothing else is known of the tunnel: it is
/// there, no connect is due, the next check is a usual one, and a cut is
/// not kept quiet.
pub proof fn lemma_when_counters_are_read(t: Turn, now: u128)
    ensures
        t.watches(now).1 == Then::ReadCounters <==> {
            &&& t.run().connect_at is None
            &&& t.run().next == Next::Usual
            &&& now >= t.run().cut_quiet_until
            &&& t.link.tunnel is Some
        },
        t.watches(now).1 == Then::ReadCounters ==> t.watches(now).0 == t,
        t.watches(now).1 != Then::ReadCounters ==> t.watches(now) == t.proceeds(now),
{
}

/// A cut is suspected when over the last four seconds or more three packets
/// or more were sent and none came back; it is written, and checked at
/// once. Otherwise the bytes received are only kept, once a check.
pub proof fn lemma_what_counters_say(t: Turn, c: Counters, now: u128)
    requires
        now <= LONGEST,
        t.run().connect_at is None,
        t.link.tunnel is Some,
    ensures
        t.counts(None, now) == t.proceeds(now),
        ({
            let s = recent(
                t.link.samples.push(Sample { at: now, rx: c.rx_packets, tx: c.tx_packets }),
                now,
            );
            let seen = now >= s[0].at + 4_000_000_000 && c.rx_packets == s[0].rx && c.tx_packets
                >= s[0].tx + 3;
            let heard = Turn { link: Linked { samples: s, ..t.link }, ..t };
            &&& s.len() > 0
            &&& seen ==> {
                &&& t.counts(Some(c), now).1 matches Then::Ping(check) && check.next == Next::Cut
                    && check.start == now
                &&& t.counts(Some(c), now).0.run().rx == Some(c.rx_bytes)
                &&& t.counts(Some(c), now).0.acts == t.acts.push(
                    Deed::Log(
                        t.link.name + ": "@ + "cut suspected: sent without reply for 4s"@,
                    ),
                )
            }
            &&& !seen ==> t.counts(Some(c), now) == heard.runs(
                (Run {
                    rx: if t.run().rx is Some {
                        t.run().rx
                    } else {
                        Some(c.rx_bytes)
                    },
                    ..t.run()
                }),
            ).proceeds(now)
        }),
{
    let all = t.link.samples.push(Sample { at: now, rx: c.rx_packets, tx: c.tx_packets });
    lemma_recent(all, now);
    let s = recent(all, now);
    assert(s.last() == all.last());
    let heard = Turn { link: Linked { samples: s, ..t.link }, ..t };
    if !cut(s, now) {
        assert(heard.runs(t.run()) == heard);
        if t.run().rx is Some {
            assert((Run { rx: t.run().rx, ..t.run() }) == t.run());
        }
    }
}

/// Of the samples those of the last four seconds are kept, and the one
/// before them.
pub proof fn lemma_which_samples_are_kept(s: Seq<Sample>, now: u128)
    requires
        s.len() > 1,
        s[1].at <= now,
    ensures
        now - s[1].at >= 4_000_000_000 ==> recent(s, now) == recent(s.skip(1), now),
        now - s[1].at < 4_000_000_000 ==> recent(s, now) == s,
{
    assert(s.drop_first() =~= s.skip(1));
}

/// A step looks first whether the daemon stops, then whether a rule wants
/// the tunnel, then whether its process is there: a tunnel that is not
/// wanted any more is taken down, one whose process exited is cleared away,
/// and any other is watched.
pub proof fn lemma_what_a_step_does(
    t: Turn,
    ctl: Ctl,
    network: Option<crate::net::Place>,
    exited: bool,
    now: u128,
)
    ensures
        ({
            let (after, next) = t.steps(ctl, network, exited, now);
            let up = t.link.tunnel is Some;
            &&& next == Then::TakeDown(Why::Stop) <==> ctl.stop && up
            &&& next == Then::Done <==> ctl.stop && !up
            &&& next == Then::TakeDown(Why::NoRule) <==> !ctl.stop && !ctl.wanted && up
            &&& next == Then::DropDead <==> !ctl.stop && ctl.wanted && up && exited
            &&& !ctl.stop && ctl.wanted && !(up && exited) ==> t.steps(ctl, network, exited, now)
                == t.hears(ctl, network, now).watches(now)
            &&& !ctl.stop && !ctl.wanted && !up ==> {
                &&& next == Then::Rest
                &&& after.run().connect_at == Some(now)
                &&& after.run().failures == 0
                &&& after.run().works is None
                &&& !after.run().forced
            }
        }),
{
}

/// A wake and a new network are both heard, and each once.
pub proof fn lemma_what_is_heard(
    t: Turn,
    ctl: Ctl,
    network: Option<crate::net::Place>,
    now: u128,
)
    requires
        now <= LONGEST,
    ensures
        ({
            let after = t.hears(ctl, network, now);
            let woke = ctl.wakes != t.run().wakes;
            let other = network != t.link.network;
            &&& !woke && !other ==> after == t
            &&& after.link.network == network
            &&& after.run().wakes == ctl.wakes
            &&& after.acts == t.acts
            &&& after.link.tunnel == t.link.tunnel
            &&& woke || other ==> after.run().works == Some(now) && after.run().disturbed_at == now
                && !after.run().forced && after.run().check_at <= now && after.run().fresh_until
                == now + 120_000_000_000
            &&& woke ==> after.run().next == Next::Woke && after.run().pending == Some(
                (Event::Wake, now),
            )
            &&& !woke ==> after.run().next == t.run().next
        }),
{
}

/// A tunnel that went down is gone for the link and for the resolver: for a
/// stop the link is over, and without a rule a connect is due as soon as
/// one wants it.
pub proof fn lemma_what_going_down_does(t: Turn, why: Why, now: u128)
    ensures
        ({
            let (after, next) = t.leaves(why, now);
            &&& after.link.tunnel is None
            &&& after.link.published.iface is None
            &&& after.link.published.health == Health::Down
            &&& after.run().confirmed is None
            &&& after.run().since is None
            &&& why == Why::Stop ==> next == Then::Done
            &&& why == Why::NoRule ==> next == Then::Rest && after.run().connect_at == Some(now)
                && after.run().failures == 0 && after.run().works is None && !after.run().forced
            &&& t.link.tunnel matches Some(i) ==> after.acts.len() > t.acts.len()
                && after.acts[t.acts.len() as int] == Deed::Log(
                t.link.name + ": "@ + ("down "@ + (i.0 + "#"@ + crate::text::decimal(i.1 as nat))
                    + ": "@ + (if why == Why::Stop {
                    "stop"@
                } else {
                    "no rule in force takes it"@
                })),
            )
        }),
{
}

/// A tunnel whose process exited is lost, and connected at once; nothing of
/// it is kept.
pub proof fn lemma_what_an_exit_does(t: Turn, now: u128)
    requires
        t.run().connect_at is None,
    ensures
        t.drops(now).1 == Then::Number,
        t.drops(now).0.link.tunnel is None,
        t.drops(now).0.link.published.iface is None,
        t.drops(now).0.run().connect_at == Some(now),
        t.drops(now).0.run().health == Health::Down,
        t.drops(now).0.acts[t.acts.len() as int] == Deed::Log(
            t.link.name + ": "@ + ("lost "@ + "process exited"@),
        ),
{
}

/// A connect counts from one, goes to the address of the tunnel file when
/// there is one, else asks the network for it, and without a network fails.
pub proof fn lemma_what_a_connect_does(t: Turn, generation: u32, now: u128)
    requires
        now <= LONGEST,
        t.run().failures < u32::MAX,
    ensures
        ({
            let (after, next) = t.connects(generation, now);
            &&& after.run().generation == generation
            &&& after.acts.len() > t.acts.len()
            &&& after.acts[t.acts.len() as int] == Deed::Log(
                t.link.name + ": "@ + ("connect attempt="@ + crate::text::decimal(
                    (t.run().failures + 1) as nat,
                )),
            )
            &&& t.link.fixed matches Some(ip) ==> next == Then::Raise { endpoint: ip, start: now }
                && after.run().endpoint == Some(ip) && after.run() == (Run {
                generation,
                endpoint: Some(ip),
                ..t.run()
            })
            &&& t.link.fixed is None && t.link.network is Some ==> next == Then::Resolve {
                start: now,
            } && after.run() == (Run { generation, ..t.run() })
            &&& t.link.fixed is None && t.link.network is None ==> next == Then::Rest
        }),
{
}

/// A server that was resolved is connected to; where it was not the connect
/// failed, for that reason.
pub proof fn lemma_what_resolving_does(
    t: Turn,
    ip: Ipv4Addr,
    e: Seq<char>,
    start: u128,
    now: u128,
)
    ensures
        t.resolves(Ok(ip), start, now).1 == (Then::Raise { endpoint: ip, start }),
        t.resolves(Ok(ip), start, now).0.run() == (Run { endpoint: Some(ip), ..t.run() }),
        t.resolves(Ok(ip), start, now).0.link.published.endpoint == Some(ip),
        t.resolves(Err(e), start, now) == t.says("connect-fail endpoint: "@ + e).fails(
            now,
        ).rests(),
{
}

/// A new tunnel is the tunnel of the link from now on, young and down until
/// it is confirmed; the one it replaces is taken down first, and one that
/// did not come up leaves everything as it was but for the failure.
pub proof fn lemma_what_a_new_tunnel_does(
    t: Turn,
    iface: (Seq<char>, u16),
    port: Option<u16>,
    e: Seq<char>,
    endpoint: Ipv4Addr,
    start: u128,
    now: u128,
)
    ensures
        ({
            let (after, next) = t.takes(Ok((iface, port)), endpoint, start, now);
            &&& after.link == (Linked {
                tunnel: Some(iface),
                retiring: t.link.tunnel,
                run: Run {
                    pinged: false,
                    up_at: now,
                    rx: None,
                    health: Health::Down,
                    since: None,
                    ..t.run()
                },
                published: after.link.state(),
                ..t.link
            })
            &&& t.link.tunnel is Some ==> next == Then::Retire
            &&& t.link.tunnel is None ==> next == (Then::Confirm { start: now })
        }),
        t.takes(Err(e), endpoint, start, now) == t.says("connect-fail "@ + e).fails(now).rests(),
        t.retires(now).1 == (Then::Confirm { start: now }),
        t.retires(now).0.link == (Linked { retiring: None, ..t.link }),
{
}

/// A tunnel that TLS came through is confirmed and carries from now on; no
/// connect is due, nothing is in doubt, and the patience is whole. One that
/// it did not come through is looked at, and a network that changed
/// meanwhile is followed with another connect at once.
pub proof fn lemma_what_a_confirmation_does(
    t: Turn,
    network: Option<crate::net::Place>,
    start: u128,
    now: u128,
)
    requires
        now <= LONGEST,
    ensures
        ({
            let (after, next) = t.confirms(Tried::Yes, network, start, now);
            let r = t.run();
            let up = r.health == Health::Up && r.since is Some;
            &&& next == Then::Rest
            &&& after.link.tunnel == t.link.tunnel
            &&& after.link.samples.len() == 0
            &&& after.link.published == after.link.state()
            &&& after.run() == (Run {
                connect_at: None,
                confirmed: Some(now),
                next: Next::Usual,
                offline: false,
                works: None,
                pending: None,
                degradation: Degradation {
                    patience: r.degradation.grace,
                    since: None,
                    ..r.degradation
                },
                forced: false,
                health: Health::Up,
                since: if up {
                    r.since
                } else {
                    Some(now)
                },
                fresh_until: if up {
                    r.fresh_until
                } else {
                    (now + 120_000_000_000) as u128
                },
                check_at: if up {
                    r.check_at
                } else {
                    (now + 5_000_000_000) as u128
                },
                ..r
            })
        }),
        t.confirms(Tried::No, network, start, now) == (t, Then::LookAt),
        t.confirms(Tried::Moved, network, start, now).1 == Then::Rest,
        t.confirms(Tried::Moved, network, start, now).0.link.network == network,
        t.confirms(Tried::Moved, network, start, now).0.run().connect_at == Some(now),
        t.confirms(Tried::Moved, network, start, now).0.run().failures == if network is Some {
            0
        } else {
            t.run().failures
        },
{
}

/// A recovery is written once, with the event it was from and the time it
/// took in milliseconds.
pub proof fn lemma_what_a_recovery_writes(t: Turn, event: Event, at: u128, now: u128)
    requires
        at <= now,
        t.run().pending == Some((event, at)),
    ensures
        t.recovers(now).run() == (Run { pending: None, ..t.run() }),
        t.recovers(now).acts == t.acts.push(
            Deed::Log(
                t.link.name + ": "@ + ("recovered "@ + (match event {
                    Event::Start => "start"@,
                    Event::Wake => "wake"@,
                    Event::Network => "network"@,
                    Event::Reconnect => "reconnect"@,
                }) + " in "@ + (crate::text::decimal(((now - at) as u128 / 1_000_000) as nat)
                    + "ms"@)),
            ),
        ),
        t.recovers(now).recovers(now) == t.recovers(now),
{
}

/// A tunnel that a check found carrying carries; the doubts, the failures
/// to see past it and the event that was timed are over, its patience is
/// whole, and its failed connects are forgotten once it has stood for two
/// minutes. After a cut that the check refuted no other is suspected before
/// the next check.
pub proof fn lemma_what_a_passed_check_does(t: Turn, check: Check, now: u128)
    requires
        now <= LONGEST,
    ensures
        ({
            let (after, next) = t.passes(check, now);
            let r = t.run();
            let up = r.health == Health::Up && r.since is Some;
            let since = if r.confirmed is Some {
                r.confirmed->0
            } else {
                now
            };
            &&& next == Then::Rest
            &&& after.link == (Linked {
                run: after.run(),
                published: after.link.state(),
                ..t.link
            })
            &&& after.run() == (Run {
                health: Health::Up,
                since: if up {
                    r.since
                } else {
                    Some(now)
                },
                fresh_until: if up {
                    r.fresh_until
                } else {
                    (now + 120_000_000_000) as u128
                },
                check_at: if up {
                    r.check_at
                } else {
                    (now + 5_000_000_000) as u128
                },
                cut_quiet_until: if check.next == Next::Cut {
                    r.check_at
                } else {
                    r.cut_quiet_until
                },
                confirmed: Some(since),
                rx: None,
                degradation: Degradation {
                    patience: r.degradation.grace,
                    since: None,
                    ..r.degradation
                },
                offline: false,
                failures: if now >= since + 120_000_000_000 {
                    0
                } else {
                    r.failures
                },
                pending: None,
                ..r
            })
        }),
{
    reveal(Turn::passes);
}

/// A check ends the doubt, and is written. What answered passes it; where
/// nothing did, a tunnel that has stood undisturbed for half a minute is
/// asked, and a younger one is down.
pub proof fn lemma_how_a_check_ends(t: Turn, found: Found, check: Check, now: u128)
    requires
        now <= LONGEST,
    ensures
        ({
            let told = Turn {
                link: Linked { run: Run { works: None, ..t.run() }, ..t.link },
                acts: t.acts.push(
                    Deed::Log(
                        t.link.name + ": "@ + (match found {
                            Found::Ping(rtt) => "check ping "@ + (crate::text::decimal(
                                (rtt / 1_000_000) as nat,
                            ) + "ms"@),
                            Found::Tls(took) => "check tls "@ + (crate::text::decimal(
                                (took / 1_000_000) as nat,
                            ) + "ms"@) + ", ping failed"@,
                            Found::Nothing => if check.next == Next::Cut {
                                "check cut: sent without reply, ping failed"@
                            } else if check.next == Next::Woke {
                                "check fail: ping after wake"@
                            } else {
                                "check fail: ping and tls"@
                            },
                        }),
                    ),
                ),
            };
            let old = now >= t.run().up_at + 30_000_000_000 && now >= t.run().disturbed_at
                + 30_000_000_000;
            &&& found != Found::Nothing ==> t.concludes(found, check, now) == told.passes(
                check,
                now,
            )
            &&& found == Found::Nothing && t.link.tunnel is Some && old ==> t.concludes(
                found,
                check,
                now,
            ) == (told, Then::Weigh(check))
            &&& found == Found::Nothing && !(t.link.tunnel is Some && old) ==> t.concludes(
                found,
                check,
                now,
            ) == told.sinks(check, now)
        }),
{
    reveal(Turn::concludes);
}

/// A tunnel of which nothing says that it carries is down for the resolver
/// before anything goes past it, and its degradation is over; whether it is
/// to blame is asked past it, where there is a network.
pub proof fn lemma_what_a_failed_check_does(t: Turn, check: Check, now: u128)
    ensures
        t.link.network is Some ==> {
            let (after, next) = t.sinks(check, now);
            &&& next == Then::DirectPing(check)
            &&& after.link.published.health == Health::Down
            &&& after.run() == (Run {
                health: Health::Down,
                since: None,
                degradation: Degradation { since: None, ..t.run().degradation },
                ..t.run()
            })
            &&& after.link.tunnel == t.link.tunnel
        },
        t.link.network is None ==> {
            let (after, next) = t.sinks(check, now);
            &&& next == Then::Rest
            &&& after.run().offline
            &&& after.run().health == Health::Down
            &&& after.run().connect_at == t.run().connect_at
            &&& after.link.tunnel == t.link.tunnel
        },
{
    reveal(Turn::sinks);
    reveal(Turn::sees);
}

/// With an internet past it a tunnel is to blame: it is lost, as cut or as
/// dead, and connected at once. Without one it is kept, and that is written
/// once.
pub proof fn lemma_who_is_to_blame(t: Turn, check: Check, now: u128)
    ensures
        ({
            let (after, next) = t.sees(true, check, now);
            &&& next == Then::Rest
            &&& after.run() == t.run().gone(now)
            &&& after.link.tunnel == t.link.tunnel
            &&& after.acts[t.acts.len() as int] == Deed::Log(
                t.link.name + ": "@ + ("lost "@ + (if check.next == Next::Cut {
                    "cut"@
                } else {
                    "dead"@
                })),
            )
        }),
        ({
            let (after, next) = t.sees(false, check, now);
            &&& next == Then::Rest
            &&& after.run() == (Run { offline: true, ..t.run() })
            &&& after.link.tunnel == t.link.tunnel
            &&& !t.run().offline ==> after.acts[t.acts.len() as int] == Deed::Log(
                t.link.name + ": "@ + "offline: nothing past the tunnel either; tunnel kept"@,
            )
            &&& t.run().offline && t.link.state() == t.link.published ==> after == t
        }),
{
    reveal(Turn::sees);
}

/// After the ping: a reply passes the check, and is remembered. Silence is
/// enough after a wake and for a cut; else TLS tells, and a tunnel whose
/// ping used to answer is in doubt meanwhile. A network that changed leaves
/// the check to be made again at once, as it was.
pub proof fn lemma_what_a_ping_does(
    t: Turn,
    check: Check,
    rtt: u128,
    network: Option<crate::net::Place>,
    now: u128,
)
    requires
        now <= LONGEST,
    ensures
        t.pings(check, Pinged::Replied(rtt), network, now) == t.runs(
            (Run { pinged: true, ..t.run() }),
        ).concludes(Found::Ping(rtt), check, now),
        check.next != Next::Usual ==> t.pings(check, Pinged::Silent, network, now) == t.concludes(
            Found::Nothing,
            check,
            now,
        ),
        check.next == Next::Usual ==> {
            let (after, next) = t.pings(check, Pinged::Silent, network, now);
            let doubt = t.run().pinged && t.run().health == Health::Up;
            &&& next == Then::Tls(check)
            &&& !doubt ==> after == t
            &&& doubt ==> after.run() == (Run { health: Health::Suspect, since: None, ..t.run() })
                && after.link.published == after.link.state() && after.link.tunnel == t.link.tunnel
        },
        ({
            let (after, next) = t.pings(check, Pinged::Moved, network, now);
            &&& next == Then::Rest
            &&& after.link.network == network
            &&& after.link.tunnel == t.link.tunnel
            &&& after.run().next == check.next
            &&& after.run().check_at == now
            &&& after.run().works == Some(now)
            &&& after.run().health == t.run().health
            &&& after.run().degradation == t.run().degradation
        }),
{
}

/// After the TLS try: one that went through passes the check, after the
/// time since its start; one that did not leaves nothing that answered. A
/// network that changed leaves the check to be made again.
pub proof fn lemma_what_a_tls_try_does(
    t: Turn,
    check: Check,
    network: Option<crate::net::Place>,
    now: u128,
)
    requires
        check.start <= now <= LONGEST,
    ensures
        t.tries(check, Tried::Yes, network, now) == t.concludes(
            Found::Tls((now - check.start) as u128),
            check,
            now,
        ),
        t.tries(check, Tried::No, network, now) == t.concludes(Found::Nothing, check, now),
        t.tries(check, Tried::Moved, network, now).1 == Then::Rest,
        t.tries(check, Tried::Moved, network, now).0.run().check_at == now,
        t.tries(check, Tried::Moved, network, now).0.run().next == check.next,
        t.tries(check, Tried::Moved, network, now).0.link.network == network,
{
}

/// Past the tunnel a ping that is answered, or TLS that goes through, says
/// that there is an internet; only both failing says that there is none.
pub proof fn lemma_what_the_direct_probes_say(
    t: Turn,
    check: Check,
    rtt: u128,
    network: Option<crate::net::Place>,
    now: u128,
)
    requires
        now <= LONGEST,
    ensures
        t.direct_pings(check, Pinged::Replied(rtt), network, now) == t.sees(true, check, now),
        t.direct_pings(check, Pinged::Silent, network, now) == (t, Then::DirectTls(check)),
        t.direct_tries(check, Tried::Yes, network, now) == t.sees(true, check, now),
        t.direct_tries(check, Tried::No, network, now) == t.sees(false, check, now),
        t.direct_pings(check, Pinged::Moved, network, now).1 == Then::Rest,
        t.direct_pings(check, Pinged::Moved, network, now).0.run().check_at == now,
        t.direct_pings(check, Pinged::Moved, network, now).0.run().next == Next::Usual,
        t.direct_pings(check, Pinged::Moved, network, now).0.link.network == network,
        t.direct_tries(check, Tried::Moved, network, now).1 == Then::Rest,
        t.direct_tries(check, Tried::Moved, network, now).0.run().check_at == now,
        t.direct_tries(check, Tried::Moved, network, now).0.run().next == Next::Usual,
        t.direct_tries(check, Tried::Moved, network, now).0.link.network == network,
{
}

/// A tunnel through which no probe gets is weighed by its age, its
/// handshake and its bytes: silent, it is down; else it is left alone,
/// degraded, and with the patience run out reconnected, once. The bytes are
/// kept for the next time.
pub proof fn lemma_how_a_tunnel_is_weighed(
    t: Turn,
    check: Check,
    handshake: Option<u64>,
    c: Option<Counters>,
    now: u128,
)
    requires
        now <= LONGEST,
    ensures
        ({
            let r = t.run();
            let d = r.degradation;
            let first = if d.since is Some {
                d.since->0
            } else {
                now
            };
            let rx = if c is Some {
                Some(c->0.rx_bytes)
            } else {
                None
            };
            let speaks = {
                &&& now >= r.up_at + 30_000_000_000
                &&& now >= r.disturbed_at + 30_000_000_000
                &&& handshake is Some && handshake->0 <= 180
                &&& r.rx is Some && c is Some && c->0.rx_bytes > r.rx->0
            };
            let patient = d.patience == 0 || now < first + d.patience;
            let (after, next) = t.weighs(check, handshake, c, now);
            &&& r.speaks(handshake, c, now) == speaks
            &&& !speaks ==> t.weighs(check, handshake, c, now) == t.runs(
                (Run { degradation: Degradation { since: None, ..d }, rx, ..r }),
            ).sinks(check, now)
            &&& speaks && patient ==> {
                &&& next == Then::Rest
                &&& after.link.tunnel == t.link.tunnel
                &&& after.run() == (Run {
                    health: Health::Degraded,
                    since: None,
                    cut_quiet_until: r.check_at,
                    rx,
                    degradation: Degradation { since: Some(first), ..d },
                    ..r
                })
                &&& r.health != Health::Degraded ==> after.acts[t.acts.len() as int] == Deed::Log(
                    t.link.name + ": "@
                        + "degraded: no probe gets through, the peer answers; tunnel kept"@,
                )
            }
            &&& speaks && !patient ==> {
                &&& next == Then::Rest
                &&& after.link.tunnel == t.link.tunnel
                &&& after.run() == (Run {
                    forced: true,
                    ..(Run { rx, degradation: Degradation { since: None, ..d }, ..r }).gone(now)
                })
                &&& after.acts[t.acts.len() as int] == Deed::Log(
                    t.link.name + ": "@ + ("lost "@ + "degraded"@),
                )
            }
        }),
{
    reveal(Turn::weighs);
}

/// The resolver is told what a link is in every field, and only when it is
/// something else than it was told before.
pub proof fn lemma_what_the_resolver_is_told(t: Turn)
    ensures
        t.link.state() == (crate::links::State {
            iface: t.link.tunnel,
            generation: t.link.run.generation,
            health: t.link.run.health,
            works: t.link.run.works is Some,
            since: t.link.run.since,
            endpoint: t.link.run.endpoint,
        }),
        t.synced().link == (Linked { published: t.link.state(), ..t.link }),
        t.link.state() == t.link.published ==> t.synced().acts == t.acts,
        t.link.state() != t.link.published ==> t.synced().acts == t.acts.push(
            Deed::Tell(t.link.state()),
        ),
{
}

/// How a tunnel that was not confirmed is written.
pub proof fn lemma_what_a_look_writes(t: Turn, handshake: Option<u64>, c: Option<Counters>, now: u128)
    ensures
        look_shown(handshake, c) == "handshake="@ + (if handshake is Some {
            crate::text::decimal(handshake->0 as nat) + "s"@
        } else {
            "none"@
        }) + " "@ + (if c is Some {
            "rx="@ + crate::text::decimal(c->0.rx_bytes as nat) + " tx="@ + crate::text::decimal(
                c->0.tx_bytes as nat,
            )
        } else {
            "?"@
        }),
        t.looks(handshake, c, now) == t.says(
            "confirm-fail "@ + (if t.link.tunnel is Some {
                look_shown(handshake, c)
            } else {
                "no tunnel"@
            }),
        ).fails(now).rests(),
{
}

/// The ping past the tunnels goes to the targets that no host route and no
/// subnet takes into one; with every target taken, to all of them.
pub proof fn lemma_where_the_direct_ping_goes(r: &Resolver, ip: Ipv4Addr)
    ensures
        routed_in(r, ip) <==> (r.hosts@.dom().contains(ip.bits as u64) && r.hosts@[
        ip.bits as u64].placed is Some) || exists|k: u64| #[trigger]
            r.subnets@.dom().contains(k) && r.subnets@[k].net.has(ip),
        ({
            let all = seq![
                crate::addr::octets(1, 1, 1, 1),
                crate::addr::octets(8, 8, 8, 8),
                crate::addr::octets(9, 9, 9, 9),
            ];
            let free = all.filter(|x: Ipv4Addr| !routed_in(r, x));
            &&& free.len() > 0 ==> free_targets(r) == free
            &&& free.len() == 0 ==> free_targets(r) == all
        }),
{
}

} // verus!
