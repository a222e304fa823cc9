//! Links as their checks report them, and the tunnel a rule takes now.

use vstd::prelude::*;
use vstd::string::*;

use crate::addr::Ipv4Addr;
use crate::degraded::{elapsed, MINUTE};
use crate::text::{join_of, show};

verus! {

/// A tunnel earlier in a rule's order takes the rule back once it has
/// carried this long: its fresh checks are over.
pub const RETURN: u128 = 2 * MINUTE;

/// A tunnel interface.
#[derive(Debug)]
pub struct Iface {
    pub name: String,
    pub index: u16,
}

/// What the checks of a link say of its tunnel.
#[derive(Clone, Copy, Debug, PartialEq, Eq, Structural)]
pub enum Health {
    /// Not confirmed yet, or failed.
    Down,
    /// The last confirmation or check went through.
    Up,
    /// A check found silent the ping that used to answer; TLS is to tell.
    Suspect,
    /// No probe gets through, yet the peer still answers: the tunnel keeps
    /// the names and the routes it has, so the network limps on through
    /// it, but a rule with another tunnel takes that one.
    Degraded,
}

impl Health {
    /// The tunnel is not to be walked away from: its names are answered
    /// and its routes stand.
    pub fn alive(self) -> (r: bool)
        ensures
            r == (self != Health::Down),
    {
        self != Health::Down
    }
}

/// A tunnel as its link reports it.
#[derive(Debug)]
pub struct LinkState {
    pub iface: Option<Iface>,
    /// Which amneziawg-go has the interface: a new one may get the name and
    /// index of a dead one, whose routes went with it.
    pub generation: u32,
    pub health: Health,
    /// A new network or a wake, until the first check after it.
    pub works: bool,
    /// Carrying without doubt since then.
    pub since: Option<u128>,
    pub endpoint: Option<Ipv4Addr>,
}

/// A link as a mathematical value.
pub struct State {
    pub iface: Option<(Seq<char>, u16)>,
    pub generation: u32,
    pub health: Health,
    pub works: bool,
    pub since: Option<u128>,
    pub endpoint: Option<Ipv4Addr>,
}

impl State {
    /// Carries for certain: a rule may switch to it.
    pub open spec fn good(self) -> bool {
        self.iface is Some && self.health == Health::Up
    }
}

impl LinkState {
    pub open spec fn view(&self) -> State {
        State {
            iface: match self.iface {
                Some(i) => Some((i.name@, i.index)),
                None => None,
            },
            generation: self.generation,
            health: self.health,
            works: self.works,
            since: self.since,
            endpoint: self.endpoint,
        }
    }

    /// A link that has not been heard of yet.
    pub fn new() -> (r: Self)
        ensures
            r@ == (State {
                iface: None,
                generation: 0,
                health: Health::Down,
                works: false,
                since: None,
                endpoint: None,
            }),
    {
        LinkState {
            iface: None,
            generation: 0,
            health: Health::Down,
            works: false,
            since: None,
            endpoint: None,
        }
    }

    /// Carries for certain: a rule may switch to it.
    pub fn good(&self) -> (r: bool)
        ensures
            r == self@.good(),
    {
        self.iface.is_some() && self.health == Health::Up
    }
}

/// Why the names of a rule are refused now; none of them, and they are not.
#[derive(Clone, Copy, Debug, PartialEq, Eq, Structural)]
pub struct Reasons {
    /// No tunnel of the rule carries.
    pub tunnel: bool,
    /// A new network or a wake, until the first check of its tunnel.
    pub works: bool,
    pub owner: bool,
}

impl Reasons {
    pub open spec fn some(self) -> bool {
        self.tunnel || self.works || self.owner
    }

    pub fn any(self) -> (r: bool)
        ensures
            r == self.some(),
    {
        self.tunnel || self.works || self.owner
    }

    /// The names of the reasons that hold.
    pub open spec fn names(self) -> Seq<Seq<char>> {
        (if self.tunnel {
            seq!["tunnel"@]
        } else {
            seq![]
        }) + (if self.works {
            seq!["works"@]
        } else {
            seq![]
        }) + (if self.owner {
            seq!["owner"@]
        } else {
            seq![]
        })
    }

    pub open spec fn shown(self) -> Seq<char> {
        if self.some() {
            "on "@ + crate::text::join(self.names(), ","@)
        } else {
            "off"@
        }
    }

    pub fn to_string(&self) -> (r: String)
        ensures
            r@ == self.shown(),
    {
        if !self.any() {
            return "off".to_owned();
        }
        let mut on: Vec<String> = Vec::new();
        if self.tunnel {
            on.push("tunnel".to_owned());
        }
        if self.works {
            on.push("works".to_owned());
        }
        if self.owner {
            on.push("owner".to_owned());
        }
        proof {
            assert(crate::text::seen(on@) =~= self.names());
        }
        let mut s = "on ".to_owned();
        s.append(join_of(&on, ",").as_str());
        s
    }
}

// ---------------------------------------------------------------------
// The tunnel a rule takes.
// ---------------------------------------------------------------------

/// The first of `order` before `end` that is `p`.
pub open spec fn first_of(order: Seq<usize>, end: int, p: spec_fn(usize) -> bool) -> Option<usize>
    decreases end,
{
    if end <= 0 {
        None
    } else {
        match first_of(order, end - 1, p) {
            Some(t) => Some(t),
            None => if p(order[end - 1]) {
                Some(order[end - 1])
            } else {
                None
            },
        }
    }
}

/// Where `t` stands in the order; past the end without it.
pub open spec fn rank(order: Seq<usize>, t: usize) -> int
    decreases order.len(),
{
    if order.len() == 0 {
        0
    } else if order[0] == t {
        0
    } else {
        1 + rank(order.skip(1), t)
    }
}

/// Carries for certain, and is not waited for.
pub open spec fn sure(links: Seq<State>, t: usize) -> bool {
    t < links.len() && links[t as int].good() && !links[t as int].works
}

/// Has carried long enough to take a rule back.
pub open spec fn settled(links: Seq<State>, t: usize, now: u128) -> bool {
    sure(links, t) && (links[t as int].since matches Some(s) && crate::degraded::since(s, now)
        >= RETURN)
}

pub open spec fn has_iface(links: Seq<State>, t: usize) -> bool {
    t < links.len() && links[t as int].iface is Some
}

/// Just after a new network or a wake, with its interface still there.
pub open spec fn waited_for(links: Seq<State>, t: usize) -> bool {
    has_iface(links, t) && links[t as int].works
}

/// The tunnel a rule takes now: the one it has while that carries, but a
/// tunnel earlier in its order once that has carried for `RETURN`; when it
/// does not carry, the first that does. A tunnel just after a new network
/// or a wake is waited for, not left. With none carrying, the rule stays
/// where it is, or takes the first tunnel that has an interface at all.
pub open spec fn picked(
    order: Seq<usize>,
    links: Seq<State>,
    current: Option<usize>,
    now: u128,
) -> Option<usize> {
    let n = order.len() as int;
    match current {
        Some(c) => if waited_for(links, c) {
            Some(c)
        } else if sure(links, c) {
            match first_of(order, rank(order, c), |t: usize| settled(links, t, now)) {
                Some(t) => Some(t),
                None => Some(c),
            }
        } else {
            match first_of(order, n, |t: usize| sure(links, t)) {
                Some(t) => Some(t),
                None => if has_iface(links, c) {
                    Some(c)
                } else {
                    first_of(order, n, |t: usize| has_iface(links, t))
                },
            }
        },
        None => match first_of(order, n, |t: usize| sure(links, t)) {
            Some(t) => Some(t),
            None => first_of(order, n, |t: usize| has_iface(links, t)),
        },
    }
}

pub open spec fn states(links: Seq<(String, LinkState)>) -> Seq<State> {
    links.map_values(|l: (String, LinkState)| l.1@)
}

fn is_sure(links: &Vec<(String, LinkState)>, t: usize) -> (r: bool)
    ensures
        r == sure(states(links@), t),
{
    if t >= links.len() {
        return false;
    }
    proof {
        assert(states(links@)[t as int] == links@[t as int].1@);
    }
    links[t].1.good() && !links[t].1.works
}

fn is_settled(links: &Vec<(String, LinkState)>, t: usize, now: u128) -> (r: bool)
    ensures
        r == settled(states(links@), t, now),
{
    if !is_sure(links, t) {
        return false;
    }
    proof {
        assert(states(links@)[t as int] == links@[t as int].1@);
    }
    match links[t].1.since {
        Some(s) => elapsed(s, now) >= RETURN,
        None => false,
    }
}

fn does_have_iface(links: &Vec<(String, LinkState)>, t: usize) -> (r: bool)
    ensures
        r == has_iface(states(links@), t),
{
    if t >= links.len() {
        return false;
    }
    proof {
        assert(states(links@)[t as int] == links@[t as int].1@);
    }
    links[t].1.iface.is_some()
}

fn first_sure(order: &Vec<usize>, links: &Vec<(String, LinkState)>) -> (r: Option<usize>)
    ensures
        r == first_of(order@, order@.len() as int, |t: usize| sure(states(links@), t)),
{
    let ghost p = |t: usize| sure(states(links@), t);
    let mut i: usize = 0;
    while i < order.len()
        invariant
            i <= order@.len(),
            p == (|t: usize| sure(states(links@), t)),
            first_of(order@, i as int, p) is None,
        decreases order@.len() - i,
    {
        if is_sure(links, order[i]) {
            proof {
                assert(first_of(order@, i + 1, p) == Some(order@[i as int]));
                lemma_first_of_stays(order@, i + 1, order@.len() as int, p);
            }
            return Some(order[i]);
        }
        i += 1;
    }
    None
}

fn first_with_iface(order: &Vec<usize>, links: &Vec<(String, LinkState)>) -> (r: Option<usize>)
    ensures
        r == first_of(order@, order@.len() as int, |t: usize| has_iface(states(links@), t)),
{
    let ghost p = |t: usize| has_iface(states(links@), t);
    let mut i: usize = 0;
    while i < order.len()
        invariant
            i <= order@.len(),
            p == (|t: usize| has_iface(states(links@), t)),
            first_of(order@, i as int, p) is None,
        decreases order@.len() - i,
    {
        if does_have_iface(links, order[i]) {
            proof {
                assert(first_of(order@, i + 1, p) == Some(order@[i as int]));
                lemma_first_of_stays(order@, i + 1, order@.len() as int, p);
            }
            return Some(order[i]);
        }
        i += 1;
    }
    None
}

fn first_settled_before(
    order: &Vec<usize>,
    links: &Vec<(String, LinkState)>,
    c: usize,
    now: u128,
) -> (r: Option<usize>)
    ensures
        r == first_of(order@, rank(order@, c), |t: usize| settled(states(links@), t, now)),
{
    let ghost p = |t: usize| settled(states(links@), t, now);
    let mut i: usize = 0;
    proof {
        lemma_rank(order@, c);
    }
    while i < order.len() && order[i] != c
        invariant
            i <= order@.len(),
            i <= rank(order@, c) <= order@.len(),
            rank(order@, c) < order@.len() ==> order@[rank(order@, c)] == c,
            forall|j: int| 0 <= j < rank(order@, c) ==> order@[j] != c,
            p == (|t: usize| settled(states(links@), t, now)),
            first_of(order@, i as int, p) is None,
        decreases order@.len() - i,
    {
        if is_settled(links, order[i], now) {
            proof {
                assert(first_of(order@, i + 1, p) == Some(order@[i as int]));
                lemma_first_of_stays(order@, i + 1, rank(order@, c), p);
            }
            return Some(order[i]);
        }
        i += 1;
    }
    None
}

proof fn lemma_rank(order: Seq<usize>, t: usize)
    ensures
        0 <= rank(order, t) <= order.len(),
        rank(order, t) < order.len() ==> order[rank(order, t)] == t,
        forall|j: int| 0 <= j < rank(order, t) ==> order[j] != t,
    decreases order.len(),
{
    if order.len() > 0 && order[0] != t {
        lemma_rank(order.skip(1), t);
        assert forall|j: int| 0 <= j < rank(order, t) implies order[j] != t by {
            if j > 0 {
                assert(order[j] == order.skip(1)[j - 1]);
            }
        }
    }
}

proof fn lemma_first_of_stays(order: Seq<usize>, a: int, b: int, p: spec_fn(usize) -> bool)
    requires
        a <= b,
        first_of(order, a, p) is Some,
    ensures
        first_of(order, b, p) == first_of(order, a, p),
    decreases b - a,
{
    if a < b {
        lemma_first_of_stays(order, a, b - 1, p);
        if b <= 0 {
            assert(first_of(order, a, p) is None);
        }
    }
}

/// The tunnel a rule takes now.
pub fn pick(
    order: &Vec<usize>,
    links: &Vec<(String, LinkState)>,
    current: Option<usize>,
    now: u128,
) -> (r: Option<usize>)
    ensures
        r == picked(order@, states(links@), current, now),
{
    if let Some(c) = current {
        proof {
            if c < links@.len() {
                assert(states(links@)[c as int] == links@[c as int].1@);
            }
        }
        if does_have_iface(links, c) && links[c].1.works {
            return Some(c);
        }
        if is_sure(links, c) {
            return match first_settled_before(order, links, c, now) {
                Some(t) => Some(t),
                None => Some(c),
            };
        }
    }
    if let Some(t) = first_sure(order, links) {
        return Some(t);
    }
    if let Some(c) = current {
        if does_have_iface(links, c) {
            return Some(c);
        }
    }
    first_with_iface(order, links)
}

// ---------------------------------------------------------------------
// Laws.
// ---------------------------------------------------------------------

proof fn lemma_first_of(order: Seq<usize>, end: int, p: spec_fn(usize) -> bool)
    requires
        end <= order.len(),
    ensures
        match first_of(order, end, p) {
            Some(t) => p(t) && exists|i: int|
                0 <= i < end && #[trigger] order[i] == t && forall|j: int|
                    0 <= j < i ==> !p(#[trigger] order[j]),
            None => forall|i: int| 0 <= i < end ==> !p(#[trigger] order[i]),
        },
    decreases end,
{
    if end > 0 {
        lemma_first_of(order, end - 1, p);
        if first_of(order, end - 1, p) is None && p(order[end - 1]) {
            assert(order[end - 1] == order[end - 1]);
        }
    }
}

/// A rule with a tunnel that carries for certain takes one that does, or
/// the one it waits for after a new network or a wake.
pub proof fn lemma_pick_carries(
    order: Seq<usize>,
    links: Seq<State>,
    current: Option<usize>,
    now: u128,
    i: int,
)
    requires
        0 <= i < order.len(),
        sure(links, order[i]),
    ensures
        match picked(order, links, current, now) {
            Some(t) => sure(links, t) || (current == Some(t) && waited_for(links, t)),
            None => false,
        },
{
    let n = order.len() as int;
    let p = |t: usize| sure(links, t);
    lemma_first_of(order, n, p);
    if first_of(order, n, p) is None {
        assert(!p(order[i]));
    }
    if let Some(c) = current {
        if sure(links, c) {
            let q = |t: usize| settled(links, t, now);
            lemma_rank(order, c);
            lemma_first_of(order, rank(order, c), q);
        }
    }
}

/// A rule stays where it is while its tunnel carries, unless a tunnel
/// before it in the order has carried for long enough; and only such a one
/// takes it away.
pub proof fn lemma_pick_is_sticky(
    order: Seq<usize>,
    links: Seq<State>,
    c: usize,
    now: u128,
)
    requires
        sure(links, c),
    ensures
        match picked(order, links, Some(c), now) {
            Some(t) => t == c || (settled(links, t, now) && exists|i: int|
                0 <= i < rank(order, c) && #[trigger] order[i] == t),
            None => false,
        },
        (forall|i: int| 0 <= i < rank(order, c) ==> !settled(links, #[trigger] order[i], now))
            ==> picked(order, links, Some(c), now) == Some(c),
{
    let q = |t: usize| settled(links, t, now);
    lemma_rank(order, c);
    lemma_first_of(order, rank(order, c), q);
    if forall|i: int| 0 <= i < rank(order, c) ==> !settled(links, #[trigger] order[i], now) {
        if let Some(t) = first_of(order, rank(order, c), q) {
            let i = choose|i: int| 0 <= i < rank(order, c) && #[trigger] order[i] == t;
            assert(!settled(links, order[i], now));
        }
    }
}

/// What a rule takes has an interface; without one in its order or under
/// it, it takes none.
pub proof fn lemma_pick_has_an_interface(
    order: Seq<usize>,
    links: Seq<State>,
    current: Option<usize>,
    now: u128,
)
    ensures
        picked(order, links, current, now) matches Some(t) ==> has_iface(links, t),
        picked(order, links, current, now) is None <==> ((current matches Some(c) ==> !has_iface(
            links,
            c,
        )) && forall|i: int| 0 <= i < order.len() ==> !has_iface(links, #[trigger] order[i])),
{
    let n = order.len() as int;
    let p = |t: usize| sure(links, t);
    let h = |t: usize| has_iface(links, t);
    lemma_first_of(order, n, p);
    lemma_first_of(order, n, h);
    if let Some(c) = current {
        let q = |t: usize| settled(links, t, now);
        lemma_rank(order, c);
        lemma_first_of(order, rank(order, c), q);
    }
    if let Some(t) = first_of(order, n, p) {
        let i = choose|i: int| 0 <= i < n && #[trigger] order[i] == t;
        assert(has_iface(links, order[i]));
    }
}

/// A tunnel and an index as the status line shows them.
pub open spec fn iface_shown(i: (Seq<char>, u16), word: Seq<char>) -> Seq<char> {
    i.0 + "#"@ + crate::text::decimal(i.1 as nat) + word
}

impl State {
    pub open spec fn shown(self) -> Seq<char> {
        match self.iface {
            None => "down"@,
            Some(i) => iface_shown(
                i,
                match self.health {
                    Health::Down => "/dead"@,
                    Health::Up => "/alive"@,
                    Health::Suspect => "/suspect"@,
                    Health::Degraded => "/degraded"@,
                },
            ),
        }
    }
}

impl LinkState {
    /// How the tunnel is, for the status line.
    pub fn to_string(&self) -> (r: String)
        ensures
            r@ == self@.shown(),
    {
        match &self.iface {
            None => "down".to_owned(),
            Some(i) => {
                let mut s = i.name.clone();
                s.append("#");
                s.append(show(i.index as u128).as_str());
                match self.health {
                    Health::Down => {
                        s.append("/dead");
                    },
                    Health::Up => {
                        s.append("/alive");
                    },
                    Health::Suspect => {
                        s.append("/suspect");
                    },
                    Health::Degraded => {
                        s.append("/degraded");
                    },
                }
                s
            },
        }
    }
}

/// A rule that has just taken a tunnel stays with it: picking again, with
/// the links and the time as they are, changes nothing.
pub proof fn lemma_pick_stays(
    order: Seq<usize>,
    links: Seq<State>,
    current: Option<usize>,
    now: u128,
)
    ensures
        picked(order, links, picked(order, links, current, now), now) == picked(
            order,
            links,
            current,
            now,
        ),
{
    let n = order.len() as int;
    let p = |t: usize| sure(links, t);
    let q = |t: usize| settled(links, t, now);
    let h = |t: usize| has_iface(links, t);
    lemma_first_of(order, n, p);
    lemma_first_of(order, n, h);
    if let Some(c) = current {
        lemma_rank(order, c);
        lemma_first_of(order, rank(order, c), q);
    }
    if let Some(t) = picked(order, links, current, now) {
        lemma_rank(order, t);
        lemma_first_of(order, rank(order, t), q);
        if sure(links, t) && current != Some(t) {
            // Nothing before it in the order takes it back.
            let end = match current {
                Some(c) => if sure(links, c) {
                    rank(order, c)
                } else {
                    n
                },
                None => n,
            };
            let i = choose|i: int|
                0 <= i < end && #[trigger] order[i] == t && forall|j: int|
                    0 <= j < i ==> !settled(links, #[trigger] order[j], now);
            assert(rank(order, t) <= i);
            assert forall|j: int| 0 <= j < rank(order, t) implies !q(#[trigger] order[j]) by {
                assert(!settled(links, order[j], now));
            }
        }
    }
}

/// What is asked of a tunnel, by what its link reports: it carries for
/// certain when its interface is there, its checks go through and it is not
/// waited for; it may take a rule back once it has done so for two minutes;
/// it is waited for after a new network or a wake while its interface is
/// there.
pub proof fn lemma_what_a_link_says(links: Seq<State>, t: usize, now: u128)
    ensures
        sure(links, t) <==> t < links.len() && links[t as int].iface is Some && links[t as int].health
            == Health::Up && !links[t as int].works,
        settled(links, t, now) <==> sure(links, t) && (links[t as int].since matches Some(s) && s
            <= now && now - s >= 120_000_000_000),
        has_iface(links, t) <==> t < links.len() && links[t as int].iface is Some,
        waited_for(links, t) <==> t < links.len() && links[t as int].iface is Some
            && links[t as int].works,
{
}

/// The first in the order: with no tunnel, or one that neither carries for
/// certain nor is waited for, a rule takes the first of its order that
/// carries for certain.
pub proof fn lemma_pick_takes_the_first_that_carries(
    order: Seq<usize>,
    links: Seq<State>,
    current: Option<usize>,
    now: u128,
    i: int,
)
    requires
        current matches Some(c) ==> !sure(links, c) && !waited_for(links, c),
        0 <= i < order.len(),
        sure(links, order[i]),
        forall|j: int| 0 <= j < i ==> !sure(links, #[trigger] order[j]),
    ensures
        picked(order, links, current, now) == Some(order[i]),
{
    let p = |t: usize| sure(links, t);
    lemma_first_of(order, order.len() as int, p);
    match first_of(order, order.len() as int, p) {
        Some(t) => {
            let k = choose|k: int|
                0 <= k < order.len() && #[trigger] order[k] == t && forall|j: int|
                    0 <= j < k ==> !p(#[trigger] order[j]);
            if k < i {
                assert(!sure(links, order[k]));
            } else if k > i {
                assert(!p(order[i]));
            }
        },
        None => {
            assert(!p(order[i]));
        },
    }
}

/// With none that carries for certain, a rule stays with a tunnel whose
/// interface is there, and else takes the first of its order that has one.
pub proof fn lemma_pick_without_any_that_carries(
    order: Seq<usize>,
    links: Seq<State>,
    current: Option<usize>,
    now: u128,
)
    requires
        forall|j: int| 0 <= j < order.len() ==> !sure(links, #[trigger] order[j]),
        current matches Some(c) ==> !sure(links, c),
    ensures
        (current matches Some(c) && has_iface(links, c)) ==> picked(order, links, current, now)
            == current,
        !(current matches Some(c) && has_iface(links, c)) ==> match picked(
            order,
            links,
            current,
            now,
        ) {
            Some(t) => has_iface(links, t) && exists|i: int|
                0 <= i < order.len() && #[trigger] order[i] == t && forall|j: int|
                    0 <= j < i ==> !has_iface(links, #[trigger] order[j]),
            None => forall|j: int| 0 <= j < order.len() ==> !has_iface(links, #[trigger] order[j]),
        },
{
    let n = order.len() as int;
    let p = |t: usize| sure(links, t);
    let h = |t: usize| has_iface(links, t);
    lemma_first_of(order, n, p);
    lemma_first_of(order, n, h);
    if let Some(t) = first_of(order, n, p) {
        let k = choose|k: int| 0 <= k < n && #[trigger] order[k] == t;
        assert(!sure(links, order[k]));
    }
    if let Some(t) = first_of(order, n, h) {
        let i = choose|i: int|
            0 <= i < n && #[trigger] order[i] == t && forall|j: int|
                0 <= j < i ==> !h(#[trigger] order[j]);
        assert forall|j: int| 0 <= j < i implies !has_iface(links, #[trigger] order[j]) by {
            assert(!h(order[j]));
        }
    } else {
        assert forall|j: int| 0 <= j < n implies !has_iface(links, #[trigger] order[j]) by {
            assert(!h(order[j]));
        }
    }
}

/// A tunnel that is waited for is not left, whatever the others do.
pub proof fn lemma_pick_waits(order: Seq<usize>, links: Seq<State>, c: usize, now: u128)
    requires
        waited_for(links, c),
    ensures
        picked(order, links, Some(c), now) == Some(c),
{
}

/// A rule whose tunnel carries goes back to the first of its order that has
/// carried for long enough, if that stands before its own; else it stays.
pub proof fn lemma_pick_goes_back(
    order: Seq<usize>,
    links: Seq<State>,
    c: usize,
    now: u128,
    k: int,
    i: int,
)
    requires
        sure(links, c),
        0 <= k < order.len(),
        order[k] == c,
        forall|j: int| 0 <= j < k ==> #[trigger] order[j] != c,
        0 <= i < k,
        settled(links, order[i], now),
        forall|j: int| 0 <= j < i ==> !settled(links, #[trigger] order[j], now),
    ensures
        picked(order, links, Some(c), now) == Some(order[i]),
{
    let q = |t: usize| settled(links, t, now);
    lemma_rank(order, c);
    let at = rank(order, c);
    assert(at == k) by {
        if at < k {
            assert(order[at] != c);
        }
        if k < at {
            assert(order[k] != c);
        }
    }
    lemma_first_of(order, k, q);
    match first_of(order, k, q) {
        Some(t) => {
            let j = choose|j: int|
                0 <= j < k && #[trigger] order[j] == t && forall|x: int|
                    0 <= x < j ==> !q(#[trigger] order[x]);
            if j < i {
                assert(!settled(links, order[j], now));
            } else if j > i {
                assert(!q(order[i]));
            }
        },
        None => {
            assert(!q(order[i]));
        },
    }
}

proof fn lemma_rank_is(order: Seq<usize>, t: usize, k: int)
    requires
        0 <= k < order.len(),
        order[k] == t,
        forall|j: int| 0 <= j < k ==> #[trigger] order[j] != t,
    ensures
        rank(order, t) == k,
    decreases order.len(),
{
    if k > 0 {
        assert(order[0] != t);
        let rest = order.skip(1);
        assert forall|j: int| 0 <= j < k - 1 implies #[trigger] rest[j] != t by {
            assert(rest[j] == order[j + 1]);
        }
        lemma_rank_is(rest, t, k - 1);
    }
}

/// A rule that refuses says every reason that holds, and only those, in one
/// order; one that does not refuse says none.
pub proof fn lemma_reasons_shown(r: Reasons)
    ensures
        r.some() <==> r.tunnel || r.works || r.owner,
        r.names().contains("tunnel"@) <==> r.tunnel,
        r.names().contains("works"@) <==> r.works,
        r.names().contains("owner"@) <==> r.owner,
        r.names().no_duplicates(),
        r.shown() == "off"@ <==> !r.some(),
{
    reveal_strlit("tunnel");
    reveal_strlit("works");
    reveal_strlit("owner");
    reveal_strlit("on ");
    reveal_strlit("off");
    assert("tunnel"@.len() == 6 && "works"@.len() == 5 && "owner"@.len() == 5);
    assert("works"@[0] == 'w' && "owner"@[0] == 'o');
    let n = r.names();
    if r.tunnel {
        assert(n[0] == "tunnel"@);
    }
    if r.works {
        assert(n[if r.tunnel {
            1
        } else {
            0
        }] == "works"@);
    }
    if r.owner {
        assert(n[n.len() - 1] == "owner"@);
    }
    if r.some() {
        assert(r.shown()[1] == 'n');
        assert("off"@[1] == 'f');
    }
}

/// A rule whose tunnel carries and has none before it in the order that has
/// carried for long enough stays.
pub proof fn lemma_pick_stays_with_its_own(
    order: Seq<usize>,
    links: Seq<State>,
    c: usize,
    now: u128,
    k: int,
)
    requires
        sure(links, c),
        0 <= k <= order.len(),
        k < order.len() ==> order[k] == c,
        forall|j: int| 0 <= j < k ==> #[trigger] order[j] != c && !settled(links, order[j], now),
    ensures
        picked(order, links, Some(c), now) == Some(c),
{
    let q = |t: usize| settled(links, t, now);
    lemma_rank(order, c);
    let at = rank(order, c);
    assert(at == k) by {
        if at < k {
            assert(order[at] != c);
        }
        if k < at {
            assert(order[k] != c);
        }
    }
    lemma_first_of(order, k, q);
    assert forall|j: int| 0 <= j < k implies !q(#[trigger] order[j]) by {
        assert(order[j] != c);
    }
}

/// A rule whose tunnel carries but is none of its order goes to the first
/// of the order that has carried for long enough.
pub proof fn lemma_pick_comes_home(
    order: Seq<usize>,
    links: Seq<State>,
    c: usize,
    now: u128,
    i: int,
)
    requires
        sure(links, c),
        forall|j: int| 0 <= j < order.len() ==> #[trigger] order[j] != c,
        0 <= i < order.len(),
        settled(links, order[i], now),
        forall|j: int| 0 <= j < i ==> !settled(links, #[trigger] order[j], now),
    ensures
        picked(order, links, Some(c), now) == Some(order[i]),
{
    let n = order.len() as int;
    let q = |t: usize| settled(links, t, now);
    lemma_rank(order, c);
    assert(rank(order, c) == n) by {
        if rank(order, c) < n {
            assert(order[rank(order, c)] != c);
        }
    }
    lemma_first_of(order, n, q);
    assert(q(order[i]));
    if let Some(t) = first_of(order, n, q) {
        let m = choose|m: int|
            0 <= m < n && #[trigger] order[m] == t && q(t) && forall|j: int|
                0 <= j < m ==> !q(#[trigger] order[j]);
        if m < i {
            assert(!settled(links, order[m], now));
        }
        if i < m {
            assert(!q(order[i]));
        }
    }
}

/// How a tunnel is, in words: down without an interface, else the interface
/// and what its checks say.
pub proof fn lemma_how_a_link_is_shown(s: State)
    ensures
        s.iface is None ==> s.shown() == "down"@,
        s.iface matches Some(i) ==> s.shown() == i.0 + "#"@ + crate::text::decimal(i.1 as nat) + (
        if s.health == Health::Up {
            "/alive"@
        } else if s.health == Health::Down {
            "/dead"@
        } else if s.health == Health::Suspect {
            "/suspect"@
        } else {
            "/degraded"@
        }),
{
}

/// The reasons are shown after the word on, with commas between them, the
/// tunnel first and the owner last.
pub proof fn lemma_how_reasons_are_shown(r: Reasons)
    ensures
        r.some() ==> r.shown() == "on "@ + crate::text::join(r.names(), ","@),
        r.tunnel && r.works && r.owner ==> r.names() == seq!["tunnel"@, "works"@, "owner"@],
        r.tunnel && r.works && !r.owner ==> r.names() == seq!["tunnel"@, "works"@],
        r.tunnel && !r.works && r.owner ==> r.names() == seq!["tunnel"@, "owner"@],
        !r.tunnel && r.works && r.owner ==> r.names() == seq!["works"@, "owner"@],
{
    let none = Seq::<Seq<char>>::empty();
    assert(seq!["tunnel"@] + seq!["works"@] + seq!["owner"@] =~= seq![
        "tunnel"@,
        "works"@,
        "owner"@,
    ]);
    assert(seq!["tunnel"@] + seq!["works"@] + none =~= seq!["tunnel"@, "works"@]);
    assert(seq!["tunnel"@] + none + seq!["owner"@] =~= seq!["tunnel"@, "owner"@]);
    assert(none + seq!["works"@] + seq!["owner"@] =~= seq!["works"@, "owner"@]);
}

} // verus!
