//! The routes: which tunnel each rule takes now, where its hosts and
//! subnets are routed, and what pf holds of them.

use vstd::prelude::*;
use vstd::string::*;

use crate::addr::{Ipv4Addr, Subnet};
use crate::dns::fakeip;
use crate::links::pick;
use crate::resolver::{key_of, routable, Core, HostRun, NetRun, Resolver, RuleRun, Target};
use crate::route::Outcome;
use crate::table::Table;
use crate::text::{among, show};

verus! {

// ---------------------------------------------------------------------
// The owners of the subnets.
// ---------------------------------------------------------------------

/// A rule in force that has a list with the subnet.
pub open spec fn has_net(
    core: &Core,
    nets: Seq<(Subnet, Seq<char>)>,
    rule: int,
    s: Subnet,
) -> bool {
    core.in_force(rule) && exists|i: int|
        0 <= i < nets.len() && (#[trigger] nets[i]).0 == s && crate::text::seen(
            core.rules@[rule].lists@,
        ).contains(nets[i].1)
}

/// Each subnet of the lists to the first rule in force that has it; the
/// fake range is never anyone's.
pub open spec fn net_owner(core: &Core, nets: Seq<(Subnet, Seq<char>)>, s: Subnet) -> Option<int> {
    if s.meets(crate::dns::fake_range()) {
        None
    } else {
        crate::resolver::lowest(
            |r: int| has_net(core, nets, r, s),
            core.rules@.len() as int,
        )
    }
}

/// A subnet and the rule that owns it.
#[derive(Clone, Copy, Debug, PartialEq, Eq, Structural)]
pub struct Owned {
    pub net: Subnet,
    pub rule: usize,
}

/// The table has the owned subnets, all of them, each with its owner.
pub open spec fn owns(m: Map<u64, Owned>, core: &Core, nets: Seq<(Subnet, Seq<char>)>) -> bool {
    &&& forall|k: u64| #[trigger]
        m.dom().contains(k) ==> {
            &&& m[k].net.canonical()
            &&& crate::resolver::net_key(m[k].net) == k
            &&& net_owner(core, nets, m[k].net) == Some(m[k].rule as int)
        }
    &&& forall|s: Subnet|
        s.canonical() && (#[trigger] net_owner(core, nets, s)) is Some ==> m.dom().contains(
            crate::resolver::net_key(s),
        )
}

proof fn lemma_lowest_or(
    p: spec_fn(int) -> bool,
    q: spec_fn(int) -> bool,
    both: spec_fn(int) -> bool,
    n: int,
)
    requires
        forall|i: int| 0 <= i < n ==> #[trigger] both(i) == (p(i) || q(i)),
    ensures
        crate::resolver::lowest(both, n) == (match (
            crate::resolver::lowest(p, n),
            crate::resolver::lowest(q, n),
        ) {
            (Some(a), Some(b)) => Some(
                if a <= b {
                    a
                } else {
                    b
                },
            ),
            (Some(a), None) => Some(a),
            (None, b) => b,
        }),
    decreases n,
{
    if n > 0 {
        crate::resolver::lemma_lowest(p, n);
        crate::resolver::lemma_lowest(q, n);
        crate::resolver::lemma_lowest(both, n);
        match crate::resolver::lowest(both, n) {
            Some(i) => {
                assert(p(i) || q(i));
                if let Some(a) = crate::resolver::lowest(p, n) {
                    assert(both(a));
                }
                if let Some(b) = crate::resolver::lowest(q, n) {
                    assert(both(b));
                }
            },
            None => {
                if let Some(a) = crate::resolver::lowest(p, n) {
                    assert(both(a));
                }
                if let Some(b) = crate::resolver::lowest(q, n) {
                    assert(both(b));
                }
            },
        }
    }
}

/// The first rule in force that has the list.
pub open spec fn list_owner(core: &Core, list: Seq<char>) -> Option<int> {
    crate::resolver::lowest(
        |r: int| core.in_force(r) && crate::text::seen(core.rules@[r].lists@).contains(list),
        core.rules@.len() as int,
    )
}

proof fn lemma_owner_step(core: &Core, nets: Seq<(Subnet, Seq<char>)>, i: int, s: Subnet)
    requires
        0 <= i < nets.len(),
    ensures
        net_owner(core, nets.take(i + 1), s) == (if s.meets(crate::dns::fake_range()) || nets[i].0
            != s {
            net_owner(core, nets.take(i), s)
        } else {
            match (net_owner(core, nets.take(i), s), list_owner(core, nets[i].1)) {
                (Some(a), Some(b)) => Some(
                    if a <= b {
                        a
                    } else {
                        b
                    },
                ),
                (Some(a), None) => Some(a),
                (None, b) => b,
            }
        }),
{
    let n = core.rules@.len() as int;
    let before = nets.take(i);
    let after = nets.take(i + 1);
    let p = |r: int| has_net(core, before, r, s);
    let q = |r: int| core.in_force(r) && crate::text::seen(core.rules@[r].lists@).contains(nets[i].1);
    let none = |r: int| false;
    let both = |r: int| has_net(core, after, r, s);
    assert forall|r: int| 0 <= r < n implies #[trigger] both(r) == (p(r) || (nets[i].0 == s && q(
        r,
    ))) by {
        if p(r) {
            let j = choose|j: int|
                0 <= j < before.len() && (#[trigger] before[j]).0 == s && crate::text::seen(
                    core.rules@[r].lists@,
                ).contains(before[j].1);
            assert(after[j] == before[j]);
        }
        if nets[i].0 == s && q(r) {
            assert(after[i] == nets[i]);
        }
        if both(r) {
            let j = choose|j: int|
                0 <= j < after.len() && (#[trigger] after[j]).0 == s && crate::text::seen(
                    core.rules@[r].lists@,
                ).contains(after[j].1);
            if j < i {
                assert(before[j] == after[j]);
            } else {
                assert(after[j] == nets[i]);
            }
        }
    }
    if nets[i].0 == s {
        lemma_lowest_or(p, q, both, n);
    } else {
        lemma_lowest_or(p, none, both, n);
        crate::resolver::lemma_lowest(none, n);
    }
}

impl Core {
    fn owner_of_list(&self, list: &str) -> (r: Option<usize>)
        ensures
            match r {
                Some(i) => list_owner(self, list@) == Some(i as int),
                None => list_owner(self, list@) is None,
            },
    {
        let ghost q = |r: int|
            self.in_force(r) && crate::text::seen(self.rules@[r].lists@).contains(list@);
        let ghost n = self.rules@.len() as int;
        let mut i: usize = 0;
        while i < self.rules.len()
            invariant
                i <= self.rules@.len(),
                n == self.rules@.len(),
                q == (|r: int|
                    self.in_force(r) && crate::text::seen(self.rules@[r].lists@).contains(list@)),
                forall|j: int| 0 <= j < i ==> !#[trigger] q(j),
            decreases self.rules@.len() - i,
        {
            if self.rules[i].active && among(&self.rules[i].lists, list) {
                proof {
                    crate::resolver::lemma_lowest_is(q, i as int, n);
                }
                return Some(i);
            }
            i += 1;
        }
        proof {
            crate::resolver::lemma_lowest(q, n);
        }
        None
    }
}

impl Resolver {
    /// The subnets of the lists as they are.
    pub open spec fn nets(&self) -> Seq<(Subnet, Seq<char>)> {
        self.lists@.subnets
    }

    /// Each subnet of the lists to the first rule in force that has it; the
    /// fake range is never anyone's.
    pub(crate) fn subnet_owners(&self) -> (r: Table<Owned>)
        requires
            self.wf(),
        ensures
            r.wf(),
            owns(r@, &self.core, self.nets()),
    {
        let listed = self.lists.subnets();
        let ghost nets = self.nets();
        proof {
            assert(listed@.map_values(|e: (Subnet, String)| (e.0, e.1@)) == nets);
            assert(nets.len() == listed@.len());
        }
        let fake = fakeip();
        let mut r: Table<Owned> = Table::new();
        let mut i: usize = 0;
        proof {
            assert forall|s: Subnet| s.canonical() implies (#[trigger] net_owner(
                &self.core,
                nets.take(0),
                s,
            )) is None by {
                crate::resolver::lemma_lowest(
                    |r: int| has_net(&self.core, nets.take(0), r, s),
                    self.core.rules@.len() as int,
                );
            }
        }
        while i < listed.len()
            invariant
                self.wf(),
                i <= listed@.len(),
                nets == self.nets(),
                nets == listed@.map_values(|e: (Subnet, String)| (e.0, e.1@)),
                fake == crate::dns::fake_range(),
                fake.wf(),
                r.wf(),
                owns(r@, &self.core, nets.take(i as int)),
            decreases listed@.len() - i,
        {
            let s = listed[i].0;
            let ghost before = r@;
            proof {
                assert(nets[i as int] == (s, listed@[i as int].1@));
                assert(self.lists@.subnets[i as int].0.canonical());
                assert forall|t: Subnet| true implies #[trigger] net_owner(
                    &self.core,
                    nets.take(i + 1),
                    t,
                ) == (if t.meets(crate::dns::fake_range()) || s != t {
                    net_owner(&self.core, nets.take(i as int), t)
                } else {
                    match (
                        net_owner(&self.core, nets.take(i as int), t),
                        list_owner(&self.core, nets[i as int].1),
                    ) {
                        (Some(a), Some(b)) => Some(
                            if a <= b {
                                a
                            } else {
                                b
                            },
                        ),
                        (Some(a), None) => Some(a),
                        (None, b) => b,
                    }
                }) by {
                    lemma_owner_step(&self.core, nets, i as int, t);
                }
            }
            if !s.overlaps(fake) {
                if let Some(rule) = self.core.owner_of_list(listed[i].1.as_str()) {
                    let k = key_of(s);
                    let better = match r.get(k) {
                        Some(o) => rule < o.rule,
                        None => true,
                    };
                    proof {
                        if before.dom().contains(k) {
                            crate::resolver::lemma_net_key(before[k].net, s);
                        }
                    }
                    if better {
                        r.insert(k, Owned { net: s, rule });
                    }
                }
            }
            proof {
                assert forall|t: Subnet|
                    t.canonical() && (#[trigger] net_owner(
                        &self.core,
                        nets.take(i + 1),
                        t,
                    )) is Some implies r@.dom().contains(crate::resolver::net_key(t)) by {
                    if net_owner(&self.core, nets.take(i as int), t) is Some {
                        assert(before.dom().contains(crate::resolver::net_key(t)));
                    }
                }
                assert forall|k: u64| #[trigger] r@.dom().contains(k) implies {
                    &&& r@[k].net.canonical()
                    &&& crate::resolver::net_key(r@[k].net) == k
                    &&& net_owner(&self.core, nets.take(i + 1), r@[k].net) == Some(
                        r@[k].rule as int,
                    )
                } by {
                    if before.dom().contains(k) {
                        assert(net_owner(&self.core, nets.take(i as int), before[k].net) == Some(
                            before[k].rule as int,
                        ));
                        if before[k].net == s {
                            assert(k == crate::resolver::net_key(s));
                        }
                    } else {
                        assert(k == crate::resolver::net_key(s));
                        assert(net_owner(&self.core, nets.take(i as int), s) is None);
                    }
                }
            }
            i += 1;
        }
        proof {
            assert(nets.take(i as int) =~= nets);
        }
        r
    }
}

// ---------------------------------------------------------------------
// The tunnels of the rules.
// ---------------------------------------------------------------------

/// The tunnel a rule is to have.
pub open spec fn retargeted(core: &Core, r: RuleRun, now: u128) -> Option<usize> {
    if r.active {
        crate::links::picked(r.tunnels@, core.states(), r.current, now)
    } else {
        None
    }
}

pub open spec fn link_name(core: &Core, t: Option<usize>) -> Seq<char> {
    match t {
        Some(t) => if t < core.links@.len() {
            core.links@[t as int].0@
        } else {
            "none"@
        },
        None => "none"@,
    }
}

pub open spec fn retarget_line(core: &Core, r: RuleRun, to: Option<usize>) -> Seq<char> {
    "rule "@ + r.name@ + " tunnel "@ + link_name(core, r.current) + " -> "@ + link_name(core, to)
}

/// The rules whose tunnel changes, in order, as the journal has them.
pub open spec fn retarget_lines(core: &Core, rules: Seq<RuleRun>, now: u128) -> Seq<Seq<char>>
    decreases rules.len(),
{
    if rules.len() == 0 {
        seq![]
    } else {
        let r = rules.last();
        let rest = retarget_lines(core, rules.drop_last(), now);
        if retargeted(core, r, now) != r.current {
            rest.push(retarget_line(core, r, retargeted(core, r, now)))
        } else {
            rest
        }
    }
}

impl Core {
    fn name_of(&self, t: Option<usize>) -> (r: &str)
        ensures
            r@ == link_name(self, t),
    {
        match t {
            Some(t) => if t < self.links.len() {
                self.links[t].0.as_str()
            } else {
                "none"
            },
            None => "none",
        }
    }

    /// Each rule in force to its tunnel of now; returns the changes, to be
    /// written.
    fn pick_tunnels(&mut self, now: u128) -> (r: Vec<String>)
        ensures
            *final(self) == (Core { rules: final(self).rules, ..*old(self) }),
            final(self).rules@.len() == old(self).rules@.len(),
            forall|i: int|
                0 <= i < old(self).rules@.len() ==> #[trigger] final(self).rules@[i] == (RuleRun {
                    current: retargeted(old(self), old(self).rules@[i], now),
                    ..old(self).rules@[i]
                }),
            crate::text::seen(r@) == retarget_lines(old(self), old(self).rules@, now),
    {
        let ghost before = self.rules@;
        let mut lines: Vec<String> = Vec::new();
        let mut i: usize = 0;
        proof {
            assert(before.take(0) =~= seq![]);
            assert(crate::text::seen(lines@) =~= seq![]);
        }
        while i < self.rules.len()
            invariant
                i <= self.rules@.len(),
                before == old(self).rules@,
                self.rules@.len() == before.len(),
                *self == (Core { rules: self.rules, ..*old(self) }),
                forall|j: int|
                    0 <= j < i ==> #[trigger] self.rules@[j] == (RuleRun {
                        current: retargeted(old(self), before[j], now),
                        ..before[j]
                    }),
                forall|j: int| i <= j < before.len() ==> #[trigger] self.rules@[j] == before[j],
                crate::text::seen(lines@) == retarget_lines(
                    old(self),
                    before.take(i as int),
                    now,
                ),
            decreases before.len() - i,
        {
            proof {
                assert(self.rules@[i as int] == before[i as int]);
                assert(before.take(i + 1).drop_last() =~= before.take(i as int));
                assert(before.take(i + 1).last() == before[i as int]);
            }
            let was = self.rules[i].current;
            let new: Option<usize> = if self.rules[i].active {
                pick(&self.rules[i].tunnels, &self.links, was, now)
            } else {
                None
            };
            if new != was {
                let mut s = "rule ".to_owned();
                s.append(self.rules[i].name.as_str());
                s.append(" tunnel ");
                s.append(self.name_of(was));
                s.append(" -> ");
                s.append(self.name_of(new));
                proof {
                    crate::text::lemma_seen_push(lines@, s);
                }
                lines.push(s);
                self.rules[i].current = new;
            }
            i += 1;
        }
        proof {
            assert(before.take(i as int) =~= before);
        }
        lines
    }
}

// ---------------------------------------------------------------------
// What happened to routes.
// ---------------------------------------------------------------------

/// What happened to a batch of routes placed on a tunnel interface.
#[derive(Clone, Copy, Debug, PartialEq, Eq, Structural)]
pub struct Moves {
    pub added: usize,
    /// The route was there already and now points at the tunnel.
    pub moved: usize,
    pub removed: usize,
    pub failed: usize,
}

impl Moves {
    pub open spec fn none() -> Moves {
        Moves { added: 0, moved: 0, removed: 0, failed: 0 }
    }

    /// With one more route; none is a failure.
    pub open spec fn with(self, r: Option<Outcome>) -> Moves {
        match r {
            Some(Outcome::Added) => Moves { added: (self.added + 1) as usize, ..self },
            Some(_) => Moves { moved: (self.moved + 1) as usize, ..self },
            None => Moves { failed: (self.failed + 1) as usize, ..self },
        }
    }

    pub open spec fn total(self) -> int {
        self.added + self.moved + self.removed + self.failed
    }

    pub fn count(&mut self, r: Option<Outcome>)
        requires
            old(self).total() < usize::MAX,
        ensures
            *final(self) == old(self).with(r),
            final(self).total() == old(self).total() + 1,
    {
        match r {
            Some(Outcome::Added) => {
                self.added = self.added + 1;
            },
            Some(_) => {
                self.moved = self.moved + 1;
            },
            None => {
                self.failed = self.failed + 1;
            },
        }
    }

    pub fn any(&self) -> (r: bool)
        ensures
            r == (self.total() > 0),
    {
        self.added > 0 || self.moved > 0 || self.removed > 0 || self.failed > 0
    }

    pub open spec fn shown(self) -> Seq<char> {
        "added="@ + crate::text::decimal(self.added as nat) + " moved="@ + crate::text::decimal(
            self.moved as nat,
        ) + " removed="@ + crate::text::decimal(self.removed as nat) + " failed="@
            + crate::text::decimal(self.failed as nat)
    }

    pub fn to_string(&self) -> (r: String)
        ensures
            r@ == self.shown(),
    {
        let mut s = "added=".to_owned();
        s.append(show(self.added as u128).as_str());
        s.append(" moved=");
        s.append(show(self.moved as u128).as_str());
        s.append(" removed=");
        s.append(show(self.removed as u128).as_str());
        s.append(" failed=");
        s.append(show(self.failed as u128).as_str());
        s
    }
}

// ---------------------------------------------------------------------
// Hosts.
// ---------------------------------------------------------------------

pub open spec fn ip_of(k: u64) -> Ipv4Addr {
    Ipv4Addr { bits: k as u32 }
}

/// A host that stays: its rule is in force and it may have a route.
pub open spec fn stays(core: &Core, k: u64, h: HostRun) -> bool {
    core.in_force(h.rule as int) && crate::resolver::may_route(
        ip_of(k),
        crate::resolver::servers(core.states()),
    )
}

/// A host that stays and does not point where its rule does.
pub open spec fn astray(core: &Core, k: u64, h: HostRun) -> bool {
    stays(core, k, h) && (core.aim(h.rule as int) matches Some(t) && h.placed != Some(t.spot()))
}

/// A host to be dropped; its route is deleted if it has one.
#[derive(Clone, Copy, Debug, PartialEq, Eq, Structural)]
pub struct HostDrop {
    pub ip: Ipv4Addr,
    pub rule: usize,
    pub routed: bool,
}

/// A host to be routed anew.
#[derive(Clone, Copy, Debug, PartialEq, Eq, Structural)]
pub struct HostMove {
    pub ip: Ipv4Addr,
    pub rule: usize,
    pub target: Target,
}

pub open spec fn drops(core: &Core, e: Seq<(u64, HostRun)>) -> Seq<HostDrop>
    decreases e.len(),
{
    if e.len() == 0 {
        seq![]
    } else {
        let (k, h) = e.last();
        if stays(core, k, h) {
            drops(core, e.drop_last())
        } else {
            drops(core, e.drop_last()).push(
                HostDrop { ip: ip_of(k), rule: h.rule, routed: h.placed is Some },
            )
        }
    }
}

pub open spec fn moves(core: &Core, e: Seq<(u64, HostRun)>) -> Seq<HostMove>
    decreases e.len(),
{
    if e.len() == 0 {
        seq![]
    } else {
        let (k, h) = e.last();
        if astray(core, k, h) {
            moves(core, e.drop_last()).push(
                HostMove { ip: ip_of(k), rule: h.rule, target: core.aim(h.rule as int)->0 },
            )
        } else {
            moves(core, e.drop_last())
        }
    }
}

/// What bringing the hosts in line takes: those to drop, and those to
/// route.
#[derive(Debug)]
pub struct HostPlan {
    pub drops: Vec<HostDrop>,
    pub moves: Vec<HostMove>,
}

/// The hosts with the routes that went well.
pub open spec fn with_moves(
    m: Map<u64, HostRun>,
    moves: Seq<HostMove>,
    results: Seq<Option<Outcome>>,
) -> Map<u64, HostRun>
    decreases moves.len(),
{
    if moves.len() == 0 {
        m
    } else {
        let rest = with_moves(m, moves.drop_last(), results.drop_last());
        let v = moves.last();
        let k = crate::resolver::host_key(v.ip);
        if results.last() is Some && rest.dom().contains(k) {
            rest.insert(k, HostRun { placed: Some(v.target.spot()), ..rest[k] })
        } else {
            rest
        }
    }
}

/// The hosts without those dropped.
pub open spec fn without_drops(m: Map<u64, HostRun>, drops: Seq<HostDrop>) -> Map<u64, HostRun>
    decreases drops.len(),
{
    if drops.len() == 0 {
        m
    } else {
        without_drops(m, drops.drop_last()).remove(crate::resolver::host_key(drops.last().ip))
    }
}

/// What happened to the moves of a rule.
pub open spec fn tally(moves: Seq<HostMove>, results: Seq<Option<Outcome>>, rule: int) -> Moves
    decreases moves.len(),
{
    if moves.len() == 0 {
        Moves::none()
    } else {
        let rest = tally(moves.drop_last(), results.drop_last(), rule);
        if moves.last().rule == rule {
            rest.with(results.last())
        } else {
            rest
        }
    }
}

/// How many hosts of a rule are dropped.
pub open spec fn dropped(drops: Seq<HostDrop>, rule: int) -> nat
    decreases drops.len(),
{
    if drops.len() == 0 {
        0
    } else {
        dropped(drops.drop_last(), rule) + (if drops.last().rule == rule {
            1nat
        } else {
            0nat
        })
    }
}

fn tally_of(moves: &Vec<HostMove>, results: &Vec<Option<Outcome>>, rule: usize) -> (r: Moves)
    requires
        moves@.len() == results@.len(),
    ensures
        r == tally(moves@, results@, rule as int),
{
    let mut m = Moves { added: 0, moved: 0, removed: 0, failed: 0 };
    let mut i: usize = 0;
    proof {
        assert(moves@.take(0) =~= seq![]);
    }
    while i < moves.len()
        invariant
            i <= moves@.len(),
            moves@.len() == results@.len(),
            m == tally(moves@.take(i as int), results@.take(i as int), rule as int),
            m.total() <= i,
        decreases moves@.len() - i,
    {
        proof {
            assert(moves@.take(i + 1).drop_last() =~= moves@.take(i as int));
            assert(results@.take(i + 1).drop_last() =~= results@.take(i as int));
        }
        if moves[i].rule == rule {
            m.count(results[i]);
        }
        i += 1;
    }
    proof {
        assert(moves@.take(i as int) =~= moves@);
        assert(results@.take(i as int) =~= results@);
    }
    m
}

fn dropped_of(drops: &Vec<HostDrop>, rule: usize) -> (r: usize)
    ensures
        r == dropped(drops@, rule as int),
{
    let mut n: usize = 0;
    let mut i: usize = 0;
    proof {
        assert(drops@.take(0) =~= seq![]);
    }
    while i < drops.len()
        invariant
            i <= drops@.len(),
            n <= i,
            n == dropped(drops@.take(i as int), rule as int),
        decreases drops@.len() - i,
    {
        proof {
            assert(drops@.take(i + 1).drop_last() =~= drops@.take(i as int));
        }
        if drops[i].rule == rule {
            n += 1;
        }
        i += 1;
    }
    proof {
        assert(drops@.take(i as int) =~= drops@);
    }
    n
}

impl Resolver {
    /// Each rule in force to its tunnel of now, unless every route was taken
    /// back; returns the changes, to be written.
    pub fn pick_tunnels(&mut self, now: u128) -> (r: Vec<String>)
        requires
            old(self).wf(),
        ensures
            final(self).wf(),
            *final(self) == (Resolver { core: final(self).core, ..*old(self) }),
            if old(self).core.stopped {
                final(self).core == old(self).core && r@.len() == 0
            } else {
                &&& final(self).core == (Core { rules: final(self).core.rules, ..old(self).core })
                &&& final(self).core.rules@.len() == old(self).core.rules@.len()
                &&& forall|i: int|
                    0 <= i < old(self).core.rules@.len() ==> #[trigger] final(self).core.rules@[i]
                        == (RuleRun {
                        current: retargeted(&old(self).core, old(self).core.rules@[i], now),
                        ..old(self).core.rules@[i]
                    })
                &&& crate::text::seen(r@) == retarget_lines(
                    &old(self).core,
                    old(self).core.rules@,
                    now,
                )
            },
    {
        if self.core.stopped {
            return Vec::new();
        }
        self.core.pick_tunnels(now)
    }

    /// Hosts to the tunnels of their rules; those of rules out of force,
    /// and tunnel servers, dropped. What that takes; `settle_hosts` takes
    /// what came of it.
    pub fn place_hosts(&self) -> (r: HostPlan)
        requires
            self.wf(),
        ensures
            r.drops@ == drops(&self.core, self.hosts.entries()),
            r.moves@ == moves(&self.core, self.hosts.entries()),
    {
        let servers = self.core.endpoints();
        let ghost e = self.hosts.entries();
        let mut d: Vec<HostDrop> = Vec::new();
        let mut m: Vec<HostMove> = Vec::new();
        let mut i: usize = 0;
        proof {
            assert(e.take(0) =~= seq![]);
        }
        while i < self.hosts.len()
            invariant
                self.wf(),
                i <= e.len(),
                e == self.hosts.entries(),
                servers@ == crate::resolver::servers(self.core.states()),
                d@ == drops(&self.core, e.take(i as int)),
                m@ == moves(&self.core, e.take(i as int)),
            decreases e.len() - i,
        {
            let (k, h) = self.hosts.at(i);
            proof {
                assert(e.take(i + 1).drop_last() =~= e.take(i as int));
                assert(e.take(i + 1).last() == (k, *h));
                crate::table::lemma_mapped_at(e, i as int);
                assert(self.hosts@.dom().contains(k));
            }
            let ip = Ipv4Addr { bits: k as u32 };
            let keep = h.rule < self.core.rules.len() && self.core.rules[h.rule].active && routable(
                ip,
                &servers,
            );
            if !keep {
                d.push(HostDrop { ip, rule: h.rule, routed: h.placed.is_some() });
            } else if let Some(target) = self.core.target(h.rule) {
                let there = match h.placed {
                    Some(p) => p == target.placed(),
                    None => false,
                };
                if !there {
                    m.push(HostMove { ip, rule: h.rule, target });
                }
            }
            i += 1;
        }
        proof {
            assert(e.take(i as int) =~= e);
        }
        HostPlan { drops: d, moves: m }
    }

    /// What came of placing the hosts: the moves and the drops, by rule.
    pub fn settle_hosts(&mut self, plan: &HostPlan, results: &Vec<Option<Outcome>>) -> (r: (
        Vec<Moves>,
        Vec<usize>,
    ))
        requires
            old(self).wf(),
            plan.moves@.len() == results@.len(),
        ensures
            final(self).wf(),
            crate::resolver::only_hosts(old(self), final(self)),
            final(self).hosts@ == without_drops(
                with_moves(old(self).hosts@, plan.moves@, results@),
                plan.drops@,
            ),
            final(self).dirty == (old(self).dirty || plan.drops@.len() > 0),
            final(self).pf_stale == (old(self).pf_stale || plan.drops@.len() > 0),
            r.0@.len() == old(self).core.rules@.len(),
            r.1@.len() == old(self).core.rules@.len(),
            forall|i: int|
                0 <= i < r.0@.len() ==> #[trigger] r.0@[i] == tally(plan.moves@, results@, i),
            forall|i: int| 0 <= i < r.1@.len() ==> #[trigger] r.1@[i] == dropped(plan.drops@, i),
    {
        let ghost start = self.hosts@;
        let mut i: usize = 0;
        proof {
            assert(plan.moves@.take(0) =~= seq![]);
        }
        while i < plan.moves.len()
            invariant
                i <= plan.moves@.len(),
                plan.moves@.len() == results@.len(),
                self.wf(),
                crate::resolver::only_hosts(old(self), self),
                self.dirty == old(self).dirty,
                self.pf_stale == old(self).pf_stale,
                self.hosts@ == with_moves(
                    start,
                    plan.moves@.take(i as int),
                    results@.take(i as int),
                ),
            decreases plan.moves@.len() - i,
        {
            proof {
                assert(plan.moves@.take(i + 1).drop_last() =~= plan.moves@.take(i as int));
                assert(results@.take(i + 1).drop_last() =~= results@.take(i as int));
            }
            let v = plan.moves[i];
            if results[i].is_some() {
                let k: u64 = v.ip.bits as u64;
                let prior = match self.hosts.get(k) {
                    Some(h) => Some(*h),
                    None => None,
                };
                if let Some(h) = prior {
                    self.hosts.insert(
                        k,
                        HostRun { rule: h.rule, last: h.last, placed: Some(v.target.placed()) },
                    );
                }
            }
            i += 1;
        }
        proof {
            assert(plan.moves@.take(i as int) =~= plan.moves@);
            assert(results@.take(i as int) =~= results@);
        }
        let ghost mid = self.hosts@;
        let mut i: usize = 0;
        proof {
            assert(plan.drops@.take(0) =~= seq![]);
        }
        while i < plan.drops.len()
            invariant
                i <= plan.drops@.len(),
                self.wf(),
                crate::resolver::only_hosts(old(self), self),
                self.dirty == old(self).dirty,
                self.pf_stale == old(self).pf_stale,
                self.hosts@ == without_drops(mid, plan.drops@.take(i as int)),
            decreases plan.drops@.len() - i,
        {
            proof {
                assert(plan.drops@.take(i + 1).drop_last() =~= plan.drops@.take(i as int));
            }
            let k: u64 = plan.drops[i].ip.bits as u64;
            self.hosts.remove(k);
            i += 1;
        }
        proof {
            assert(plan.drops@.take(i as int) =~= plan.drops@);
        }
        if plan.drops.len() > 0 {
            self.dirty = true;
            self.pf_stale = true;
        }
        let mut by: Vec<Moves> = Vec::new();
        let mut gone: Vec<usize> = Vec::new();
        let mut i: usize = 0;
        while i < self.core.rules.len()
            invariant
                i <= self.core.rules@.len(),
                plan.moves@.len() == results@.len(),
                by@.len() == i,
                gone@.len() == i,
                forall|j: int|
                    0 <= j < i ==> #[trigger] by@[j] == tally(plan.moves@, results@, j),
                forall|j: int| 0 <= j < i ==> #[trigger] gone@[j] == dropped(plan.drops@, j),
            decreases self.core.rules@.len() - i,
        {
            by.push(tally_of(&plan.moves, results, i));
            gone.push(dropped_of(&plan.drops, i));
            i += 1;
        }
        (by, gone)
    }
}

/// Some move is of this host.
pub open spec fn moved_key(moves: Seq<HostMove>, k: u64) -> bool {
    exists|j: int| 0 <= j < moves.len() && crate::resolver::host_key((#[trigger] moves[j]).ip) == k
}

/// Some drop is of this host.
pub open spec fn dropped_key(drops: Seq<HostDrop>, k: u64) -> bool {
    exists|j: int| 0 <= j < drops.len() && crate::resolver::host_key((#[trigger] drops[j]).ip) == k
}

/// The move of a host, if it has one, points where `t` does.
pub open spec fn aimed(moves: Seq<HostMove>, k: u64, t: Target) -> bool {
    forall|j: int|
        0 <= j < moves.len() && crate::resolver::host_key((#[trigger] moves[j]).ip) == k
            ==> moves[j].target == t
}

/// The host stands among the entries as `h`, and as nothing else.
pub open spec fn only_as(e: Seq<(u64, HostRun)>, k: u64, h: HostRun) -> bool {
    forall|i: int| 0 <= i < e.len() && (#[trigger] e[i]).0 == k ==> e[i].1 == h
}

pub open spec fn small(e: Seq<(u64, HostRun)>) -> bool {
    forall|i: int| 0 <= i < e.len() ==> (#[trigger] e[i]).0 <= u32::MAX
}

proof fn lemma_key_front(e: Seq<(u64, HostRun)>, k: u64, h: HostRun)
    requires
        e.len() > 0,
        small(e),
        only_as(e, k, h),
    ensures
        small(e.drop_last()),
        only_as(e.drop_last(), k, h),
        crate::table::keyed(e, k) <==> crate::table::keyed(e.drop_last(), k) || e.last().0 == k,
        e.last().0 == k ==> e.last().1 == h,
        e.last().0 <= u32::MAX,
{
    let rest = e.drop_last();
    let n = e.len() - 1;
    assert(e[n] == e.last());
    assert forall|i: int| 0 <= i < rest.len() implies rest[i] == #[trigger] e[i] by {}
    assert forall|i: int| 0 <= i < rest.len() implies (#[trigger] rest[i]).0 <= u32::MAX by {
        assert(rest[i] == e[i]);
    }
    assert forall|i: int| 0 <= i < rest.len() && (#[trigger] rest[i]).0 == k implies rest[i].1
        == h by {
        assert(rest[i] == e[i]);
    }
    if crate::table::keyed(rest, k) {
        let i = choose|i: int| 0 <= i < rest.len() && (#[trigger] rest[i]).0 == k;
        assert(e[i] == rest[i]);
    }
    if crate::table::keyed(e, k) && e.last().0 != k {
        let i = choose|i: int| 0 <= i < e.len() && (#[trigger] e[i]).0 == k;
        assert(rest[i] == e[i]);
    }
}

proof fn lemma_drops_are(core: &Core, e: Seq<(u64, HostRun)>, k: u64, h: HostRun)
    requires
        small(e),
        only_as(e, k, h),
    ensures
        dropped_key(drops(core, e), k) <==> crate::table::keyed(e, k) && !stays(core, k, h),
    decreases e.len(),
{
    if e.len() > 0 {
        lemma_key_front(e, k, h);
        lemma_drops_are(core, e.drop_last(), k, h);
        let a = drops(core, e.drop_last());
        let b = drops(core, e);
        if dropped_key(a, k) {
            let j = choose|j: int|
                0 <= j < a.len() && crate::resolver::host_key((#[trigger] a[j]).ip) == k;
            assert(b[j] == a[j]);
        }
        if e.last().0 == k && !stays(core, k, h) {
            assert(crate::resolver::host_key(b[a.len() as int].ip) == k);
        }
        if dropped_key(b, k) {
            let j = choose|j: int|
                0 <= j < b.len() && crate::resolver::host_key((#[trigger] b[j]).ip) == k;
            if j < a.len() {
                assert(a[j] == b[j]);
            }
        }
    }
}

proof fn lemma_moves_are(core: &Core, e: Seq<(u64, HostRun)>, k: u64, h: HostRun)
    requires
        small(e),
        only_as(e, k, h),
    ensures
        moved_key(moves(core, e), k) <==> crate::table::keyed(e, k) && astray(core, k, h),
        aimed(moves(core, e), k, core.aim(h.rule as int)->0),
    decreases e.len(),
{
    if e.len() > 0 {
        lemma_key_front(e, k, h);
        lemma_moves_are(core, e.drop_last(), k, h);
        let a = moves(core, e.drop_last());
        let b = moves(core, e);
        if moved_key(a, k) {
            let j = choose|j: int|
                0 <= j < a.len() && crate::resolver::host_key((#[trigger] a[j]).ip) == k;
            assert(b[j] == a[j]);
        }
        if e.last().0 == k && astray(core, k, h) {
            assert(crate::resolver::host_key(b[a.len() as int].ip) == k);
        }
        if moved_key(b, k) {
            let j = choose|j: int|
                0 <= j < b.len() && crate::resolver::host_key((#[trigger] b[j]).ip) == k;
            if j < a.len() {
                assert(a[j] == b[j]);
            }
        }
        assert forall|j: int|
            0 <= j < b.len() && crate::resolver::host_key((#[trigger] b[j]).ip) == k implies b[j].target
            == core.aim(h.rule as int)->0 by {
            if j < a.len() {
                assert(a[j] == b[j]);
            }
        }
    }
}

proof fn lemma_with_moves(
    m: Map<u64, HostRun>,
    moves: Seq<HostMove>,
    results: Seq<Option<Outcome>>,
    k: u64,
    t: Target,
)
    requires
        moves.len() == results.len(),
        forall|i: int| 0 <= i < results.len() ==> (#[trigger] results[i]) is Some,
        aimed(moves, k, t),
    ensures
        with_moves(m, moves, results).dom() == m.dom(),
        m.dom().contains(k) ==> with_moves(m, moves, results)[k] == (if moved_key(moves, k) {
            HostRun { placed: Some(t.spot()), ..m[k] }
        } else {
            m[k]
        }),
    decreases moves.len(),
{
    if moves.len() > 0 {
        let a = moves.drop_last();
        let r = results.drop_last();
        let n = moves.len() - 1;
        assert(moves[n] == moves.last());
        assert(results[n] == results.last());
        assert forall|i: int| 0 <= i < r.len() implies (#[trigger] r[i]) is Some by {
            assert(r[i] == results[i]);
        }
        assert forall|j: int|
            0 <= j < a.len() && crate::resolver::host_key((#[trigger] a[j]).ip) == k implies a[j].target
            == t by {
            assert(a[j] == moves[j]);
        }
        lemma_with_moves(m, a, r, k, t);
        assert(with_moves(m, moves, results).dom() =~= m.dom());
        if moved_key(a, k) {
            let j = choose|j: int|
                0 <= j < a.len() && crate::resolver::host_key((#[trigger] a[j]).ip) == k;
            assert(moves[j] == a[j]);
        }
        if moved_key(moves, k) {
            let j = choose|j: int|
                0 <= j < moves.len() && crate::resolver::host_key((#[trigger] moves[j]).ip) == k;
            if j < n {
                assert(a[j] == moves[j]);
            }
        }
    }
}

proof fn lemma_without_drops(m: Map<u64, HostRun>, drops: Seq<HostDrop>, k: u64)
    ensures
        without_drops(m, drops).dom().contains(k) <==> m.dom().contains(k) && !dropped_key(
            drops,
            k,
        ),
        without_drops(m, drops).dom().contains(k) ==> without_drops(m, drops)[k] == m[k],
    decreases drops.len(),
{
    if drops.len() > 0 {
        let a = drops.drop_last();
        lemma_without_drops(m, a, k);
        let n = drops.len() - 1;
        assert(drops[n] == drops.last());
        if dropped_key(a, k) {
            let j = choose|j: int|
                0 <= j < a.len() && crate::resolver::host_key((#[trigger] a[j]).ip) == k;
            assert(drops[j] == a[j]);
        }
        if dropped_key(drops, k) {
            let j = choose|j: int|
                0 <= j < drops.len() && crate::resolver::host_key((#[trigger] drops[j]).ip) == k;
            if j < n {
                assert(a[j] == drops[j]);
            }
        }
    }
}

/// When every route of a plan goes well, the hosts are in line with the
/// rules: the hosts left are those of rules in force that may have a route,
/// and each points where its rule does, if that points anywhere.
pub proof fn lemma_hosts_in_line(
    core: &Core,
    e: Seq<(u64, HostRun)>,
    results: Seq<Option<Outcome>>,
    k: u64,
)
    requires
        crate::table::ascending(e),
        crate::resolver::hosts_sound(crate::table::mapped(e)),
        results.len() == moves(core, e).len(),
        forall|i: int| 0 <= i < results.len() ==> (#[trigger] results[i]) is Some,
    ensures
        ({
            let m = crate::table::mapped(e);
            let f = without_drops(with_moves(m, moves(core, e), results), drops(core, e));
            &&& f.dom().contains(k) <==> m.dom().contains(k) && stays(core, k, m[k])
            &&& f.dom().contains(k) ==> {
                &&& f[k].rule == m[k].rule
                &&& f[k].last == m[k].last
                &&& core.aim(f[k].rule as int) matches Some(t) ==> f[k].placed == Some(t.spot())
            }
        }),
{
    let m = crate::table::mapped(e);
    assert forall|i: int| 0 <= i < e.len() implies (#[trigger] e[i]).0 <= u32::MAX by {
        crate::table::lemma_mapped_at(e, i);
        assert(m.dom().contains(e[i].0));
    }
    let h = m[k];
    assert forall|i: int| 0 <= i < e.len() && (#[trigger] e[i]).0 == k implies e[i].1 == h by {
        crate::table::lemma_mapped_at(e, i);
    }
    lemma_drops_are(core, e, k, h);
    lemma_moves_are(core, e, k, h);
    lemma_with_moves(m, moves(core, e), results, k, core.aim(h.rule as int)->0);
    lemma_without_drops(with_moves(m, moves(core, e), results), drops(core, e), k);
}

// ---------------------------------------------------------------------
// Subnets.
// ---------------------------------------------------------------------

/// The target the subnets of a rule go to: with fake addresses upstream and
/// a tunnel that does not carry, they go to the router.
pub open spec fn placeable(core: &Core, rule: int) -> Option<Target> {
    if core.use_fakeip && core.why(rule).tunnel {
        None
    } else {
        core.aim(rule)
    }
}

/// A subnet that holds a tunnel server.
pub open spec fn holds_server(core: &Core, s: Subnet) -> bool {
    exists|i: int|
        0 <= i < crate::resolver::servers(core.states()).len() && s.has(
            #[trigger] crate::resolver::servers(core.states())[i],
        )
}

/// Subnets to the tunnel of the first rule in force that has them; one that
/// holds a tunnel server is not routed.
pub open spec fn wanted_net(
    core: &Core,
    nets: Seq<(Subnet, Seq<char>)>,
    s: Subnet,
) -> Option<(int, Target)> {
    match net_owner(core, nets, s) {
        Some(r) => if holds_server(core, s) {
            None
        } else {
            match placeable(core, r) {
                Some(t) => Some((r, t)),
                None => None,
            }
        },
        None => None,
    }
}

/// A subnet that would be routed, but for the server it holds.
pub open spec fn skipped_net(core: &Core, nets: Seq<(Subnet, Seq<char>)>, s: Subnet) -> bool {
    net_owner(core, nets, s) is Some && holds_server(core, s)
}

/// A route in place that is where it is wanted.
pub open spec fn in_place(core: &Core, nets: Seq<(Subnet, Seq<char>)>, run: NetRun) -> bool {
    wanted_net(core, nets, run.net) matches Some((r, t)) && r == run.rule && t.spot() == run.placed
}

/// A subnet route that goes; it is deleted unless it is set anew.
#[derive(Clone, Copy, Debug, PartialEq, Eq, Structural)]
pub struct NetGone {
    pub net: Subnet,
    pub rule: usize,
    pub delete: bool,
}

/// A subnet to be routed.
#[derive(Clone, Copy, Debug, PartialEq, Eq, Structural)]
pub struct NetMove {
    pub net: Subnet,
    pub rule: usize,
    pub target: Target,
}

pub open spec fn goners(
    core: &Core,
    nets: Seq<(Subnet, Seq<char>)>,
    e: Seq<(u64, NetRun)>,
) -> Seq<NetGone>
    decreases e.len(),
{
    if e.len() == 0 {
        seq![]
    } else {
        let run = e.last().1;
        let rest = goners(core, nets, e.drop_last());
        if in_place(core, nets, run) {
            rest
        } else {
            rest.push(
                NetGone {
                    net: run.net,
                    rule: run.rule,
                    delete: wanted_net(core, nets, run.net) is None,
                },
            )
        }
    }
}

/// A subnet is wanted, and is not where it is wanted.
pub open spec fn amiss(
    core: &Core,
    nets: Seq<(Subnet, Seq<char>)>,
    m: Map<u64, NetRun>,
    s: Subnet,
) -> bool {
    wanted_net(core, nets, s) is Some && !(m.dom().contains(crate::resolver::net_key(s))
        && in_place(core, nets, m[crate::resolver::net_key(s)]))
}

/// The subnets to be routed: those that are amiss, each once, with the rule
/// and the target they are wanted for.
pub open spec fn sets(
    v: Seq<NetMove>,
    core: &Core,
    nets: Seq<(Subnet, Seq<char>)>,
    m: Map<u64, NetRun>,
) -> bool {
    &&& forall|j: int|
        0 <= j < v.len() ==> {
            &&& (#[trigger] v[j]).net.canonical()
            &&& amiss(core, nets, m, v[j].net)
            &&& wanted_net(core, nets, v[j].net) == Some((v[j].rule as int, v[j].target))
        }
    &&& forall|s: Subnet|
        s.canonical() && #[trigger] amiss(core, nets, m, s) ==> exists|j: int|
            0 <= j < v.len() && (#[trigger] v[j]).net == s
    &&& forall|i: int, j: int|
        0 <= i < j < v.len() ==> crate::resolver::net_key((#[trigger] v[i]).net)
            < crate::resolver::net_key((#[trigger] v[j]).net)
}

/// The subnets skipped, all of them.
pub open spec fn skips(
    m: Map<u64, Subnet>,
    core: &Core,
    nets: Seq<(Subnet, Seq<char>)>,
) -> bool {
    &&& crate::resolver::marks_sound(m)
    &&& forall|s: Subnet|
        s.canonical() ==> (#[trigger] skipped_net(core, nets, s) <==> m.dom().contains(
            crate::resolver::net_key(s),
        ))
}

/// What bringing the subnets in line takes.
#[derive(Debug)]
pub struct NetPlan {
    pub skipped: Table<Subnet>,
    /// Those of the skipped the journal was not told of.
    pub fresh: Vec<Subnet>,
    pub gone: Vec<NetGone>,
    pub set: Vec<NetMove>,
}

pub open spec fn without_gone(m: Map<u64, NetRun>, gone: Seq<NetGone>) -> Map<u64, NetRun>
    decreases gone.len(),
{
    if gone.len() == 0 {
        m
    } else {
        without_gone(m, gone.drop_last()).remove(crate::resolver::net_key(gone.last().net))
    }
}

pub open spec fn with_sets(
    m: Map<u64, NetRun>,
    set: Seq<NetMove>,
    results: Seq<Option<Outcome>>,
) -> Map<u64, NetRun>
    decreases set.len(),
{
    if set.len() == 0 {
        m
    } else {
        let rest = with_sets(m, set.drop_last(), results.drop_last());
        let v = set.last();
        if results.last() is Some {
            rest.insert(
                crate::resolver::net_key(v.net),
                NetRun { net: v.net, rule: v.rule, placed: v.target.spot() },
            )
        } else {
            rest
        }
    }
}

/// How many routes of a rule were removed.
pub open spec fn removed(gone: Seq<NetGone>, deleted: Seq<bool>, rule: int) -> nat
    decreases gone.len(),
{
    if gone.len() == 0 {
        0
    } else {
        removed(gone.drop_last(), deleted.drop_last(), rule) + (if gone.last().rule == rule
            && gone.last().delete && deleted.last() {
            1nat
        } else {
            0nat
        })
    }
}

pub open spec fn set_tally(set: Seq<NetMove>, results: Seq<Option<Outcome>>, rule: int) -> Moves
    decreases set.len(),
{
    if set.len() == 0 {
        Moves::none()
    } else {
        let rest = set_tally(set.drop_last(), results.drop_last(), rule);
        if set.last().rule == rule {
            rest.with(results.last())
        } else {
            rest
        }
    }
}

fn removed_of(gone: &Vec<NetGone>, deleted: &Vec<bool>, rule: usize) -> (r: usize)
    requires
        gone@.len() == deleted@.len(),
    ensures
        r == removed(gone@, deleted@, rule as int),
{
    let mut n: usize = 0;
    let mut i: usize = 0;
    proof {
        assert(gone@.take(0) =~= seq![]);
    }
    while i < gone.len()
        invariant
            i <= gone@.len(),
            gone@.len() == deleted@.len(),
            n <= i,
            n == removed(gone@.take(i as int), deleted@.take(i as int), rule as int),
        decreases gone@.len() - i,
    {
        proof {
            assert(gone@.take(i + 1).drop_last() =~= gone@.take(i as int));
            assert(deleted@.take(i + 1).drop_last() =~= deleted@.take(i as int));
        }
        if gone[i].rule == rule && gone[i].delete && deleted[i] {
            n += 1;
        }
        i += 1;
    }
    proof {
        assert(gone@.take(i as int) =~= gone@);
        assert(deleted@.take(i as int) =~= deleted@);
    }
    n
}

fn set_tally_of(set: &Vec<NetMove>, results: &Vec<Option<Outcome>>, rule: usize) -> (r: Moves)
    requires
        set@.len() == results@.len(),
    ensures
        r == set_tally(set@, results@, rule as int),
        r.removed == 0,
{
    let mut m = Moves { added: 0, moved: 0, removed: 0, failed: 0 };
    let mut i: usize = 0;
    proof {
        assert(set@.take(0) =~= seq![]);
    }
    while i < set.len()
        invariant
            i <= set@.len(),
            set@.len() == results@.len(),
            m == set_tally(set@.take(i as int), results@.take(i as int), rule as int),
            m.total() <= i,
            m.removed == 0,
        decreases set@.len() - i,
    {
        proof {
            assert(set@.take(i + 1).drop_last() =~= set@.take(i as int));
            assert(results@.take(i + 1).drop_last() =~= results@.take(i as int));
        }
        if set[i].rule == rule {
            m.count(results[i]);
        }
        i += 1;
    }
    proof {
        assert(set@.take(i as int) =~= set@);
        assert(results@.take(i as int) =~= results@);
    }
    m
}

impl Core {
    fn placeable_target(&self, rule: usize) -> (r: Option<Target>)
        ensures
            r == placeable(self, rule as int),
    {
        if self.use_fakeip && self.reasons(rule).tunnel {
            None
        } else {
            self.target(rule)
        }
    }

    fn has_server(&self, servers: &Vec<Ipv4Addr>, s: Subnet) -> (r: bool)
        requires
            s.wf(),
            servers@ == crate::resolver::servers(self.states()),
        ensures
            r == holds_server(self, s),
    {
        let mut i: usize = 0;
        while i < servers.len()
            invariant
                i <= servers@.len(),
                s.wf(),
                servers@ == crate::resolver::servers(self.states()),
                forall|j: int| 0 <= j < i ==> !s.has(#[trigger] servers@[j]),
            decreases servers@.len() - i,
        {
            if s.contains(servers[i]) {
                proof {
                    assert(s.has(crate::resolver::servers(self.states())[i as int]));
                }
                return true;
            }
            i += 1;
        }
        false
    }
}

impl Resolver {
    /// Where a subnet is wanted, from the table of the owners.
    fn wanted_of(&self, owners: &Table<Owned>, servers: &Vec<Ipv4Addr>, s: Subnet) -> (r: Option<
        (usize, Target),
    >)
        requires
            owners.wf(),
            owns(owners@, &self.core, self.nets()),
            servers@ == crate::resolver::servers(self.core.states()),
            s.canonical(),
        ensures
            match r {
                Some((rule, t)) => wanted_net(&self.core, self.nets(), s) == Some((rule as int, t)),
                None => wanted_net(&self.core, self.nets(), s) is None,
            },
    {
        match owners.get(key_of(s)) {
            Some(o) => {
                proof {
                    crate::resolver::lemma_net_key(o.net, s);
                }
                if self.core.has_server(servers, s) {
                    return None;
                }
                match self.core.placeable_target(o.rule) {
                    Some(t) => Some((o.rule, t)),
                    None => None,
                }
            },
            None => {
                proof {
                    assert(net_owner(&self.core, self.nets(), s) is None);
                }
                None
            },
        }
    }

    /// Subnets to the tunnel of the first rule in force that has them; with
    /// fake addresses upstream and that tunnel not carrying, to the router.
    /// A subnet that holds a tunnel server is not routed. What that takes;
    /// `settle_subnets` takes what came of it.
    pub fn place_subnets(&self) -> (r: NetPlan)
        requires
            self.wf(),
        ensures
            r.skipped.wf(),
            skips(r.skipped@, &self.core, self.nets()),
            forall|s: Subnet|
                s.canonical() ==> (#[trigger] r.fresh@.contains(s) <==> skipped_net(
                    &self.core,
                    self.nets(),
                    s,
                ) && !self.unrouted@.dom().contains(crate::resolver::net_key(s))),
            r.fresh@.no_duplicates(),
            forall|i: int| 0 <= i < r.fresh@.len() ==> (#[trigger] r.fresh@[i]).canonical(),
            r.gone@ == goners(&self.core, self.nets(), self.subnets.entries()),
            sets(r.set@, &self.core, self.nets(), self.subnets@),
    {
        let owners = self.subnet_owners();
        let servers = self.core.endpoints();
        let ghost nets = self.nets();
        let ghost o = owners.entries();
        let mut skipped: Table<Subnet> = Table::new();
        let mut fresh: Vec<Subnet> = Vec::new();
        let mut set: Vec<NetMove> = Vec::new();
        let mut i: usize = 0;
        while i < owners.len()
            invariant
                self.wf(),
                i <= o.len(),
                o == owners.entries(),
                nets == self.nets(),
                owners.wf(),
                owns(owners@, &self.core, nets),
                servers@ == crate::resolver::servers(self.core.states()),
                skipped.wf(),
                crate::resolver::marks_sound(skipped@),
                forall|k: u64| #[trigger]
                    skipped@.dom().contains(k) <==> exists|j: int|
                        0 <= j < i && (#[trigger] o[j]).0 == k && skipped_net(
                            &self.core,
                            nets,
                            o[j].1.net,
                        ),
                forall|s: Subnet|
                    #![trigger fresh@.contains(s)]
                    s.canonical() ==> (fresh@.contains(s) <==> exists|j: int|
                        0 <= j < i && (#[trigger] o[j]).1.net == s && skipped_net(
                            &self.core,
                            nets,
                            s,
                        ) && !self.unrouted@.dom().contains(crate::resolver::net_key(s))),
                forall|j: int|
                    0 <= j < set@.len() ==> {
                        &&& (#[trigger] set@[j]).net.canonical()
                        &&& amiss(&self.core, nets, self.subnets@, set@[j].net)
                        &&& wanted_net(&self.core, nets, set@[j].net) == Some(
                            (set@[j].rule as int, set@[j].target),
                        )
                    },
                forall|j: int|
                    0 <= j < i && amiss(&self.core, nets, self.subnets@, (#[trigger] o[j]).1.net)
                        ==> exists|x: int| 0 <= x < set@.len() && (#[trigger] set@[x]).net
                        == o[j].1.net,
                forall|x: int, y: int|
                    0 <= x < y < set@.len() ==> crate::resolver::net_key((#[trigger] set@[x]).net)
                        < crate::resolver::net_key((#[trigger] set@[y]).net),
                forall|x: int|
                    0 <= x < set@.len() ==> exists|j: int|
                        0 <= j < i && (#[trigger] o[j]).0 == crate::resolver::net_key(
                            (#[trigger] set@[x]).net,
                        ),
                fresh@.no_duplicates(),
                forall|x: int| 0 <= x < fresh@.len() ==> (#[trigger] fresh@[x]).canonical(),
            decreases o.len() - i,
        {
            let (k, own) = owners.at(i);
            let s = own.net;
            proof {
                crate::table::lemma_mapped_at(o, i as int);
                assert(owners@.dom().contains(k));
            }
            let ghost skipped_before = skipped@;
            let ghost fresh_before = fresh@;
            let ghost set_before = set@;
            if self.core.has_server(&servers, s) {
                skipped.insert(k, s);
                let told = self.unrouted.get(k).is_some();
                if !told {
                    proof {
                        if fresh@.contains(s) {
                            let j = choose|j: int|
                                0 <= j < i && (#[trigger] o[j]).1.net == s && skipped_net(
                                    &self.core,
                                    nets,
                                    s,
                                ) && !self.unrouted@.dom().contains(crate::resolver::net_key(s));
                            crate::table::lemma_mapped_at(o, j);
                            assert(o[j].0 == k);
                            assert(o[j].0 < o[i as int].0);
                        }
                    }
                    fresh.push(s);
                }
            } else if let Some(target) = self.core.placeable_target(own.rule) {
                let there = match self.subnets.get(k) {
                    Some(run) => run.rule == own.rule && run.placed == target.placed(),
                    None => false,
                };
                proof {
                    if self.subnets@.dom().contains(k) {
                        crate::resolver::lemma_net_key(self.subnets@[k].net, s);
                    }
                }
                if !there {
                    set.push(NetMove { net: s, rule: own.rule, target });
                    proof {
                        assert(set@[set_before.len() as int].net == s);
                    }
                }
            }
            proof {
                assert(o[i as int] == (k, *own));
                assert forall|q: u64| #[trigger] skipped@.dom().contains(q) <==> exists|j: int|
                    0 <= j < i + 1 && (#[trigger] o[j]).0 == q && skipped_net(
                        &self.core,
                        nets,
                        o[j].1.net,
                    ) by {
                    if skipped@.dom().contains(q) {
                        if q == k && !skipped_before.dom().contains(q) {
                            assert(o[i as int].0 == q);
                        } else if skipped_before.dom().contains(q) {
                            let j = choose|j: int|
                                0 <= j < i && (#[trigger] o[j]).0 == q && skipped_net(
                                    &self.core,
                                    nets,
                                    o[j].1.net,
                                );
                            assert(o[j].0 == q);
                        }
                    }
                    if exists|j: int|
                        0 <= j < i + 1 && (#[trigger] o[j]).0 == q && skipped_net(
                            &self.core,
                            nets,
                            o[j].1.net,
                        ) {
                        let j = choose|j: int|
                            0 <= j < i + 1 && (#[trigger] o[j]).0 == q && skipped_net(
                                &self.core,
                                nets,
                                o[j].1.net,
                            );
                        if j < i {
                            assert(skipped_before.dom().contains(q));
                        }
                    }
                }
                assert forall|t: Subnet| t.canonical() implies (#[trigger] fresh@.contains(t) <==> exists|
                    j: int,
                |
                    0 <= j < i + 1 && (#[trigger] o[j]).1.net == t && skipped_net(
                        &self.core,
                        nets,
                        t,
                    ) && !self.unrouted@.dom().contains(crate::resolver::net_key(t))) by {
                    lemma_fresh_step(fresh_before, fresh@, s, t);
                    if fresh_before.contains(t) {
                        let j = choose|j: int|
                            0 <= j < i && (#[trigger] o[j]).1.net == t && skipped_net(
                                &self.core,
                                nets,
                                t,
                            ) && !self.unrouted@.dom().contains(crate::resolver::net_key(t));
                        assert(o[j].1.net == t);
                    }
                    if t == s {
                        assert(o[i as int].1.net == t);
                    }
                    if exists|j: int|
                        0 <= j < i + 1 && (#[trigger] o[j]).1.net == t && skipped_net(
                            &self.core,
                            nets,
                            t,
                        ) && !self.unrouted@.dom().contains(crate::resolver::net_key(t)) {
                        let j = choose|j: int|
                            0 <= j < i + 1 && (#[trigger] o[j]).1.net == t && skipped_net(
                                &self.core,
                                nets,
                                t,
                            ) && !self.unrouted@.dom().contains(crate::resolver::net_key(t));
                        if j < i {
                            assert(fresh_before.contains(t));
                        }
                    }
                }
                assert forall|j: int|
                    0 <= j < i + 1 && amiss(
                        &self.core,
                        nets,
                        self.subnets@,
                        (#[trigger] o[j]).1.net,
                    ) implies exists|x: int|
                    0 <= x < set@.len() && (#[trigger] set@[x]).net == o[j].1.net by {
                    if j < i {
                        let x = choose|x: int|
                            0 <= x < set_before.len() && (#[trigger] set_before[x]).net
                                == o[j].1.net;
                        assert(set@[x] == set_before[x]);
                    } else {
                        assert(set@[set_before.len() as int].net == s);
                    }
                }
                assert forall|x: int| 0 <= x < set@.len() implies exists|j: int|
                    0 <= j < i + 1 && (#[trigger] o[j]).0 == crate::resolver::net_key(
                        (#[trigger] set@[x]).net,
                    ) by {
                    if x < set_before.len() {
                        assert(set@[x] == set_before[x]);
                        let j = choose|j: int|
                            0 <= j < i && (#[trigger] o[j]).0 == crate::resolver::net_key(
                                set_before[x].net,
                            );
                        assert(o[j].0 == crate::resolver::net_key(set@[x].net));
                    } else {
                        assert(o[i as int].0 == crate::resolver::net_key(s));
                    }
                }
                assert forall|x: int, y: int| 0 <= x < y < set@.len() implies crate::resolver::net_key(
                    (#[trigger] set@[x]).net,
                ) < crate::resolver::net_key((#[trigger] set@[y]).net) by {
                    if y == set_before.len() {
                        assert(set@[x] == set_before[x]);
                        let j = choose|j: int|
                            0 <= j < i && (#[trigger] o[j]).0 == crate::resolver::net_key(
                                set_before[x].net,
                            );
                        assert(o[j].0 < o[i as int].0);
                    } else {
                        assert(set@[x] == set_before[x] && set@[y] == set_before[y]);
                    }
                }
            }
            i += 1;
        }
        let gone = self.leaving(&owners, &servers);
        proof {
            assert forall|s: Subnet| s.canonical() implies (#[trigger] skipped_net(
                &self.core,
                nets,
                s,
            ) <==> skipped@.dom().contains(crate::resolver::net_key(s))) by {
                let q = crate::resolver::net_key(s);
                if skipped_net(&self.core, nets, s) {
                    lemma_owner_listed(owners, &self.core, nets, s);
                    let j = choose|j: int| 0 <= j < o.len() && (#[trigger] o[j]).1.net == s;
                    crate::table::lemma_mapped_at(o, j);
                    assert(o[j].0 == q);
                }
                if skipped@.dom().contains(q) {
                    let j = choose|j: int|
                        0 <= j < o.len() && (#[trigger] o[j]).0 == q && skipped_net(
                            &self.core,
                            nets,
                            o[j].1.net,
                        );
                    crate::table::lemma_mapped_at(o, j);
                    crate::resolver::lemma_net_key(o[j].1.net, s);
                }
            }
            assert forall|s: Subnet| s.canonical() implies (#[trigger] fresh@.contains(s)
                <==> skipped_net(&self.core, nets, s) && !self.unrouted@.dom().contains(
                crate::resolver::net_key(s),
            )) by {
                if skipped_net(&self.core, nets, s) {
                    lemma_owner_listed(owners, &self.core, nets, s);
                    let j = choose|j: int| 0 <= j < o.len() && (#[trigger] o[j]).1.net == s;
                    assert(o[j].1.net == s);
                }
            }
            assert forall|s: Subnet|
                s.canonical() && #[trigger] amiss(
                    &self.core,
                    nets,
                    self.subnets@,
                    s,
                ) implies exists|j: int| 0 <= j < set@.len() && (#[trigger] set@[j]).net == s by {
                lemma_owner_listed(owners, &self.core, nets, s);
                let j = choose|j: int| 0 <= j < o.len() && (#[trigger] o[j]).1.net == s;
                assert(amiss(&self.core, nets, self.subnets@, o[j].1.net));
            }
        }
        NetPlan { skipped, fresh, gone, set }
    }

    fn leaving(&self, owners: &Table<Owned>, servers: &Vec<Ipv4Addr>) -> (r: Vec<NetGone>)
        requires
            self.wf(),
            owners.wf(),
            owns(owners@, &self.core, self.nets()),
            servers@ == crate::resolver::servers(self.core.states()),
        ensures
            r@ == goners(&self.core, self.nets(), self.subnets.entries()),
    {
        let ghost e = self.subnets.entries();
        let mut gone: Vec<NetGone> = Vec::new();
        let mut i: usize = 0;
        proof {
            assert(e.take(0) =~= seq![]);
        }
        while i < self.subnets.len()
            invariant
                self.wf(),
                owners.wf(),
                owns(owners@, &self.core, self.nets()),
                servers@ == crate::resolver::servers(self.core.states()),
                i <= e.len(),
                e == self.subnets.entries(),
                gone@ == goners(&self.core, self.nets(), e.take(i as int)),
            decreases e.len() - i,
        {
            let (k, run) = self.subnets.at(i);
            proof {
                assert(e.take(i + 1).drop_last() =~= e.take(i as int));
                assert(e.take(i + 1).last() == (k, *run));
                crate::table::lemma_mapped_at(e, i as int);
                assert(self.subnets@.dom().contains(k));
            }
            match self.wanted_of(owners, servers, run.net) {
                Some((rule, t)) => {
                    if rule != run.rule || t.placed() != run.placed {
                        gone.push(NetGone { net: run.net, rule: run.rule, delete: false });
                    }
                },
                None => {
                    gone.push(NetGone { net: run.net, rule: run.rule, delete: true });
                },
            }
            i += 1;
        }
        proof {
            assert(e.take(i as int) =~= e);
        }
        gone
    }

    /// What came of placing the subnets: which of the gone were there to
    /// delete, and what came of each route. The moves, by rule.
    pub fn settle_subnets(
        &mut self,
        plan: NetPlan,
        deleted: &Vec<bool>,
        results: &Vec<Option<Outcome>>,
    ) -> (r: Vec<Moves>)
        requires
            old(self).wf(),
            plan.skipped.wf(),
            crate::resolver::marks_sound(plan.skipped@),
            plan.gone@.len() == deleted@.len(),
            plan.set@.len() == results@.len(),
            forall|j: int| 0 <= j < plan.set@.len() ==> (#[trigger] plan.set@[j]).net.canonical(),
            forall|j: int| 0 <= j < plan.gone@.len() ==> (#[trigger] plan.gone@[j]).net.wf(),
        ensures
            final(self).wf(),
            *final(self) == (Resolver {
                subnets: final(self).subnets,
                unrouted: plan.skipped,
                ..*old(self)
            }),
            final(self).subnets@ == with_sets(
                without_gone(old(self).subnets@, plan.gone@),
                plan.set@,
                results@,
            ),
            r@.len() == old(self).core.rules@.len(),
            forall|i: int|
                0 <= i < r@.len() ==> #[trigger] r@[i] == (Moves {
                    removed: removed(plan.gone@, deleted@, i) as usize,
                    ..set_tally(plan.set@, results@, i)
                }),
    {
        let ghost start = self.subnets@;
        let mut i: usize = 0;
        proof {
            assert(plan.gone@.take(0) =~= seq![]);
        }
        while i < plan.gone.len()
            invariant
                i <= plan.gone@.len(),
                forall|j: int| 0 <= j < plan.gone@.len() ==> (#[trigger] plan.gone@[j]).net.wf(),
                self.wf(),
                *self == (Resolver { subnets: self.subnets, ..*old(self) }),
                self.subnets@ == without_gone(start, plan.gone@.take(i as int)),
            decreases plan.gone@.len() - i,
        {
            proof {
                assert(plan.gone@.take(i + 1).drop_last() =~= plan.gone@.take(i as int));
            }
            let k = key_of(plan.gone[i].net);
            self.subnets.remove(k);
            i += 1;
        }
        proof {
            assert(plan.gone@.take(i as int) =~= plan.gone@);
        }
        let ghost mid = self.subnets@;
        let mut i: usize = 0;
        proof {
            assert(plan.set@.take(0) =~= seq![]);
        }
        while i < plan.set.len()
            invariant
                i <= plan.set@.len(),
                plan.set@.len() == results@.len(),
                forall|j: int|
                    0 <= j < plan.set@.len() ==> (#[trigger] plan.set@[j]).net.canonical(),
                self.wf(),
                *self == (Resolver { subnets: self.subnets, ..*old(self) }),
                self.subnets@ == with_sets(mid, plan.set@.take(i as int), results@.take(i as int)),
            decreases plan.set@.len() - i,
        {
            proof {
                assert(plan.set@.take(i + 1).drop_last() =~= plan.set@.take(i as int));
                assert(results@.take(i + 1).drop_last() =~= results@.take(i as int));
            }
            let v = plan.set[i];
            if results[i].is_some() {
                let k = key_of(v.net);
                self.subnets.insert(
                    k,
                    NetRun { net: v.net, rule: v.rule, placed: v.target.placed() },
                );
            }
            i += 1;
        }
        proof {
            assert(plan.set@.take(i as int) =~= plan.set@);
            assert(results@.take(i as int) =~= results@);
        }
        let mut by: Vec<Moves> = Vec::new();
        let mut i: usize = 0;
        while i < self.core.rules.len()
            invariant
                i <= self.core.rules@.len(),
                plan.gone@.len() == deleted@.len(),
                plan.set@.len() == results@.len(),
                by@.len() == i,
                forall|j: int|
                    0 <= j < i ==> #[trigger] by@[j] == (Moves {
                        removed: removed(plan.gone@, deleted@, j) as usize,
                        ..set_tally(plan.set@, results@, j)
                    }),
            decreases self.core.rules@.len() - i,
        {
            let mut m = set_tally_of(&plan.set, results, i);
            m.removed = removed_of(&plan.gone, deleted, i);
            by.push(m);
            i += 1;
        }
        self.unrouted = plan.skipped;
        by
    }
}

proof fn lemma_fresh_step(before: Seq<Subnet>, after: Seq<Subnet>, s: Subnet, t: Subnet)
    requires
        after == before || after == before.push(s),
    ensures
        after.contains(t) <==> before.contains(t) || (after == before.push(s) && t == s),
{
    if after == before.push(s) {
        assert(after[before.len() as int] == s);
        if before.contains(t) {
            let j = choose|j: int| 0 <= j < before.len() && before[j] == t;
            assert(after[j] == t);
        }
        if after.contains(t) {
            let j = choose|j: int| 0 <= j < after.len() && after[j] == t;
            if j < before.len() {
                assert(before[j] == t);
            }
        }
    }
}

pub proof fn lemma_owner_listed(
    owners: Table<Owned>,
    core: &Core,
    nets: Seq<(Subnet, Seq<char>)>,
    s: Subnet,
)
    requires
        owners.wf(),
        owns(owners@, core, nets),
        s.canonical(),
        net_owner(core, nets, s) is Some,
    ensures
        exists|j: int| 0 <= j < owners.entries().len() && (#[trigger] owners.entries()[j]).1.net == s,
{
    let k = crate::resolver::net_key(s);
    let o = owners.entries();
    assert(owners@.dom().contains(k));
    let j = choose|j: int| 0 <= j < o.len() && (#[trigger] o[j]).0 == k;
    crate::table::lemma_mapped_at(o, j);
    crate::resolver::lemma_net_key(o[j].1.net, s);
}

/// Some gone route is at this number.
pub open spec fn gone_key(gone: Seq<NetGone>, k: u64) -> bool {
    exists|j: int| 0 <= j < gone.len() && crate::resolver::net_key((#[trigger] gone[j]).net) == k
}

pub open spec fn set_key(set: Seq<NetMove>, k: u64) -> bool {
    exists|j: int| 0 <= j < set.len() && crate::resolver::net_key((#[trigger] set[j]).net) == k
}

/// Every entry stands at the number of its subnet.
pub open spec fn numbered(e: Seq<(u64, NetRun)>) -> bool {
    forall|i: int|
        0 <= i < e.len() ==> (#[trigger] e[i]).0 == crate::resolver::net_key(e[i].1.net)
}

/// What stands at the number is `run`, and nothing else.
pub open spec fn only_run(e: Seq<(u64, NetRun)>, k: u64, run: NetRun) -> bool {
    forall|i: int| 0 <= i < e.len() && (#[trigger] e[i]).0 == k ==> e[i].1 == run
}

proof fn lemma_goners_are(
    core: &Core,
    nets: Seq<(Subnet, Seq<char>)>,
    e: Seq<(u64, NetRun)>,
    k: u64,
    run: NetRun,
)
    requires
        numbered(e),
        only_run(e, k, run),
    ensures
        gone_key(goners(core, nets, e), k) <==> crate::table::keyed(e, k) && !in_place(
            core,
            nets,
            run,
        ),
    decreases e.len(),
{
    if e.len() > 0 {
        let rest = e.drop_last();
        let n = e.len() - 1;
        assert(e[n] == e.last());
        assert forall|i: int| 0 <= i < rest.len() implies (#[trigger] rest[i]).0
            == crate::resolver::net_key(rest[i].1.net) by {
            assert(rest[i] == e[i]);
        }
        assert forall|i: int| 0 <= i < rest.len() && (#[trigger] rest[i]).0 == k implies rest[i].1
            == run by {
            assert(rest[i] == e[i]);
        }
        lemma_goners_are(core, nets, rest, k, run);
        let a = goners(core, nets, rest);
        let b = goners(core, nets, e);
        if crate::table::keyed(rest, k) {
            let i = choose|i: int| 0 <= i < rest.len() && (#[trigger] rest[i]).0 == k;
            assert(e[i] == rest[i]);
        }
        if crate::table::keyed(e, k) {
            let i = choose|i: int| 0 <= i < e.len() && (#[trigger] e[i]).0 == k;
            if i < n {
                assert(rest[i] == e[i]);
            }
        }
        if gone_key(a, k) {
            let j = choose|j: int|
                0 <= j < a.len() && crate::resolver::net_key((#[trigger] a[j]).net) == k;
            assert(b[j] == a[j]);
        }
        if e.last().0 == k && !in_place(core, nets, run) {
            assert(crate::resolver::net_key(b[a.len() as int].net) == k);
        }
        if gone_key(b, k) {
            let j = choose|j: int|
                0 <= j < b.len() && crate::resolver::net_key((#[trigger] b[j]).net) == k;
            if j < a.len() {
                assert(a[j] == b[j]);
            }
        }
    }
}

proof fn lemma_without_gone(m: Map<u64, NetRun>, gone: Seq<NetGone>, k: u64)
    ensures
        without_gone(m, gone).dom().contains(k) <==> m.dom().contains(k) && !gone_key(gone, k),
        without_gone(m, gone).dom().contains(k) ==> without_gone(m, gone)[k] == m[k],
    decreases gone.len(),
{
    if gone.len() > 0 {
        let a = gone.drop_last();
        let n = gone.len() - 1;
        assert(gone[n] == gone.last());
        lemma_without_gone(m, a, k);
        if gone_key(a, k) {
            let j = choose|j: int|
                0 <= j < a.len() && crate::resolver::net_key((#[trigger] a[j]).net) == k;
            assert(gone[j] == a[j]);
        }
        if gone_key(gone, k) {
            let j = choose|j: int|
                0 <= j < gone.len() && crate::resolver::net_key((#[trigger] gone[j]).net) == k;
            if j < n {
                assert(a[j] == gone[j]);
            }
        }
    }
}

proof fn lemma_with_sets(
    m: Map<u64, NetRun>,
    set: Seq<NetMove>,
    results: Seq<Option<Outcome>>,
    k: u64,
    run: NetRun,
)
    requires
        set.len() == results.len(),
        forall|i: int| 0 <= i < results.len() ==> (#[trigger] results[i]) is Some,
        forall|j: int|
            0 <= j < set.len() && crate::resolver::net_key((#[trigger] set[j]).net) == k ==> run == (
            NetRun { net: set[j].net, rule: set[j].rule, placed: set[j].target.spot() }),
    ensures
        with_sets(m, set, results).dom().contains(k) <==> m.dom().contains(k) || set_key(set, k),
        with_sets(m, set, results).dom().contains(k) ==> with_sets(m, set, results)[k] == (
        if set_key(set, k) {
            run
        } else {
            m[k]
        }),
    decreases set.len(),
{
    if set.len() > 0 {
        let a = set.drop_last();
        let r = results.drop_last();
        let n = set.len() - 1;
        assert(set[n] == set.last());
        assert(results[n] == results.last());
        assert forall|i: int| 0 <= i < r.len() implies (#[trigger] r[i]) is Some by {
            assert(r[i] == results[i]);
        }
        assert forall|j: int|
            0 <= j < a.len() && crate::resolver::net_key((#[trigger] a[j]).net) == k implies run == (
        NetRun { net: a[j].net, rule: a[j].rule, placed: a[j].target.spot() }) by {
            assert(a[j] == set[j]);
        }
        lemma_with_sets(m, a, r, k, run);
        if set_key(a, k) {
            let j = choose|j: int|
                0 <= j < a.len() && crate::resolver::net_key((#[trigger] a[j]).net) == k;
            assert(set[j] == a[j]);
        }
        if set_key(set, k) {
            let j = choose|j: int|
                0 <= j < set.len() && crate::resolver::net_key((#[trigger] set[j]).net) == k;
            if j < n {
                assert(a[j] == set[j]);
            }
        }
    }
}

/// When every route of a plan goes well, the subnet routes are in line with
/// the rules: exactly the subnets that are wanted are routed, each for the
/// rule that owns it and into the tunnel of that rule.
pub proof fn lemma_subnets_in_line(
    core: &Core,
    nets: Seq<(Subnet, Seq<char>)>,
    e: Seq<(u64, NetRun)>,
    set: Seq<NetMove>,
    results: Seq<Option<Outcome>>,
    s: Subnet,
)
    requires
        crate::table::ascending(e),
        crate::resolver::nets_sound(crate::table::mapped(e)),
        sets(set, core, nets, crate::table::mapped(e)),
        set.len() == results.len(),
        forall|i: int| 0 <= i < results.len() ==> (#[trigger] results[i]) is Some,
        s.canonical(),
    ensures
        ({
            let f = with_sets(
                without_gone(crate::table::mapped(e), goners(core, nets, e)),
                set,
                results,
            );
            let k = crate::resolver::net_key(s);
            match wanted_net(core, nets, s) {
                Some((r, t)) => f.dom().contains(k) && f[k].net == s && f[k].rule == r
                    && f[k].placed == t.spot(),
                None => !f.dom().contains(k),
            }
        }),
{
    let m = crate::table::mapped(e);
    let k = crate::resolver::net_key(s);
    let gone = goners(core, nets, e);
    assert forall|i: int| 0 <= i < e.len() implies (#[trigger] e[i]).0 == crate::resolver::net_key(
        e[i].1.net,
    ) by {
        crate::table::lemma_mapped_at(e, i);
        assert(m.dom().contains(e[i].0));
    }
    assert forall|i: int| 0 <= i < e.len() && (#[trigger] e[i]).0 == k implies e[i].1 == m[k] by {
        crate::table::lemma_mapped_at(e, i);
    }
    lemma_goners_are(core, nets, e, k, m[k]);
    lemma_without_gone(m, gone, k);
    if m.dom().contains(k) {
        crate::resolver::lemma_net_key(m[k].net, s);
    }
    let run = match wanted_net(core, nets, s) {
        Some((r, t)) => NetRun { net: s, rule: r as usize, placed: t.spot() },
        None => m[k],
    };
    assert forall|j: int|
        0 <= j < set.len() && crate::resolver::net_key((#[trigger] set[j]).net) == k implies run == (
    NetRun { net: set[j].net, rule: set[j].rule, placed: set[j].target.spot() }) by {
        crate::resolver::lemma_net_key(set[j].net, s);
    }
    lemma_with_sets(without_gone(m, gone), set, results, k, run);
    if set_key(set, k) {
        let j = choose|j: int|
            0 <= j < set.len() && crate::resolver::net_key((#[trigger] set[j]).net) == k;
        crate::resolver::lemma_net_key(set[j].net, s);
    }
    if amiss(core, nets, m, s) {
        let j = choose|j: int| 0 <= j < set.len() && (#[trigger] set[j]).net == s;
        assert(crate::resolver::net_key(set[j].net) == k);
    }
    if let Some((r, t)) = wanted_net(core, nets, s) {
        crate::resolver::lemma_lowest(
            |r: int| has_net(core, nets, r, s),
            core.rules@.len() as int,
        );
        assert(0 <= r < core.rules@.len());
        assert(run.rule == r) by {
            if set_key(set, k) {
                let j = choose|j: int|
                    0 <= j < set.len() && crate::resolver::net_key((#[trigger] set[j]).net) == k;
                crate::resolver::lemma_net_key(set[j].net, s);
            } else {
                assert(in_place(core, nets, m[k]));
            }
        }
    }
}

/// A subnet that holds a tunnel server is never routed, and neither is one
/// that overlaps the fake range.
pub proof fn lemma_servers_stay_out(
    core: &Core,
    nets: Seq<(Subnet, Seq<char>)>,
    s: Subnet,
    server: Ipv4Addr,
)
    requires
        s.canonical(),
        crate::resolver::servers(core.states()).contains(server) && s.has(server) || s.meets(
            crate::dns::fake_range(),
        ),
    ensures
        wanted_net(core, nets, s) is None,
{
    if !s.meets(crate::dns::fake_range()) {
        let v = crate::resolver::servers(core.states());
        let i = choose|i: int| 0 <= i < v.len() && v[i] == server;
        assert(s.has(v[i]));
    }
}

// ---------------------------------------------------------------------
// The report.
// ---------------------------------------------------------------------

pub open spec fn rule_report(name: Seq<char>, h: Moves, d: usize, s: Moves) -> Seq<char> {
    "routes "@ + name + " hosts "@ + h.shown() + " dropped="@ + crate::text::decimal(d as nat)
        + " subnets "@ + s.shown()
}

/// The rules that anything happened to, in order.
pub open spec fn report_lines(
    rules: Seq<RuleRun>,
    hosts: Seq<Moves>,
    dropped: Seq<usize>,
    subnets: Seq<Moves>,
    n: int,
) -> Seq<Seq<char>>
    decreases n,
{
    if n <= 0 {
        seq![]
    } else {
        let rest = report_lines(rules, hosts, dropped, subnets, n - 1);
        let (h, d, s) = (hosts[n - 1], dropped[n - 1], subnets[n - 1]);
        if h.total() > 0 || s.total() > 0 || d > 0 {
            rest.push(rule_report(rules[n - 1].name@, h, d, s))
        } else {
            rest
        }
    }
}

impl Resolver {
    /// What bringing the routes in line came to; only changes are written.
    pub fn report(&self, hosts: &Vec<Moves>, dropped: &Vec<usize>, subnets: &Vec<Moves>) -> (r: Vec<
        String,
    >)
        requires
            hosts@.len() == self.core.rules@.len(),
            dropped@.len() == self.core.rules@.len(),
            subnets@.len() == self.core.rules@.len(),
        ensures
            crate::text::seen(r@) == report_lines(
                self.core.rules@,
                hosts@,
                dropped@,
                subnets@,
                self.core.rules@.len() as int,
            ),
    {
        let mut lines: Vec<String> = Vec::new();
        let mut i: usize = 0;
        proof {
            assert(crate::text::seen(lines@) =~= seq![]);
        }
        while i < self.core.rules.len()
            invariant
                i <= self.core.rules@.len(),
                hosts@.len() == self.core.rules@.len(),
                dropped@.len() == self.core.rules@.len(),
                subnets@.len() == self.core.rules@.len(),
                crate::text::seen(lines@) == report_lines(
                    self.core.rules@,
                    hosts@,
                    dropped@,
                    subnets@,
                    i as int,
                ),
            decreases self.core.rules@.len() - i,
        {
            if hosts[i].any() || subnets[i].any() || dropped[i] > 0 {
                let mut s = "routes ".to_owned();
                s.append(self.core.rules[i].name.as_str());
                s.append(" hosts ");
                s.append(hosts[i].to_string().as_str());
                s.append(" dropped=");
                s.append(show(dropped[i] as u128).as_str());
                s.append(" subnets ");
                s.append(subnets[i].to_string().as_str());
                proof {
                    crate::text::lemma_seen_push(lines@, s);
                }
                lines.push(s);
            }
            i += 1;
        }
        lines
    }
}

/// A subnet is wanted for the first rule in force that has it: with no
/// tunnel server in it and outside the fake range, it goes to the tunnel of
/// that rule whenever that tunnel is there and not down, whether or not the
/// router gives fake addresses. Only a tunnel that does not carry leaves it
/// to the router, and only when that gives fake addresses.
pub proof fn lemma_a_wanted_subnet(
    core: &Core,
    nets: Seq<(Subnet, Seq<char>)>,
    s: Subnet,
    r: int,
    i: int,
    j: int,
)
    requires
        s.canonical(),
        !s.meets(Subnet { addr: crate::addr::octets(198, 18, 0, 0), prefix: 15 }),
        forall|l: int|
            0 <= l < core.links@.len() ==> !((#[trigger] core.links@[l]).1.endpoint matches Some(ip)
                && s.has(ip)),
        0 <= r < core.rules@.len(),
        core.rules@[r].active,
        0 <= i < nets.len(),
        nets[i].0 == s,
        0 <= j < core.rules@[r].lists@.len(),
        core.rules@[r].lists@[j]@ == nets[i].1,
        forall|q: int| 0 <= q < r ==> !#[trigger] has_net(core, nets, q, s),
    ensures
        ({
            let up = core.rules@[r].current matches Some(l) && l < core.links@.len()
                && core.links@[l as int].1.iface is Some && core.links@[l as int].1.health
                != crate::links::Health::Down;
            &&& up ==> core.aim(r) is Some && wanted_net(core, nets, s) == Some((r, core.aim(r)->0))
            &&& !up && core.use_fakeip ==> wanted_net(core, nets, s) is None
            &&& !up && !core.use_fakeip ==> match core.aim(r) {
                Some(t) => wanted_net(core, nets, s) == Some((r, t)),
                None => wanted_net(core, nets, s) is None,
            }
        }),
{
    let p = |q: int| has_net(core, nets, q, s);
    assert(crate::text::seen(core.rules@[r].lists@)[j] == nets[i].1);
    assert(has_net(core, nets, r, s));
    crate::resolver::lemma_lowest_is(p, r, core.rules@.len() as int);
    crate::resolver::lemma_a_rule_carries(core, r);
    assert(!holds_server(core, s)) by {
        if holds_server(core, s) {
            let v = crate::resolver::servers(core.states());
            let k = choose|k: int| 0 <= k < v.len() && s.has(#[trigger] v[k]);
            assert(v.contains(v[k]));
            crate::resolver::lemma_servers(core.states(), v[k]);
            let l = choose|l: int|
                0 <= l < core.states().len() && (#[trigger] core.states()[l]).endpoint == Some(v[k]);
            assert(core.links@[l].1.endpoint == Some(v[k]));
        }
    }
}

/// What is wanted nowhere: a subnet that no rule in force has, one that
/// overlaps the fake range, and one that holds the server of any link.
pub proof fn lemma_an_unwanted_subnet(core: &Core, nets: Seq<(Subnet, Seq<char>)>, s: Subnet)
    requires
        s.canonical(),
        s.meets(Subnet { addr: crate::addr::octets(198, 18, 0, 0), prefix: 15 }) || (forall|q: int|
            0 <= q < core.rules@.len() ==> !#[trigger] has_net(core, nets, q, s)) || (exists|
            l: int,
        |
            0 <= l < core.links@.len() && ((#[trigger] core.links@[l]).1.endpoint matches Some(ip)
                && s.has(ip))),
    ensures
        wanted_net(core, nets, s) is None,
{
    crate::resolver::lemma_lowest(|q: int| has_net(core, nets, q, s), core.rules@.len() as int);
    if exists|l: int|
        0 <= l < core.links@.len() && ((#[trigger] core.links@[l]).1.endpoint matches Some(ip)
            && s.has(ip)) {
        let l = choose|l: int|
            0 <= l < core.links@.len() && ((#[trigger] core.links@[l]).1.endpoint matches Some(ip)
                && s.has(ip));
        let ip = core.links@[l].1.endpoint->0;
        assert(core.states()[l].endpoint == Some(ip));
        crate::resolver::lemma_servers(core.states(), ip);
        let v = crate::resolver::servers(core.states());
        let k = choose|k: int| 0 <= k < v.len() && v[k] == ip;
        assert(s.has(v[k]));
        assert(holds_server(core, s));
    }
}

/// A rule has a subnet when it is in force and one of its lists has it.
pub proof fn lemma_a_rule_has_a_subnet(
    core: &Core,
    nets: Seq<(Subnet, Seq<char>)>,
    r: int,
    s: Subnet,
)
    ensures
        has_net(core, nets, r, s) <==> 0 <= r < core.rules@.len() && core.rules@[r].active
            && exists|i: int, j: int|
            0 <= i < nets.len() && 0 <= j < core.rules@[r].lists@.len() && (
            #[trigger] nets[i]).0 == s && (#[trigger] core.rules@[r].lists@[j])@ == nets[i].1,
{
    if has_net(core, nets, r, s) {
        let i = choose|i: int|
            0 <= i < nets.len() && (#[trigger] nets[i]).0 == s && crate::text::seen(
                core.rules@[r].lists@,
            ).contains(nets[i].1);
        let v = crate::text::seen(core.rules@[r].lists@);
        let j = choose|j: int| 0 <= j < v.len() && v[j] == nets[i].1;
        assert(core.rules@[r].lists@[j]@ == nets[i].1);
    }
    if 0 <= r < core.rules@.len() && core.rules@[r].active && exists|i: int, j: int|
        0 <= i < nets.len() && 0 <= j < core.rules@[r].lists@.len() && (#[trigger] nets[i]).0 == s
            && (#[trigger] core.rules@[r].lists@[j])@ == nets[i].1 {
        let (i, j) = choose|i: int, j: int|
            0 <= i < nets.len() && 0 <= j < core.rules@[r].lists@.len() && (#[trigger] nets[i]).0
                == s && (#[trigger] core.rules@[r].lists@[j])@ == nets[i].1;
        assert(crate::text::seen(core.rules@[r].lists@)[j] == nets[i].1);
    }
}

/// A host stays while its rule is in force and no link has taken its
/// address for a server; and it is routed anew exactly when its rule points
/// somewhere it does not.
pub proof fn lemma_a_host_stays(core: &Core, ip: Ipv4Addr, h: HostRun)
    ensures
        stays(core, ip.bits as u64, h) <==> h.rule < core.rules@.len()
            && core.rules@[h.rule as int].active && !crate::resolver::special(ip) && forall|l: int|
            0 <= l < core.links@.len() ==> (#[trigger] core.links@[l]).1.endpoint != Some(ip),
        astray(core, ip.bits as u64, h) <==> stays(core, ip.bits as u64, h) && (core.aim(
            h.rule as int,
        ) matches Some(t) && !(h.placed matches Some(p) && p.link == t.link && p.generation
            == t.generation)),
{
    assert(ip_of(ip.bits as u64) == ip);
    crate::resolver::lemma_who_may_have_a_route(core, ip);
}

/// Who is dropped: every host that does not stay and no other, in order,
/// each with its rule, and its route deleted exactly when it has one.
pub proof fn lemma_who_is_dropped(core: &Core, e: Seq<(u64, HostRun)>)
    ensures
        drops(core, e) == e.filter(|x: (u64, HostRun)| !stays(core, x.0, x.1)).map_values(
            |x: (u64, HostRun)|
                HostDrop {
                    ip: Ipv4Addr { bits: x.0 as u32 },
                    rule: x.1.rule,
                    routed: x.1.placed is Some,
                },
        ),
    decreases e.len(),
{
    reveal(Seq::filter);
    if e.len() > 0 {
        lemma_who_is_dropped(core, e.drop_last());
    }
    assert(drops(core, e) =~= e.filter(|x: (u64, HostRun)| !stays(core, x.0, x.1)).map_values(
        |x: (u64, HostRun)|
            HostDrop {
                ip: Ipv4Addr { bits: x.0 as u32 },
                rule: x.1.rule,
                routed: x.1.placed is Some,
            },
    ));
}

/// Who is routed anew: every host that is astray and no other, in order, for
/// its own rule, to where that rule points.
pub proof fn lemma_who_is_moved(core: &Core, e: Seq<(u64, HostRun)>)
    ensures
        moves(core, e) == e.filter(|x: (u64, HostRun)| astray(core, x.0, x.1)).map_values(
            |x: (u64, HostRun)|
                HostMove {
                    ip: Ipv4Addr { bits: x.0 as u32 },
                    rule: x.1.rule,
                    target: core.aim(x.1.rule as int)->0,
                },
        ),
        forall|i: int|
            0 <= i < e.len() && astray(core, (#[trigger] e[i]).0, e[i].1) ==> core.aim(
                e[i].1.rule as int,
            ) is Some,
    decreases e.len(),
{
    reveal(Seq::filter);
    if e.len() > 0 {
        lemma_who_is_moved(core, e.drop_last());
    }
    assert(moves(core, e) =~= e.filter(|x: (u64, HostRun)| astray(core, x.0, x.1)).map_values(
        |x: (u64, HostRun)|
            HostMove {
                ip: Ipv4Addr { bits: x.0 as u32 },
                rule: x.1.rule,
                target: core.aim(x.1.rule as int)->0,
            },
    ));
}

/// Whatever comes of the routes, no host is made or lost by moving, none
/// changes its rule or its last answer, and one whose route failed points
/// where it did.
pub proof fn lemma_moving_keeps_the_hosts(
    m: Map<u64, HostRun>,
    moves: Seq<HostMove>,
    results: Seq<Option<Outcome>>,
    k: u64,
)
    requires
        moves.len() == results.len(),
    ensures
        with_moves(m, moves, results).dom() == m.dom(),
        m.dom().contains(k) ==> with_moves(m, moves, results)[k].rule == m[k].rule && with_moves(
            m,
            moves,
            results,
        )[k].last == m[k].last,
        m.dom().contains(k) && (forall|i: int|
            0 <= i < moves.len() && (#[trigger] moves[i]).ip.bits == k ==> results[i] is None)
            ==> with_moves(m, moves, results)[k] == m[k],
        m.dom().contains(k) ==> with_moves(m, moves, results)[k].placed == m[k].placed || exists|
            i: int,
        |
            0 <= i < moves.len() && (#[trigger] moves[i]).ip.bits == k && results[i] is Some
                && with_moves(m, moves, results)[k].placed == Some(moves[i].target.spot()),
    decreases moves.len(),
{
    if moves.len() > 0 {
        let a = moves.drop_last();
        let r = results.drop_last();
        let n = moves.len() - 1;
        lemma_moving_keeps_the_hosts(m, a, r, k);
        assert(with_moves(m, moves, results).dom() =~= m.dom());
        assert(moves[n] == moves.last() && results[n] == results.last());
        assert forall|i: int| 0 <= i < n implies a[i] == #[trigger] moves[i] && r[i] == results[i] by {}
        if forall|i: int|
            0 <= i < moves.len() && (#[trigger] moves[i]).ip.bits == k ==> results[i] is None {
            assert forall|i: int| 0 <= i < a.len() && (#[trigger] a[i]).ip.bits == k implies r[i]
                is None by {
                assert(moves[i] == a[i]);
            }
        }
        if m.dom().contains(k) {
            let w = with_moves(m, a, r);
            if moves[n].ip.bits == k && results[n] is Some {
                assert(with_moves(m, moves, results)[k].placed == Some(moves[n].target.spot()));
            } else if w[k].placed != m[k].placed {
                let i = choose|i: int|
                    0 <= i < a.len() && (#[trigger] a[i]).ip.bits == k && r[i] is Some
                        && w[k].placed == Some(a[i].target.spot());
                assert(moves[i] == a[i] && results[i] == r[i]);
            }
        }
    }
}

/// What is counted of a route: added when it was not there, moved when it
/// was, failed when it could not be placed; one of them, by one.
pub proof fn lemma_a_route_is_counted(m: Moves, r: Option<Outcome>)
    requires
        m.total() < usize::MAX,
    ensures
        m.with(r).added == m.added + if r == Some(Outcome::Added) {
            1int
        } else {
            0
        },
        m.with(r).moved == m.moved + if r == Some(Outcome::Existed) || r == Some(Outcome::Moved) {
            1int
        } else {
            0
        },
        m.with(r).failed == m.failed + if r is None {
            1int
        } else {
            0
        },
        m.with(r).removed == m.removed,
{
}

/// Each rule is told of its own routes, all of them and no other: the count
/// of a rule grows with a route of the rule alone, and its parts make up
/// the number of its routes.
pub proof fn lemma_counts_by_rule(
    moves: Seq<HostMove>,
    results: Seq<Option<Outcome>>,
    v: HostMove,
    r: Option<Outcome>,
    rule: int,
)
    requires
        moves.len() == results.len(),
        moves.len() < usize::MAX,
    ensures
        tally(moves, results, rule).removed == 0,
        tally(moves, results, rule).total() == moves.filter(|x: HostMove| x.rule == rule).len(),
        v.rule != rule ==> tally(moves.push(v), results.push(r), rule) == tally(moves, results, rule),
        v.rule == rule ==> tally(moves.push(v), results.push(r), rule) == tally(
            moves,
            results,
            rule,
        ).with(r),
    decreases moves.len(),
{
    let p = |x: HostMove| x.rule == rule;
    assert(moves.push(v).drop_last() =~= moves);
    assert(results.push(r).drop_last() =~= results);
    reveal(Seq::filter);
    if moves.len() > 0 {
        lemma_counts_by_rule(moves.drop_last(), results.drop_last(), v, r, rule);
        assert(moves.drop_last().filter(p).len() <= moves.drop_last().len()) by {
            moves.drop_last().lemma_filter_len(p);
        }
        lemma_a_route_is_counted(
            tally(moves.drop_last(), results.drop_last(), rule),
            results.last(),
        );
    }
}

/// The drops of a rule are as many as the hosts of the rule among them.
pub proof fn lemma_drops_by_rule(drops: Seq<HostDrop>, rule: int)
    ensures
        dropped(drops, rule) == drops.filter(|d: HostDrop| d.rule == rule).len(),
    decreases drops.len(),
{
    reveal(Seq::filter);
    if drops.len() > 0 {
        lemma_drops_by_rule(drops.drop_last(), rule);
    }
}

/// The tunnel of a rule is written when it changes and only then, from the
/// one it had to the one it takes; a rule not in force has none.
pub proof fn lemma_retargets(core: &Core, rules: Seq<RuleRun>, now: u128, i: int)
    requires
        0 <= i < rules.len(),
    ensures
        !rules[i].active ==> retargeted(core, rules[i], now) is None,
        rules[i].active ==> retargeted(core, rules[i], now) == crate::links::picked(
            rules[i].tunnels@,
            core.states(),
            rules[i].current,
            now,
        ),
        retargeted(core, rules[i], now) != rules[i].current ==> retarget_lines(
            core,
            rules,
            now,
        ).contains(
            "rule "@ + rules[i].name@ + " tunnel "@ + link_name(core, rules[i].current) + " -> "@
                + link_name(core, retargeted(core, rules[i], now)),
        ),
        retarget_lines(core, rules, now).len() == rules.filter(
            |r: RuleRun| retargeted(core, r, now) != r.current,
        ).len(),
    decreases rules.len(),
{
    let a = rules.drop_last();
    let n = rules.len() - 1;
    reveal(Seq::filter);
    let all = retarget_lines(core, rules, now);
    let rest = retarget_lines(core, a, now);
    if n > 0 {
        lemma_retargets(core, a, now, if i < n {
            i
        } else {
            0
        });
    } else {
        assert(a =~= seq![]);
        assert(a.filter(|r: RuleRun| retargeted(core, r, now) != r.current).len() == 0);
    }
    if i < n {
        assert(a[i] == rules[i]);
        let x = "rule "@ + rules[i].name@ + " tunnel "@ + link_name(core, rules[i].current)
            + " -> "@ + link_name(core, retargeted(core, rules[i], now));
        if rest.contains(x) {
            let k = choose|k: int| 0 <= k < rest.len() && rest[k] == x;
            assert(all[k] == x);
        }
    } else if retargeted(core, rules[i], now) != rules[i].current {
        assert(all[rest.len() as int] == retarget_line(
            core,
            rules[n],
            retargeted(core, rules[n], now),
        ));
    }
}

/// A link is named by its name, and a rule without one has "none".
pub proof fn lemma_link_named(core: &Core, t: Option<usize>)
    ensures
        match t {
            Some(l) => l < core.links@.len() ==> link_name(core, t) == core.links@[l as int].0@,
            None => link_name(core, t) == "none"@,
        },
{
}

/// A rule is reported exactly when a route of it was added, moved, removed
/// or failed, or a host of it was dropped.
pub proof fn lemma_only_changes_are_reported(
    rules: Seq<RuleRun>,
    hosts: Seq<Moves>,
    dropped: Seq<usize>,
    subnets: Seq<Moves>,
    n: int,
)
    requires
        0 <= n <= rules.len(),
    ensures
        (forall|i: int|
            0 <= i < n ==> (#[trigger] hosts[i]).added == 0 && hosts[i].moved == 0
                && hosts[i].removed == 0 && hosts[i].failed == 0 && dropped[i] == 0
                && subnets[i].added == 0 && subnets[i].moved == 0 && subnets[i].removed == 0
                && subnets[i].failed == 0) <==> report_lines(rules, hosts, dropped, subnets, n).len()
            == 0,
    decreases n,
{
    if exists|i: int|
        0 <= i < n && !((#[trigger] hosts[i]).added == 0 && hosts[i].moved == 0 && hosts[i].removed
            == 0 && hosts[i].failed == 0 && dropped[i] == 0 && subnets[i].added == 0
            && subnets[i].moved == 0 && subnets[i].removed == 0 && subnets[i].failed == 0) {
        let i = choose|i: int|
            0 <= i < n && !((#[trigger] hosts[i]).added == 0 && hosts[i].moved == 0
                && hosts[i].removed == 0 && hosts[i].failed == 0 && dropped[i] == 0
                && subnets[i].added == 0 && subnets[i].moved == 0 && subnets[i].removed == 0
                && subnets[i].failed == 0);
        lemma_a_report_line(rules, hosts, dropped, subnets, n, i);
    } else if n > 0 {
        lemma_only_changes_are_reported(rules, hosts, dropped, subnets, n - 1);
        assert(hosts[n - 1].added == 0);
    }
}

/// A line of the report names its rule and every count that is not nothing.
pub proof fn lemma_a_report_line(
    rules: Seq<RuleRun>,
    hosts: Seq<Moves>,
    dropped: Seq<usize>,
    subnets: Seq<Moves>,
    n: int,
    i: int,
)
    requires
        0 <= i < n <= rules.len(),
        hosts[i].total() > 0 || subnets[i].total() > 0 || dropped[i] > 0,
    ensures
        report_lines(rules, hosts, dropped, subnets, n).contains(
            "routes "@ + rules[i].name@ + " hosts "@ + hosts[i].shown() + " dropped="@
                + crate::text::decimal(dropped[i] as nat) + " subnets "@ + subnets[i].shown(),
        ),
    decreases n,
{
    let rest = report_lines(rules, hosts, dropped, subnets, n - 1);
    let all = report_lines(rules, hosts, dropped, subnets, n);
    let x = rule_report(rules[i].name@, hosts[i], dropped[i], subnets[i]);
    if i < n - 1 {
        lemma_a_report_line(rules, hosts, dropped, subnets, n - 1, i);
        let k = choose|k: int| 0 <= k < rest.len() && rest[k] == x;
        assert(all[k] == x);
    } else {
        assert(all[rest.len() as int] == x);
    }
}

/// Whatever comes of the routes, a subnet that was not to be set is where it
/// was, and one whose route failed is not said to be in place.
pub proof fn lemma_setting_touches_the_set(
    m: Map<u64, NetRun>,
    set: Seq<NetMove>,
    results: Seq<Option<Outcome>>,
    k: u64,
)
    requires
        set.len() == results.len(),
        forall|i: int|
            0 <= i < set.len() && crate::resolver::net_key((#[trigger] set[i]).net) == k
                ==> results[i] is None,
    ensures
        with_sets(m, set, results).dom().contains(k) == m.dom().contains(k),
        m.dom().contains(k) ==> with_sets(m, set, results)[k] == m[k],
    decreases set.len(),
{
    if set.len() > 0 {
        let a = set.drop_last();
        let r = results.drop_last();
        let n = set.len() - 1;
        assert(set[n] == set.last() && results[n] == results.last());
        assert forall|i: int|
            0 <= i < a.len() && crate::resolver::net_key((#[trigger] a[i]).net) == k implies r[i]
            is None by {
            assert(a[i] == set[i] && r[i] == results[i]);
        }
        lemma_setting_touches_the_set(m, a, r, k);
    }
}

/// Who goes: every route that is not where it is wanted, for the rule that
/// owns its subnet and into the tunnel of that rule, and no other; it is
/// deleted exactly when its subnet is wanted nowhere.
pub proof fn lemma_who_goes(core: &Core, nets: Seq<(Subnet, Seq<char>)>, e: Seq<(u64, NetRun)>)
    ensures
        goners(core, nets, e) == e.filter(
            |x: (u64, NetRun)|
                !(wanted_net(core, nets, x.1.net) matches Some((r, t)) && r == x.1.rule
                    && x.1.placed.link == t.link && x.1.placed.generation == t.generation),
        ).map_values(
            |x: (u64, NetRun)|
                NetGone {
                    net: x.1.net,
                    rule: x.1.rule,
                    delete: wanted_net(core, nets, x.1.net) is None,
                },
        ),
    decreases e.len(),
{
    reveal(Seq::filter);
    if e.len() > 0 {
        lemma_who_goes(core, nets, e.drop_last());
    }
    assert(goners(core, nets, e) =~= e.filter(
        |x: (u64, NetRun)|
            !(wanted_net(core, nets, x.1.net) matches Some((r, t)) && r == x.1.rule
                && x.1.placed.link == t.link && x.1.placed.generation == t.generation),
    ).map_values(
        |x: (u64, NetRun)|
            NetGone {
                net: x.1.net,
                rule: x.1.rule,
                delete: wanted_net(core, nets, x.1.net) is None,
            },
    ));
}

/// A subnet is owned by the first rule in force that has it, and one that
/// overlaps the fake range by none.
pub proof fn lemma_who_owns_a_subnet(
    core: &Core,
    nets: Seq<(Subnet, Seq<char>)>,
    s: Subnet,
    r: int,
)
    ensures
        ({
            let fake = s.meets(Subnet { addr: crate::addr::octets(198, 18, 0, 0), prefix: 15 });
            net_owner(core, nets, s) == Some(r) <==> !fake && has_net(core, nets, r, s) && forall|
                q: int,
            |
                0 <= q < r ==> !#[trigger] has_net(core, nets, q, s)
        }),
{
    let p = |q: int| has_net(core, nets, q, s);
    let n = core.rules@.len() as int;
    crate::resolver::lemma_lowest(p, n);
    if has_net(core, nets, r, s) && forall|q: int|
        0 <= q < r ==> !#[trigger] has_net(core, nets, q, s) {
        assert forall|j: int| 0 <= j < r implies !#[trigger] p(j) by {}
        assert(p(r));
        crate::resolver::lemma_lowest_is(p, r, n);
    }
    if net_owner(core, nets, s) == Some(r) {
        assert(p(r));
        assert forall|q: int| 0 <= q < r implies !#[trigger] has_net(core, nets, q, s) by {
            assert(!p(q));
        }
    }
}

/// Routed are the subnets that are wanted somewhere and are not there: of
/// another rule, into another tunnel or one of another generation, or not
/// at all; each once, for the rule and into the tunnel it is wanted for.
pub proof fn lemma_who_is_set(
    v: Seq<NetMove>,
    core: &Core,
    nets: Seq<(Subnet, Seq<char>)>,
    m: Map<u64, NetRun>,
    s: Subnet,
    j: int,
)
    requires
        sets(v, core, nets, m),
        s.canonical(),
        crate::resolver::nets_sound(m),
    ensures
        ({
            let k = crate::resolver::net_key(s);
            (exists|i: int| 0 <= i < v.len() && (#[trigger] v[i]).net == s) <==> (wanted_net(
                core,
                nets,
                s,
            ) matches Some((r, t)) && !(m.dom().contains(k) && m[k].rule == r && m[k].placed.link
                == t.link && m[k].placed.generation == t.generation))
        }),
        0 <= j < v.len() ==> wanted_net(core, nets, v[j].net) == Some(
            (v[j].rule as int, v[j].target),
        ),
        v.map_values(|x: NetMove| x.net).no_duplicates(),
{
    let k = crate::resolver::net_key(s);
    if m.dom().contains(k) {
        crate::resolver::lemma_net_key(m[k].net, s);
    }
    assert(amiss(core, nets, m, s) <==> (wanted_net(core, nets, s) matches Some((r, t)) && !(
    m.dom().contains(k) && m[k].rule == r && m[k].placed.link == t.link && m[k].placed.generation
        == t.generation)));
    if exists|i: int| 0 <= i < v.len() && (#[trigger] v[i]).net == s {
        let i = choose|i: int| 0 <= i < v.len() && (#[trigger] v[i]).net == s;
        assert(amiss(core, nets, m, v[i].net));
    }
    let w = v.map_values(|x: NetMove| x.net);
    assert forall|a: int, b: int| 0 <= a < w.len() && 0 <= b < w.len() && a != b implies w[a]
        != w[b] by {
        if a < b {
            assert(crate::resolver::net_key(v[a].net) < crate::resolver::net_key(v[b].net));
        } else {
            assert(crate::resolver::net_key(v[b].net) < crate::resolver::net_key(v[a].net));
        }
    }
}

/// A subnet is passed over when a rule in force has it and it holds the
/// server of a link.
pub proof fn lemma_who_is_skipped(core: &Core, nets: Seq<(Subnet, Seq<char>)>, s: Subnet)
    ensures
        skipped_net(core, nets, s) <==> net_owner(core, nets, s) is Some && exists|l: int|
            0 <= l < core.links@.len() && ((#[trigger] core.links@[l]).1.endpoint matches Some(ip)
                && s.has(ip)),
{
    let v = crate::resolver::servers(core.states());
    if holds_server(core, s) {
        let i = choose|i: int| 0 <= i < v.len() && s.has(#[trigger] v[i]);
        crate::resolver::lemma_servers(core.states(), v[i]);
        assert(v.contains(v[i]));
        let l = choose|l: int|
            0 <= l < core.states().len() && (#[trigger] core.states()[l]).endpoint == Some(v[i]);
        assert(core.links@[l].1.endpoint == Some(v[i]));
    }
    if exists|l: int|
        0 <= l < core.links@.len() && ((#[trigger] core.links@[l]).1.endpoint matches Some(ip)
            && s.has(ip)) {
        let l = choose|l: int|
            0 <= l < core.links@.len() && ((#[trigger] core.links@[l]).1.endpoint matches Some(ip)
                && s.has(ip));
        let ip = core.links@[l].1.endpoint->0;
        assert(core.states()[l].endpoint == Some(ip));
        crate::resolver::lemma_servers(core.states(), ip);
        let i = choose|i: int| 0 <= i < v.len() && v[i] == ip;
        assert(s.has(v[i]));
    }
}

/// What came of the routes is taken in one after another: a subnet whose
/// route was placed is where it was placed, for its rule; one whose route
/// failed is not; one that is gone is gone, and so is a host that is
/// dropped.
pub proof fn lemma_what_came_of_the_routes(
    m: Map<u64, NetRun>,
    set: Seq<NetMove>,
    results: Seq<Option<Outcome>>,
    v: NetMove,
    o: Outcome,
    gone: Seq<NetGone>,
    g: NetGone,
    h: Map<u64, HostRun>,
    drops: Seq<HostDrop>,
    d: HostDrop,
)
    requires
        set.len() == results.len(),
    ensures
        with_sets(m, seq![], seq![]) == m,
        ({
            let k = crate::resolver::net_key(v.net);
            let f = with_sets(m, set.push(v), results.push(Some(o)));
            &&& f.dom() == with_sets(m, set, results).dom().insert(k)
            &&& f[k].net == v.net
            &&& f[k].rule == v.rule
            &&& f[k].placed.link == v.target.link
            &&& f[k].placed.generation == v.target.generation
            &&& forall|q: u64| q != k && f.dom().contains(q) ==> #[trigger] f[q] == with_sets(
                m,
                set,
                results,
            )[q]
        }),
        with_sets(m, set.push(v), results.push(None)) == with_sets(m, set, results),
        without_gone(m, seq![]) == m,
        without_gone(m, gone.push(g)) == without_gone(m, gone).remove(
            crate::resolver::net_key(g.net),
        ),
        without_drops(h, seq![]) == h,
        without_drops(h, drops.push(d)) == without_drops(h, drops).remove(d.ip.bits as u64),
{
    assert(set.push(v).drop_last() =~= set);
    assert(results.push(Some(o)).drop_last() =~= results);
    assert(results.push(None).drop_last() =~= results);
    assert(gone.push(g).drop_last() =~= gone);
    assert(drops.push(d).drop_last() =~= drops);
    let k = crate::resolver::net_key(v.net);
    assert(with_sets(m, set.push(v), results.push(Some(o))).dom() =~= with_sets(
        m,
        set,
        results,
    ).dom().insert(k));
}

/// The subnets of a rule are counted as its hosts are: one route of the
/// rule, one more of its kind; and a route is removed when it was of the
/// rule, was to be deleted and was there.
pub proof fn lemma_subnets_by_rule(
    set: Seq<NetMove>,
    results: Seq<Option<Outcome>>,
    v: NetMove,
    r: Option<Outcome>,
    gone: Seq<NetGone>,
    deleted: Seq<bool>,
    g: NetGone,
    there: bool,
    rule: int,
)
    requires
        set.len() == results.len(),
        gone.len() == deleted.len(),
    ensures
        set_tally(seq![], seq![], rule) == (Moves { added: 0, moved: 0, removed: 0, failed: 0 }),
        set_tally(set.push(v), results.push(r), rule) == if v.rule == rule {
            set_tally(set, results, rule).with(r)
        } else {
            set_tally(set, results, rule)
        },
        removed(seq![], seq![], rule) == 0,
        removed(gone.push(g), deleted.push(there), rule) == removed(gone, deleted, rule) + if g.rule
            == rule && g.delete && there {
            1int
        } else {
            0int
        },
{
    assert(set.push(v).drop_last() =~= set);
    assert(results.push(r).drop_last() =~= results);
    assert(gone.push(g).drop_last() =~= gone);
    assert(deleted.push(there).drop_last() =~= deleted);
}

/// The counts in words, and in all.
pub proof fn lemma_how_counts_are_shown(m: Moves)
    ensures
        m.total() == m.added + m.moved + m.removed + m.failed,
        m.shown() == "added="@ + crate::text::decimal(m.added as nat) + " moved="@
            + crate::text::decimal(m.moved as nat) + " removed="@ + crate::text::decimal(
            m.removed as nat,
        ) + " failed="@ + crate::text::decimal(m.failed as nat),
{
}

} // verus!
