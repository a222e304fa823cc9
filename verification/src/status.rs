//! What the resolver is told, and what it says of itself.

use vstd::prelude::*;
use vstd::string::*;

use crate::addr::Ipv4Addr;
use crate::config::{has_index, Rule, When};
use crate::links::{LinkState, Reasons};
use crate::lists::Lists;
use crate::net::Network;
use crate::resolver::{Core, Resolver, RuleRun};
use crate::table::Table;
use crate::text::{copies, join_of, show, show_bool};
use crate::upstream::Upstream;

verus! {

fn copy_when(w: &When) -> (r: When)
    ensures
        r@ == w@,
{
    match w {
        When::Always => When::Always,
        When::In(c) => When::In(c.clone()),
        When::Out(c) => When::Out(c.clone()),
    }
}

fn copy_indices(v: &Vec<usize>) -> (r: Vec<usize>)
    ensures
        r@ == v@,
{
    let mut r: Vec<usize> = Vec::new();
    let mut i: usize = 0;
    while i < v.len()
        invariant
            i <= v@.len(),
            r@ == v@.take(i as int),
        decreases v@.len() - i,
    {
        r.push(v[i]);
        i += 1;
        proof {
            assert(v@.take(i as int) =~= v@.take(i - 1).push(v@[i - 1]));
        }
    }
    proof {
        assert(v@.take(i as int) =~= v@);
    }
    r
}

/// A rule of the settings that has not run yet.
pub open spec fn fresh(run: RuleRun, rule: Rule) -> bool {
    &&& run.name@ == rule.name@
    &&& run.when@ == rule.when@
    &&& crate::text::seen(run.lists@) == crate::text::seen(rule.lists@)
    &&& run.tunnels@ == rule.tunnels@
    &&& !run.active
    &&& run.current is None
}

/// A link that has not been heard of yet.
pub open spec fn unheard(l: LinkState) -> bool {
    &&& l.iface is None
    &&& l.generation == 0
    &&& l.health == crate::links::Health::Down
    &&& !l.works
    &&& l.since is None
    &&& l.endpoint is None
}

/// The rules that change with the country, in order: the name of each and
/// whether it comes into force.
pub open spec fn changes(rules: Seq<RuleRun>, country: Seq<char>) -> Seq<(Seq<char>, bool)>
    decreases rules.len(),
{
    if rules.len() == 0 {
        seq![]
    } else {
        let r = rules.last();
        let rest = changes(rules.drop_last(), country);
        if r.when@.holds(country) != r.active {
            rest.push((r.name@, !r.active))
        } else {
            rest
        }
    }
}

pub open spec fn named(v: Seq<(String, bool)>) -> Seq<(Seq<char>, bool)> {
    v.map_values(|e: (String, bool)| (e.0@, e.1))
}

/// Some rule in force has the tunnel.
pub open spec fn needed(core: &Core, t: int) -> bool {
    exists|i: int| core.in_force(i) && (#[trigger] core.rules@[i]).tunnels@.contains(t as usize)
}

/// The rules in force with the reasons of each, in order.
pub open spec fn reasons_by_name(core: &Core, n: int) -> Seq<(Seq<char>, Reasons)>
    decreases n,
{
    if n <= 0 {
        seq![]
    } else if core.in_force(n - 1) {
        reasons_by_name(core, n - 1).push((core.rules@[n - 1].name@, core.why(n - 1)))
    } else {
        reasons_by_name(core, n - 1)
    }
}

/// Where a rule is, for the status line.
pub open spec fn rule_at(core: &Core, r: RuleRun) -> Seq<char> {
    r.name@ + "="@ + (if !r.active {
        "off"@
    } else {
        match r.current {
            None => "none"@,
            Some(t) => if t < core.links@.len() {
                core.links@[t as int].0@
            } else {
                "?"@
            },
        }
    })
}

pub open spec fn link_at(l: (String, LinkState)) -> Seq<char> {
    l.0@ + "="@ + l.1@.shown()
}

impl Resolver {
    pub open spec fn status_text(&self) -> Seq<char> {
        "rules="@ + crate::text::join(
            self.core.rules@.map_values(|r: RuleRun| rule_at(&self.core, r)),
            ","@,
        ) + " tunnels="@ + crate::text::join(
            self.core.links@.map_values(|l: (String, LinkState)| link_at(l)),
            ","@,
        ) + " suffixes="@ + crate::text::decimal(self.lists@.suffixes.len()) + " subnets="@
            + crate::text::decimal(self.lists@.subnets.len()) + " hosts="@ + crate::text::decimal(
            self.hosts.entries().len(),
        ) + " use_fakeip="@ + crate::text::shown_bool(self.core.use_fakeip) + " owner="@
            + crate::text::shown_bool(self.core.owner)
    }

    /// The rules as the settings give them, over the links named in order.
    pub fn new(lists: Lists, rules: &Vec<Rule>, links: Vec<String>, tunnel_dns: Ipv4Addr) -> (r: Self)
        requires
            lists.sound(),
        ensures
            r.wf(),
            r.lists == lists,
            r.tunnel_dns == tunnel_dns,
            r.upstream is None,
            r.network is None,
            r.core.rules@.len() == rules@.len(),
            forall|i: int| 0 <= i < rules@.len() ==> fresh(#[trigger] r.core.rules@[i], rules@[i]),
            r.core.links@.len() == links@.len(),
            forall|i: int|
                0 <= i < links@.len() ==> (#[trigger] r.core.links@[i]).0@ == links@[i]@ && unheard(
                    r.core.links@[i].1,
                ),
            !r.core.owner && !r.core.use_fakeip && !r.core.stopped,
            r.hosts@ == Map::<u64, crate::resolver::HostRun>::empty(),
            r.subnets@ == Map::<u64, crate::resolver::NetRun>::empty(),
            r.unrouted@ == Map::<u64, crate::addr::Subnet>::empty(),
            !r.dirty,
            r.pf_stale,
            r.pf_shape is None,
    {
        let mut runs: Vec<RuleRun> = Vec::new();
        let mut i: usize = 0;
        while i < rules.len()
            invariant
                i <= rules@.len(),
                runs@.len() == i,
                forall|j: int| 0 <= j < i ==> fresh(#[trigger] runs@[j], rules@[j]),
            decreases rules@.len() - i,
        {
            let r = &rules[i];
            runs.push(
                RuleRun {
                    name: r.name.clone(),
                    when: copy_when(&r.when),
                    lists: copies(&r.lists),
                    tunnels: copy_indices(&r.tunnels),
                    active: false,
                    current: None,
                },
            );
            i += 1;
        }
        let mut named: Vec<(String, LinkState)> = Vec::new();
        let mut i: usize = 0;
        while i < links.len()
            invariant
                i <= links@.len(),
                named@.len() == i,
                forall|j: int|
                    0 <= j < i ==> (#[trigger] named@[j]).0@ == links@[j]@ && unheard(named@[j].1),
            decreases links@.len() - i,
        {
            let l = LinkState {
                iface: None,
                generation: 0,
                health: crate::links::Health::Down,
                works: false,
                since: None,
                endpoint: None,
            };
            named.push((links[i].clone(), l));
            i += 1;
        }
        Resolver {
            lists,
            tunnel_dns,
            upstream: None,
            network: None,
            core: Core {
                links: named,
                rules: runs,
                owner: false,
                use_fakeip: false,
                stopped: false,
            },
            hosts: Table::new(),
            subnets: Table::new(),
            unrouted: Table::new(),
            dirty: false,
            pf_stale: true,
            pf_shape: None,
        }
    }

    /// The lists in place.
    pub fn lists(&self) -> (r: &Lists)
        ensures
            *r == self.lists,
    {
        &self.lists
    }

    /// Puts new lists in place; the next reconcile routes the new subnets
    /// and takes away the gone. Host routes of names no longer listed live
    /// out their window.
    pub fn set_lists(&mut self, lists: Lists)
        requires
            old(self).wf(),
            lists.sound(),
        ensures
            final(self).wf(),
            *final(self) == (Resolver { lists, pf_stale: true, ..*old(self) }),
    {
        self.lists = lists;
        self.pf_stale = true;
    }

    /// The network DNS, and for pf the physical interface.
    pub fn set_network(&mut self, n: Option<&Network>)
        ensures
            match n {
                Some(n) => final(self).upstream == Some(
                    Upstream {
                        server: n.dns,
                        port: crate::upstream::DNS_PORT,
                        bound_if: if n.index == 0 {
                            None
                        } else {
                            Some(n.index as u32)
                        },
                    },
                ) && (final(self).network matches Some((i, d)) && i@ == n.iface@ && d == n.dns),
                None => final(self).upstream is None && final(self).network is None,
            },
            *final(self) == (Resolver {
                upstream: final(self).upstream,
                network: final(self).network,
                ..*old(self)
            }),
    {
        match n {
            Some(n) => {
                self.upstream = Some(n.upstream());
                self.network = Some((n.iface.clone(), n.dns));
            },
            None => {
                self.upstream = None;
                self.network = None;
            },
        }
    }

    /// The network DNS alone, for a resolver without pf.
    pub fn set_upstream(&mut self, up: Option<Upstream>)
        ensures
            *final(self) == (Resolver { upstream: up, ..*old(self) }),
    {
        self.upstream = up;
    }

    pub fn set_use_fakeip(&mut self, on: bool)
        ensures
            *final(self) == (Resolver {
                core: Core { use_fakeip: on, ..old(self).core },
                ..*old(self)
            }),
    {
        self.core.use_fakeip = on;
    }

    pub fn use_fakeip(&self) -> (r: bool)
        ensures
            r == self.core.use_fakeip,
    {
        self.core.use_fakeip
    }

    pub fn set_owner(&mut self, on: bool)
        ensures
            *final(self) == (Resolver {
                core: Core { owner: on, ..old(self).core },
                ..*old(self)
            }),
    {
        self.core.owner = on;
    }

    /// Rules in force by the country; the names of those that changed, and
    /// whether they came into force.
    pub fn set_country(&mut self, country: &str) -> (r: Vec<(String, bool)>)
        ensures
            named(r@) == changes(old(self).core.rules@, country@),
            final(self).core.rules@.len() == old(self).core.rules@.len(),
            forall|i: int|
                0 <= i < old(self).core.rules@.len() ==> #[trigger] final(self).core.rules@[i] == (
                RuleRun {
                    active: old(self).core.rules@[i].when@.holds(country@),
                    ..old(self).core.rules@[i]
                }),
            *final(self) == (Resolver {
                core: Core { rules: final(self).core.rules, ..old(self).core },
                pf_stale: old(self).pf_stale || r@.len() > 0,
                ..*old(self)
            }),
    {
        let mut changed: Vec<(String, bool)> = Vec::new();
        let ghost before = self.core.rules@;
        let mut i: usize = 0;
        proof {
            assert(before.take(0) =~= seq![]);
            assert(named(changed@) =~= seq![]);
        }
        while i < self.core.rules.len()
            invariant
                i <= self.core.rules@.len(),
                self.core.rules@.len() == before.len(),
                before == old(self).core.rules@,
                named(changed@) == changes(before.take(i as int), country@),
                forall|j: int|
                    0 <= j < i ==> #[trigger] self.core.rules@[j] == (RuleRun {
                        active: before[j].when@.holds(country@),
                        ..before[j]
                    }),
                forall|j: int| i <= j < before.len() ==> #[trigger] self.core.rules@[j] == before[j],
                *self == (Resolver {
                    core: Core { rules: self.core.rules, ..old(self).core },
                    ..*old(self)
                }),
            decreases before.len() - i,
        {
            let active = self.core.rules[i].when.holds(country);
            let ghost had = changed@;
            proof {
                assert(self.core.rules@[i as int] == before[i as int]);
                assert(before.take(i + 1).drop_last() =~= before.take(i as int));
                assert(before.take(i + 1).last() == before[i as int]);
            }
            if active != self.core.rules[i].active {
                changed.push((self.core.rules[i].name.clone(), active));
                self.core.rules[i].active = active;
                proof {
                    assert(named(changed@) =~= named(had).push((before[i as int].name@, active)));
                }
            }
            i += 1;
        }
        proof {
            assert(before.take(i as int) =~= before);
        }
        if changed.len() > 0 {
            self.pf_stale = true;
        }
        changed
    }

    /// Which links a rule in force needs.
    pub fn wanted(&self) -> (r: Vec<bool>)
        ensures
            r@.len() == self.core.links@.len(),
            forall|t: int| 0 <= t < r@.len() ==> #[trigger] r@[t] == needed(&self.core, t),
    {
        let mut r: Vec<bool> = Vec::new();
        let mut t: usize = 0;
        while t < self.core.links.len()
            invariant
                t <= self.core.links@.len(),
                r@.len() == t,
                forall|u: int| 0 <= u < t ==> #[trigger] r@[u] == needed(&self.core, u),
            decreases self.core.links@.len() - t,
        {
            r.push(self.needs(t));
            t += 1;
        }
        r
    }

    fn needs(&self, t: usize) -> (r: bool)
        ensures
            r == needed(&self.core, t as int),
    {
        let mut i: usize = 0;
        while i < self.core.rules.len()
            invariant
                i <= self.core.rules@.len(),
                forall|j: int|
                    0 <= j < i ==> !(self.core.in_force(j) && (
                    #[trigger] self.core.rules@[j]).tunnels@.contains(t)),
            decreases self.core.rules@.len() - i,
        {
            if self.core.rules[i].active && has_index(&self.core.rules[i].tunnels, t) {
                proof {
                    assert(self.core.in_force(i as int));
                    assert(self.core.rules@[i as int].tunnels@.contains(t));
                }
                return true;
            }
            i += 1;
        }
        false
    }

    /// What a link reports; one that there is not is passed over.
    pub fn set_link(&mut self, link: usize, state: LinkState)
        ensures
            final(self).core.links@.len() == old(self).core.links@.len(),
            forall|i: int|
                0 <= i < old(self).core.links@.len() ==> #[trigger] final(self).core.links@[i] == (
                if i == link {
                    (old(self).core.links@[i].0, state)
                } else {
                    old(self).core.links@[i]
                }),
            *final(self) == (Resolver {
                core: Core { links: final(self).core.links, ..old(self).core },
                ..*old(self)
            }),
    {
        if link < self.core.links.len() {
            self.core.links[link].1 = state;
        }
    }

    pub fn endpoints(&self) -> (r: Vec<Ipv4Addr>)
        ensures
            r@ == crate::resolver::servers(self.core.states()),
    {
        self.core.endpoints()
    }

    /// The interface to fetch sources through: the tunnel of the first rule
    /// in force that carries.
    pub fn fetch_iface(&self) -> (r: Option<String>)
        ensures
            match crate::resolver::lowest(
                |i: int| self.core.carrying(i),
                self.core.rules@.len() as int,
            ) {
                Some(i) => r matches Some(s) && (self.core.link(i) matches Some(l) && (
                l.iface matches Some((name, _)) && s@ == name)),
                None => r is None,
            },
    {
        let ghost p = |i: int| self.core.carrying(i);
        let ghost n = self.core.rules@.len() as int;
        let mut i: usize = 0;
        while i < self.core.rules.len()
            invariant
                i <= self.core.rules@.len(),
                n == self.core.rules@.len(),
                p == (|i: int| self.core.carrying(i)),
                forall|j: int| 0 <= j < i ==> !#[trigger] p(j),
            decreases self.core.rules@.len() - i,
        {
            if self.core.carries(i) {
                proof {
                    crate::resolver::lemma_lowest_is(p, i as int, n);
                }
                if let Some(l) = self.core.rules[i].current {
                    if l < self.core.links.len() {
                        if let Some(iface) = &self.core.links[l].1.iface {
                            return Some(iface.name.clone());
                        }
                    }
                }
            }
            i += 1;
        }
        proof {
            crate::resolver::lemma_lowest(p, n);
        }
        None
    }

    /// Every rule in force has a tunnel interface for its routes.
    pub fn all_routed(&self) -> (r: bool)
        ensures
            r == (forall|i: int|
                0 <= i < self.core.rules@.len() && (#[trigger] self.core.rules@[i]).active
                    ==> self.core.aim(i) is Some),
    {
        let mut i: usize = 0;
        while i < self.core.rules.len()
            invariant
                i <= self.core.rules@.len(),
                forall|j: int|
                    0 <= j < i && (#[trigger] self.core.rules@[j]).active ==> self.core.aim(
                        j,
                    ) is Some,
            decreases self.core.rules@.len() - i,
        {
            if self.core.rules[i].active && self.core.target(i).is_none() {
                return false;
            }
            i += 1;
        }
        true
    }

    /// The reasons of every rule in force, by name.
    pub fn reasons(&self) -> (r: Vec<(String, Reasons)>)
        ensures
            r@.map_values(|e: (String, Reasons)| (e.0@, e.1)) == reasons_by_name(
                &self.core,
                self.core.rules@.len() as int,
            ),
    {
        let mut r: Vec<(String, Reasons)> = Vec::new();
        let mut i: usize = 0;
        proof {
            assert(r@.map_values(|e: (String, Reasons)| (e.0@, e.1)) =~= seq![]);
        }
        while i < self.core.rules.len()
            invariant
                i <= self.core.rules@.len(),
                r@.map_values(|e: (String, Reasons)| (e.0@, e.1)) == reasons_by_name(
                    &self.core,
                    i as int,
                ),
            decreases self.core.rules@.len() - i,
        {
            if self.core.rules[i].active {
                let ghost had = r@;
                let why = self.core.reasons(i);
                r.push((self.core.rules[i].name.clone(), why));
                proof {
                    assert(r@.map_values(|e: (String, Reasons)| (e.0@, e.1)) =~= had.map_values(
                        |e: (String, Reasons)| (e.0@, e.1),
                    ).push((self.core.rules@[i as int].name@, why)));
                }
            }
            i += 1;
        }
        r
    }

    /// The rules, the tunnels, the lists and the hosts, for the status
    /// line. The sizes of the lists belong here and not only in `start
    /// daemon`: lists that shrank to nothing are invisible in a line that
    /// says only how the tunnels are.
    pub fn status(&self) -> (r: String)
        requires
            self.wf(),
        ensures
            r@ == self.status_text(),
    {
        let mut rules: Vec<String> = Vec::new();
        let mut i: usize = 0;
        while i < self.core.rules.len()
            invariant
                i <= self.core.rules@.len(),
                rules@.len() == i,
                forall|j: int|
                    0 <= j < i ==> (#[trigger] rules@[j])@ == rule_at(
                        &self.core,
                        self.core.rules@[j],
                    ),
            decreases self.core.rules@.len() - i,
        {
            let r = &self.core.rules[i];
            let mut s = r.name.clone();
            s.append("=");
            if !r.active {
                s.append("off");
            } else {
                match r.current {
                    None => {
                        s.append("none");
                    },
                    Some(t) => {
                        if t < self.core.links.len() {
                            s.append(self.core.links[t].0.as_str());
                        } else {
                            s.append("?");
                        }
                    },
                }
            }
            rules.push(s);
            i += 1;
        }
        let mut links: Vec<String> = Vec::new();
        let mut i: usize = 0;
        while i < self.core.links.len()
            invariant
                i <= self.core.links@.len(),
                links@.len() == i,
                forall|j: int| 0 <= j < i ==> (#[trigger] links@[j])@ == link_at(self.core.links@[j]),
            decreases self.core.links@.len() - i,
        {
            let mut s = self.core.links[i].0.clone();
            s.append("=");
            s.append(self.core.links[i].1.to_string().as_str());
            links.push(s);
            i += 1;
        }
        proof {
            assert(crate::text::seen(rules@) =~= self.core.rules@.map_values(
                |r: RuleRun| rule_at(&self.core, r),
            ));
            assert(crate::text::seen(links@) =~= self.core.links@.map_values(
                |l: (String, LinkState)| link_at(l),
            ));
        }
        let nets = self.lists.subnets();
        proof {
            assert(nets@.map_values(|e: (crate::addr::Subnet, String)| (e.0, e.1@)).len()
                == nets@.len());
        }
        let mut s = "rules=".to_owned();
        s.append(join_of(&rules, ",").as_str());
        s.append(" tunnels=");
        s.append(join_of(&links, ",").as_str());
        s.append(" suffixes=");
        s.append(show(self.lists.suffix_count() as u128).as_str());
        s.append(" subnets=");
        s.append(show(nets.len() as u128).as_str());
        s.append(" hosts=");
        s.append(show(self.hosts.len() as u128).as_str());
        s.append(" use_fakeip=");
        s.append(show_bool(self.core.use_fakeip));
        s.append(" owner=");
        s.append(show_bool(self.core.owner));
        s
    }

    pub fn host_count(&self) -> (r: usize)
        ensures
            r == self.hosts.entries().len(),
    {
        self.hosts.len()
    }

    /// Whether the hosts changed since the last call.
    pub fn take_dirty(&mut self) -> (r: bool)
        ensures
            r == old(self).dirty,
            *final(self) == (Resolver { dirty: false, ..*old(self) }),
    {
        let was = self.dirty;
        self.dirty = false;
        was
    }

    pub fn mark_dirty(&mut self)
        ensures
            *final(self) == (Resolver { dirty: true, ..*old(self) }),
    {
        self.dirty = true;
    }
}

/// A rule is in force exactly when its condition holds, whatever was in
/// force before; those that changed are told, and only those.
pub proof fn lemma_country_decides(rules: Seq<RuleRun>, country: Seq<char>)
    ensures
        changes(rules, country).len() == 0 <==> forall|i: int|
            0 <= i < rules.len() ==> (#[trigger] rules[i]).active == rules[i].when@.holds(country),
    decreases rules.len(),
{
    if rules.len() > 0 {
        let rest = rules.drop_last();
        lemma_country_decides(rest, country);
        assert(rules[rules.len() - 1] == rules.last());
        if forall|i: int|
            0 <= i < rest.len() ==> (#[trigger] rest[i]).active == rest[i].when@.holds(country) {
            assert forall|i: int|
                0 <= i < rules.len() && i < rules.len() - 1 implies (#[trigger] rules[i]).active
                == rules[i].when@.holds(country) by {
                assert(rest[i] == rules[i]);
            }
        } else {
            let i = choose|i: int|
                0 <= i < rest.len() && (#[trigger] rest[i]).active != rest[i].when@.holds(country);
            assert(rules[i] == rest[i]);
        }
    }
}

/// Told are the rules whose condition says another thing than they do, in
/// order, each with what it is from now on.
pub proof fn lemma_which_rules_change(rules: Seq<RuleRun>, country: Seq<char>)
    ensures
        changes(rules, country) == rules.filter(
            |r: RuleRun| r.when@.holds(country) != r.active,
        ).map_values(|r: RuleRun| (r.name@, !r.active)),
    decreases rules.len(),
{
    reveal(Seq::filter);
    let p = |r: RuleRun| r.when@.holds(country) != r.active;
    let f = |r: RuleRun| (r.name@, !r.active);
    if rules.len() > 0 {
        lemma_which_rules_change(rules.drop_last(), country);
    }
    assert(changes(rules, country) =~= rules.filter(p).map_values(f));
}

/// A tunnel is wanted when some rule in force names it, its first or one in
/// reserve.
pub proof fn lemma_which_tunnels_are_wanted(core: &Core, t: usize)
    ensures
        needed(core, t as int) <==> exists|i: int|
            0 <= i < core.rules@.len() && (#[trigger] core.rules@[i]).active
                && core.rules@[i].tunnels@.contains(t),
{
    if needed(core, t as int) {
        let i = choose|i: int|
            core.in_force(i) && (#[trigger] core.rules@[i]).tunnels@.contains(t as usize);
        assert(core.rules@[i].active);
    }
    if exists|i: int|
        0 <= i < core.rules@.len() && (#[trigger] core.rules@[i]).active
            && core.rules@[i].tunnels@.contains(t) {
        let i = choose|i: int|
            0 <= i < core.rules@.len() && (#[trigger] core.rules@[i]).active
                && core.rules@[i].tunnels@.contains(t);
        assert(core.in_force(i));
    }
}

/// The reasons are those of the rules in force, by their names and in their
/// order, and none of a rule that is off.
pub proof fn lemma_whose_reasons(core: &Core, n: int)
    requires
        0 <= n < core.rules@.len(),
    ensures
        reasons_by_name(core, 0) == Seq::<(Seq<char>, Reasons)>::empty(),
        reasons_by_name(core, n + 1) == if core.rules@[n].active {
            reasons_by_name(core, n).push((core.rules@[n].name@, core.why(n)))
        } else {
            reasons_by_name(core, n)
        },
{
}

/// The status line: where every rule is, how every tunnel is, how much the
/// lists and the table hold, and the two switches.
pub proof fn lemma_what_the_status_says(r: &Resolver, i: int, t: int)
    requires
        0 <= i < r.core.rules@.len(),
        0 <= t < r.core.links@.len(),
    ensures
        ({
            let rule = r.core.rules@[i];
            rule_at(&r.core, rule) == rule.name@ + "="@ + (if !rule.active {
                "off"@
            } else if rule.current is None {
                "none"@
            } else if rule.current->0 < r.core.links@.len() {
                r.core.links@[rule.current->0 as int].0@
            } else {
                "?"@
            })
        }),
        link_at(r.core.links@[t]) == r.core.links@[t].0@ + "="@ + r.core.links@[t].1@.shown(),
        r.status_text() == "rules="@ + crate::text::join(
            Seq::new(r.core.rules@.len(), |k: int| rule_at(&r.core, r.core.rules@[k])),
            ","@,
        ) + " tunnels="@ + crate::text::join(
            Seq::new(r.core.links@.len(), |k: int| link_at(r.core.links@[k])),
            ","@,
        ) + " suffixes="@ + crate::text::decimal(r.lists@.suffixes.len()) + " subnets="@
            + crate::text::decimal(r.lists@.subnets.len()) + " hosts="@ + crate::text::decimal(
            r.hosts.entries().len(),
        ) + " use_fakeip="@ + (if r.core.use_fakeip {
            "true"@
        } else {
            "false"@
        }) + " owner="@ + (if r.core.owner {
            "true"@
        } else {
            "false"@
        }),
{
    assert(r.core.rules@.map_values(|x: RuleRun| rule_at(&r.core, x)) =~= Seq::new(
        r.core.rules@.len(),
        |k: int| rule_at(&r.core, r.core.rules@[k]),
    ));
    assert(r.core.links@.map_values(|l: (String, LinkState)| link_at(l)) =~= Seq::new(
        r.core.links@.len(),
        |k: int| link_at(r.core.links@[k]),
    ));
}

/// A rule that has not run yet is as the settings give it, out of force and
/// over no tunnel; a link not heard of has nothing.
pub proof fn lemma_how_a_resolver_begins(run: RuleRun, rule: Rule, l: LinkState)
    ensures
        fresh(run, rule) ==> run.name@ == rule.name@ && run.when@ == rule.when@ && run.tunnels@
            == rule.tunnels@ && crate::text::seen(run.lists@) == crate::text::seen(rule.lists@)
            && !run.active && run.current is None,
        unheard(l) ==> l.iface is None && l.generation == 0 && l.health
            == crate::links::Health::Down && !l.works && l.since is None && l.endpoint is None,
{
}

} // verus!
