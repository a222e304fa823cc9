//! The hosts over time, and what pf holds: hosts taken in from the state,
//! those that live out their window, the shape and the tables of the kill
//! switch.

use vstd::prelude::*;
use vstd::string::*;

use crate::addr::{Ipv4Addr, Subnet};
use crate::pf::{Shape, Tables};
use crate::placement::Owned;
use crate::resolver::{Core, HostRun, NetRun, Resolver, RuleRun};
use crate::state::{Host, Hosts};
use crate::table::Table;

verus! {

/// A host from the state: its address, its rule, and its last answer.
#[derive(Clone, Copy, Debug, PartialEq, Eq, Structural)]
pub struct Loaded {
    pub ip: Ipv4Addr,
    pub rule: usize,
    pub last: u64,
}

/// The hosts with one more from the state, not routed yet: of a rule that
/// there is, and not in place of one that is known.
pub open spec fn with_loaded(m: Map<u64, HostRun>, l: Loaded, rules: nat) -> Map<u64, HostRun> {
    if l.rule < rules && !m.dom().contains(crate::resolver::host_key(l.ip)) {
        m.insert(crate::resolver::host_key(l.ip), HostRun { rule: l.rule, last: l.last, placed: None })
    } else {
        m
    }
}

pub open spec fn with_all_loaded(
    m: Map<u64, HostRun>,
    v: Seq<Loaded>,
    rules: nat,
) -> Map<u64, HostRun>
    decreases v.len(),
{
    if v.len() == 0 {
        m
    } else {
        with_loaded(with_all_loaded(m, v.drop_last(), rules), v.last(), rules)
    }
}

/// The hosts without their routes.
pub open spec fn unplaced(m: Map<u64, HostRun>) -> Map<u64, HostRun> {
    Map::new(|k: u64| m.dom().contains(k), |k: u64| HostRun { placed: None, ..m[k] })
}

/// The destinations of the hosts that have a route, in order.
pub open spec fn host_routes(e: Seq<(u64, HostRun)>) -> Seq<Subnet>
    decreases e.len(),
{
    if e.len() == 0 {
        seq![]
    } else {
        let (k, h) = e.last();
        if h.placed is Some {
            host_routes(e.drop_last()).push(Subnet::of_host(crate::placement::ip_of(k)))
        } else {
            host_routes(e.drop_last())
        }
    }
}

pub open spec fn net_routes(e: Seq<(u64, NetRun)>) -> Seq<Subnet> {
    e.map_values(|x: (u64, NetRun)| x.1.net)
}

/// Older than `window` seconds, by its last answer.
pub open spec fn expired(h: HostRun, now: u64, window: u64) -> bool {
    now > h.last && now - h.last > window
}

/// The hosts that are not.
pub open spec fn unexpired(m: Map<u64, HostRun>, now: u64, window: u64) -> Map<u64, HostRun> {
    Map::new(|k: u64| m.dom().contains(k) && !expired(m[k], now, window), |k: u64| m[k])
}

/// A host that lived out its window.
#[derive(Clone, Copy, Debug, PartialEq, Eq, Structural)]
pub struct Expired {
    pub ip: Ipv4Addr,
    pub rule: usize,
    /// It has a route to be deleted.
    pub routed: bool,
}

pub open spec fn expired_list(e: Seq<(u64, HostRun)>, now: u64, window: u64) -> Seq<Expired>
    decreases e.len(),
{
    if e.len() == 0 {
        seq![]
    } else {
        let (k, h) = e.last();
        if expired(h, now, window) {
            expired_list(e.drop_last(), now, window).push(
                Expired { ip: crate::placement::ip_of(k), rule: h.rule, routed: h.placed is Some },
            )
        } else {
            expired_list(e.drop_last(), now, window)
        }
    }
}

/// Those of a rule, in order.
pub open spec fn expired_of(v: Seq<Expired>, rule: int) -> Seq<Ipv4Addr>
    decreases v.len(),
{
    if v.len() == 0 {
        seq![]
    } else if v.last().rule == rule {
        expired_of(v.drop_last(), rule).push(v.last().ip)
    } else {
        expired_of(v.drop_last(), rule)
    }
}

/// The hosts of a rule, in the order of their addresses.
pub open spec fn hosts_of(e: Seq<(u64, HostRun)>, rule: int) -> Seq<Ipv4Addr>
    decreases e.len(),
{
    if e.len() == 0 {
        seq![]
    } else if e.last().1.rule == rule {
        hosts_of(e.drop_last(), rule).push(crate::placement::ip_of(e.last().0))
    } else {
        hosts_of(e.drop_last(), rule)
    }
}

/// The subnets of a rule: all that it owns, each once, in order.
pub open spec fn nets_of(
    v: Seq<Subnet>,
    core: &Core,
    nets: Seq<(Subnet, Seq<char>)>,
    rule: int,
) -> bool {
    &&& forall|i: int|
        0 <= i < v.len() ==> (#[trigger] v[i]).canonical() && crate::placement::net_owner(core, nets, v[i]) == Some(
            rule,
        )
    &&& forall|s: Subnet|
        s.canonical() && #[trigger] crate::placement::net_owner(core, nets, s) == Some(rule) ==> v.contains(s)
    &&& forall|i: int, j: int|
        0 <= i < j < v.len() ==> crate::resolver::net_key(#[trigger] v[i]) < crate::resolver::net_key(#[trigger] v[j])
}

/// The interfaces of the tunnels of a rule, in its order.
pub open spec fn ifaces(core: &Core, tunnels: Seq<usize>) -> Seq<Seq<char>>
    decreases tunnels.len(),
{
    if tunnels.len() == 0 {
        seq![]
    } else {
        let rest = ifaces(core, tunnels.drop_last());
        let t = tunnels.last();
        if crate::links::has_iface(core.states(), t) {
            let (name, _) = core.states()[t as int].iface->0;
            rest.push(name)
        } else {
            rest
        }
    }
}

/// What pf makes of a rule: nothing unless it is in force.
pub open spec fn rule_form(core: &Core, r: RuleRun) -> Option<Seq<Seq<char>>> {
    if r.active {
        Some(ifaces(core, r.tunnels@))
    } else {
        None
    }
}

pub open spec fn form(r: &Resolver) -> crate::pf::Form {
    crate::pf::Form {
        rules: r.core.rules@.map_values(|x: RuleRun| rule_form(&r.core, x)),
        use_fakeip: r.core.use_fakeip,
        endpoints: crate::resolver::servers(r.core.states()),
        network: match r.network {
            Some((iface, dns)) => Some((iface@, dns)),
            None => None,
        },
    }
}

/// What pf is known to hold.
pub open spec fn known_form(s: Option<Shape>) -> Option<crate::pf::Form> {
    match s {
        Some(s) => Some(s@),
        None => None,
    }
}

/// The tables that go with the rules.
pub open spec fn tables_of(t: Tables, r: &Resolver) -> bool {
    &&& t.hosts@.len() == r.core.rules@.len()
    &&& t.nets@.len() == r.core.rules@.len()
    &&& forall|i: int|
        0 <= i < t.hosts@.len() ==> (#[trigger] t.hosts@[i])@ == hosts_of(r.hosts.entries(), i)
    &&& forall|i: int|
        0 <= i < t.nets@.len() ==> nets_of((#[trigger] t.nets@[i])@, &r.core, r.nets(), i)
}

proof fn lemma_mapped_push<V>(e: Seq<(u64, V)>, i: int)
    requires
        crate::table::ascending(e),
        0 <= i < e.len(),
    ensures
        crate::table::ascending(e.take(i)),
        crate::table::ascending(e.take(i + 1)),
        crate::table::mapped(e.take(i + 1)) =~= crate::table::mapped(e.take(i)).insert(
            e[i].0,
            e[i].1,
        ),
{
    let a = e.take(i);
    let b = e.take(i + 1);
    assert forall|x: int, y: int| 0 <= x < y < a.len() implies (#[trigger] a[x]).0 < (
    #[trigger] a[y]).0 by {
        assert(a[x] == e[x] && a[y] == e[y]);
    }
    assert forall|x: int, y: int| 0 <= x < y < b.len() implies (#[trigger] b[x]).0 < (
    #[trigger] b[y]).0 by {
        assert(b[x] == e[x] && b[y] == e[y]);
    }
    assert(b[i] == e[i]);
    assert forall|k: u64| crate::table::keyed(b, k) == (crate::table::keyed(a, k) || k == e[i].0) by {
        if crate::table::keyed(a, k) {
            let j = choose|j: int| 0 <= j < a.len() && (#[trigger] a[j]).0 == k;
            assert(b[j] == a[j]);
        }
        if crate::table::keyed(b, k) {
            let j = choose|j: int| 0 <= j < b.len() && (#[trigger] b[j]).0 == k;
            if j < i {
                assert(a[j] == b[j]);
            }
        }
    }
    assert forall|k: u64| crate::table::keyed(b, k) implies crate::table::mapped(b)[k]
        == crate::table::mapped(a).insert(e[i].0, e[i].1)[k] by {
        let j = choose|j: int| 0 <= j < b.len() && (#[trigger] b[j]).0 == k;
        crate::table::lemma_mapped_at(b, j);
        if j < i {
            crate::table::lemma_mapped_at(a, j);
            assert(a[j] == b[j]);
        }
    }
}

impl Resolver {
    /// Takes in hosts from the state, not routed yet.
    pub fn load_hosts(&mut self, hosts: &Vec<Loaded>)
        requires
            old(self).wf(),
        ensures
            final(self).wf(),
            crate::resolver::only_hosts(old(self), final(self)),
            final(self).dirty == old(self).dirty,
            final(self).pf_stale,
            final(self).hosts@ == with_all_loaded(
                old(self).hosts@,
                hosts@,
                old(self).core.rules@.len(),
            ),
    {
        let ghost start = self.hosts@;
        let mut i: usize = 0;
        proof {
            assert(hosts@.take(0) =~= seq![]);
        }
        while i < hosts.len()
            invariant
                i <= hosts@.len(),
                self.wf(),
                crate::resolver::only_hosts(old(self), self),
                self.dirty == old(self).dirty,
                self.hosts@ == with_all_loaded(
                    start,
                    hosts@.take(i as int),
                    old(self).core.rules@.len(),
                ),
            decreases hosts@.len() - i,
        {
            proof {
                assert(hosts@.take(i + 1).drop_last() =~= hosts@.take(i as int));
            }
            let l = hosts[i];
            let k: u64 = l.ip.bits as u64;
            if l.rule < self.core.rules.len() && self.hosts.get(k).is_none() {
                self.hosts.insert(k, HostRun { rule: l.rule, last: l.last, placed: None });
            }
            i += 1;
        }
        proof {
            assert(hosts@.take(i as int) =~= hosts@);
        }
        self.pf_stale = true;
    }

    /// Removes every route, for good; the hosts stay, to be saved. Returns
    /// the routes to delete.
    pub fn remove_all(&mut self) -> (r: Vec<Subnet>)
        requires
            old(self).wf(),
        ensures
            final(self).wf(),
            *final(self) == (Resolver {
                core: Core { stopped: true, ..old(self).core },
                hosts: final(self).hosts,
                subnets: final(self).subnets,
                ..*old(self)
            }),
            final(self).hosts@ == unplaced(old(self).hosts@),
            final(self).subnets@ == Map::<u64, NetRun>::empty(),
            r@ == host_routes(old(self).hosts.entries()) + net_routes(old(self).subnets.entries()),
    {
        let ghost e = self.hosts.entries();
        let mut placed: Vec<Subnet> = Vec::new();
        let mut hosts: Table<HostRun> = Table::new();
        let mut i: usize = 0;
        proof {
            assert(e.take(0) =~= seq![]);
            assert(crate::table::mapped(e.take(0)) =~= Map::empty());
            assert(unplaced(crate::table::mapped(e.take(0))) =~= Map::empty());
        }
        while i < self.hosts.len()
            invariant
                self.wf(),
                *self == *old(self),
                i <= e.len(),
                e == self.hosts.entries(),
                hosts.wf(),
                hosts@ == unplaced(crate::table::mapped(e.take(i as int))),
                placed@ == host_routes(e.take(i as int)),
            decreases e.len() - i,
        {
            let (k, h) = self.hosts.at(i);
            proof {
                assert(e.take(i + 1).drop_last() =~= e.take(i as int));
                assert(e.take(i + 1).last() == (k, *h));
                crate::table::lemma_mapped_at(e, i as int);
                assert(self.hosts@.dom().contains(k));
                lemma_mapped_push(e, i as int);
            }
            if h.placed.is_some() {
                placed.push(Subnet::host(Ipv4Addr { bits: k as u32 }));
            }
            let run = HostRun { rule: h.rule, last: h.last, placed: None };
            let ghost before = hosts@;
            hosts.insert(k, run);
            proof {
                assert(hosts@ =~= unplaced(crate::table::mapped(e.take(i + 1))));
            }
            i += 1;
        }
        proof {
            assert(e.take(i as int) =~= e);
        }
        let ghost n = self.subnets.entries();
        let ghost head = placed@;
        let mut i: usize = 0;
        proof {
            assert(head + net_routes(n).take(0) =~= head);
        }
        while i < self.subnets.len()
            invariant
                i <= n.len(),
                n == self.subnets.entries(),
                placed@ == head + net_routes(n).take(i as int),
            decreases n.len() - i,
        {
            let (k, run) = self.subnets.at(i);
            placed.push(run.net);
            i += 1;
            proof {
                assert(head + net_routes(n).take(i as int) =~= (head + net_routes(n).take(
                    i - 1,
                )).push(net_routes(n)[i - 1]));
            }
        }
        proof {
            assert(net_routes(n).take(i as int) =~= net_routes(n));
        }
        self.core.stopped = true;
        self.hosts = hosts;
        self.subnets = Table::new();
        placed
    }

    /// Drops hosts whose last answer is older than `window` seconds; returns
    /// them, for their routes and kill switch entries to go too.
    pub fn expire(&mut self, now: u64, window: u64) -> (r: Vec<Expired>)
        requires
            old(self).wf(),
        ensures
            final(self).wf(),
            crate::resolver::only_hosts(old(self), final(self)),
            final(self).pf_stale == old(self).pf_stale,
            final(self).dirty == (old(self).dirty || r@.len() > 0),
            final(self).hosts@ == unexpired(old(self).hosts@, now, window),
            r@ == expired_list(old(self).hosts.entries(), now, window),
    {
        let ghost e = self.hosts.entries();
        let mut gone: Vec<Expired> = Vec::new();
        let mut hosts: Table<HostRun> = Table::new();
        let mut i: usize = 0;
        proof {
            assert(e.take(0) =~= seq![]);
            assert(crate::table::mapped(e.take(0)) =~= Map::empty());
            assert(unexpired(crate::table::mapped(e.take(0)), now, window) =~= Map::empty());
        }
        while i < self.hosts.len()
            invariant
                self.wf(),
                *self == *old(self),
                i <= e.len(),
                e == self.hosts.entries(),
                hosts.wf(),
                hosts@ == unexpired(crate::table::mapped(e.take(i as int)), now, window),
                gone@ == expired_list(e.take(i as int), now, window),
            decreases e.len() - i,
        {
            let (k, h) = self.hosts.at(i);
            proof {
                assert(e.take(i + 1).drop_last() =~= e.take(i as int));
                assert(e.take(i + 1).last() == (k, *h));
                crate::table::lemma_mapped_at(e, i as int);
                lemma_mapped_push(e, i as int);
                assert(!crate::table::mapped(e.take(i as int)).dom().contains(k)) by {
                    if crate::table::keyed(e.take(i as int), k) {
                        let j = choose|j: int|
                            0 <= j < i && (#[trigger] e.take(i as int)[j]).0 == k;
                        assert(e[j].0 < e[i as int].0);
                    }
                }
            }
            if now > h.last && now - h.last > window {
                gone.push(
                    Expired {
                        ip: Ipv4Addr { bits: k as u32 },
                        rule: h.rule,
                        routed: h.placed.is_some(),
                    },
                );
            } else {
                hosts.insert(k, HostRun { rule: h.rule, last: h.last, placed: h.placed });
            }
            proof {
                assert(hosts@ =~= unexpired(crate::table::mapped(e.take(i + 1)), now, window));
            }
            i += 1;
        }
        proof {
            assert(e.take(i as int) =~= e);
        }
        if gone.len() == 0 {
            proof {
                lemma_none_expired(e, now, window);
                assert(hosts@ =~= self.hosts@);
            }
            return gone;
        }
        self.hosts = hosts;
        self.dirty = true;
        gone
    }

    /// The expired hosts of a rule, for its table.
    pub fn expired_hosts(gone: &Vec<Expired>, rule: usize) -> (r: Vec<Ipv4Addr>)
        ensures
            r@ == expired_of(gone@, rule as int),
    {
        let mut v: Vec<Ipv4Addr> = Vec::new();
        let mut i: usize = 0;
        proof {
            assert(gone@.take(0) =~= seq![]);
        }
        while i < gone.len()
            invariant
                i <= gone@.len(),
                v@ == expired_of(gone@.take(i as int), rule as int),
            decreases gone@.len() - i,
        {
            proof {
                assert(gone@.take(i + 1).drop_last() =~= gone@.take(i as int));
            }
            if gone[i].rule == rule {
                v.push(gone[i].ip);
            }
            i += 1;
        }
        proof {
            assert(gone@.take(i as int) =~= gone@);
        }
        v
    }

    /// The tables in pf may be out of date: the next sync reloads them.
    pub fn mark_stale(&mut self)
        ensures
            *final(self) == (Resolver { pf_stale: true, ..*old(self) }),
    {
        self.pf_stale = true;
    }
}

proof fn lemma_none_expired(e: Seq<(u64, HostRun)>, now: u64, window: u64)
    requires
        crate::table::ascending(e),
        expired_list(e, now, window).len() == 0,
    ensures
        unexpired(crate::table::mapped(e), now, window) =~= crate::table::mapped(e),
{
    lemma_all_fresh(e, now, window);
    let m = crate::table::mapped(e);
    assert forall|k: u64| m.dom().contains(k) implies !expired(m[k], now, window) by {
        let i = choose|i: int| 0 <= i < e.len() && (#[trigger] e[i]).0 == k;
        crate::table::lemma_mapped_at(e, i);
    }
}

proof fn lemma_all_fresh(e: Seq<(u64, HostRun)>, now: u64, window: u64)
    requires
        expired_list(e, now, window).len() == 0,
    ensures
        forall|i: int| 0 <= i < e.len() ==> !expired((#[trigger] e[i]).1, now, window),
    decreases e.len(),
{
    if e.len() > 0 {
        let rest = e.drop_last();
        lemma_all_fresh(rest, now, window);
        assert forall|i: int| 0 <= i < e.len() implies !expired((#[trigger] e[i]).1, now, window) by {
            if i < rest.len() {
                assert(rest[i] == e[i]);
            }
        }
    }
}

impl Core {
    fn iface_names(&self, tunnels: &Vec<usize>) -> (r: Vec<String>)
        ensures
            crate::text::seen(r@) == ifaces(self, tunnels@),
    {
        let mut v: Vec<String> = Vec::new();
        let mut i: usize = 0;
        proof {
            assert(tunnels@.take(0) =~= seq![]);
            assert(crate::text::seen(v@) =~= seq![]);
        }
        while i < tunnels.len()
            invariant
                i <= tunnels@.len(),
                crate::text::seen(v@) == ifaces(self, tunnels@.take(i as int)),
            decreases tunnels@.len() - i,
        {
            proof {
                assert(tunnels@.take(i + 1).drop_last() =~= tunnels@.take(i as int));
            }
            let t = tunnels[i];
            if t < self.links.len() {
                proof {
                    assert(self.states()[t as int] == self.links@[t as int].1@);
                }
                if let Some(iface) = &self.links[t].1.iface {
                    let s = iface.name.clone();
                    proof {
                        crate::text::lemma_seen_push(v@, s);
                    }
                    v.push(s);
                }
            }
            i += 1;
        }
        proof {
            assert(tunnels@.take(i as int) =~= tunnels@);
        }
        v
    }
}

impl Resolver {
    /// What the rules of pf depend on now.
    pub fn shape(&self) -> (r: Shape)
        ensures
            r@ == form(self),
    {
        let mut rules: Vec<Option<Vec<String>>> = Vec::new();
        let mut i: usize = 0;
        while i < self.core.rules.len()
            invariant
                i <= self.core.rules@.len(),
                rules@.len() == i,
                forall|j: int|
                    0 <= j < i ==> crate::pf::exits(#[trigger] rules@[j]) == rule_form(
                        &self.core,
                        self.core.rules@[j],
                    ),
            decreases self.core.rules@.len() - i,
        {
            let r: Option<Vec<String>> = if self.core.rules[i].active {
                Some(self.core.iface_names(&self.core.rules[i].tunnels))
            } else {
                None
            };
            rules.push(r);
            i += 1;
        }
        let network = match &self.network {
            Some((iface, dns)) => Some((iface.clone(), *dns)),
            None => None,
        };
        let shape = Shape {
            rules,
            use_fakeip: self.core.use_fakeip,
            endpoints: self.core.endpoints(),
            network,
        };
        proof {
            assert(shape@.rules =~= form(self).rules);
            assert(shape@ =~= form(self));
        }
        shape
    }

    fn host_table(&self, rule: usize) -> (r: Vec<Ipv4Addr>)
        ensures
            r@ == hosts_of(self.hosts.entries(), rule as int),
    {
        let ghost e = self.hosts.entries();
        let mut v: Vec<Ipv4Addr> = Vec::new();
        let mut i: usize = 0;
        proof {
            assert(e.take(0) =~= seq![]);
        }
        while i < self.hosts.len()
            invariant
                i <= e.len(),
                e == self.hosts.entries(),
                v@ == hosts_of(e.take(i as int), rule as int),
            decreases e.len() - i,
        {
            let (k, h) = self.hosts.at(i);
            proof {
                assert(e.take(i + 1).drop_last() =~= e.take(i as int));
                assert(e.take(i + 1).last() == (k, *h));
            }
            if h.rule == rule {
                v.push(Ipv4Addr { bits: k as u32 });
            }
            i += 1;
        }
        proof {
            assert(e.take(i as int) =~= e);
        }
        v
    }

    fn net_table(&self, owners: &Table<Owned>, rule: usize) -> (r: Vec<Subnet>)
        requires
            owners.wf(),
            crate::placement::owns(owners@, &self.core, self.nets()),
        ensures
            nets_of(r@, &self.core, self.nets(), rule as int),
    {
        let ghost o = owners.entries();
        let ghost nets = self.nets();
        let mut v: Vec<Subnet> = Vec::new();
        let mut i: usize = 0;
        while i < owners.len()
            invariant
                i <= o.len(),
                o == owners.entries(),
                nets == self.nets(),
                owners.wf(),
                crate::placement::owns(owners@, &self.core, nets),
                forall|x: int|
                    0 <= x < v@.len() ==> (#[trigger] v@[x]).canonical() && crate::placement::net_owner(
                        &self.core,
                        nets,
                        v@[x],
                    ) == Some(rule as int),
                forall|j: int|
                    0 <= j < i && (#[trigger] o[j]).1.rule == rule ==> v@.contains(o[j].1.net),
                forall|x: int|
                    0 <= x < v@.len() ==> exists|j: int|
                        0 <= j < i && (#[trigger] o[j]).0 == crate::resolver::net_key(#[trigger] v@[x]),
                forall|x: int, y: int|
                    0 <= x < y < v@.len() ==> crate::resolver::net_key(#[trigger] v@[x]) < crate::resolver::net_key(
                        #[trigger] v@[y],
                    ),
            decreases o.len() - i,
        {
            let (k, own) = owners.at(i);
            let ghost before = v@;
            proof {
                crate::table::lemma_mapped_at(o, i as int);
                assert(owners@.dom().contains(k));
                assert(o[i as int] == (k, *own));
            }
            if own.rule == rule {
                v.push(own.net);
            }
            proof {
                assert forall|j: int| 0 <= j < i + 1 && (#[trigger] o[j]).1.rule == rule implies v@.contains(
                    o[j].1.net,
                ) by {
                    if j < i {
                        let x = choose|x: int| 0 <= x < before.len() && before[x] == o[j].1.net;
                        assert(v@[x] == before[x]);
                    } else {
                        assert(v@[before.len() as int] == own.net);
                    }
                }
                assert forall|x: int| 0 <= x < v@.len() implies exists|j: int|
                    0 <= j < i + 1 && (#[trigger] o[j]).0 == crate::resolver::net_key(#[trigger] v@[x]) by {
                    if x < before.len() {
                        assert(v@[x] == before[x]);
                        let j = choose|j: int|
                            0 <= j < i && (#[trigger] o[j]).0 == crate::resolver::net_key(before[x]);
                        assert(o[j].0 == crate::resolver::net_key(v@[x]));
                    } else {
                        assert(o[i as int].0 == crate::resolver::net_key(v@[x]));
                    }
                }
                assert forall|x: int, y: int| 0 <= x < y < v@.len() implies crate::resolver::net_key(
                    #[trigger] v@[x],
                ) < crate::resolver::net_key(#[trigger] v@[y]) by {
                    assert(v@[x] == before[x]);
                    if y == before.len() {
                        let j = choose|j: int|
                            0 <= j < i && (#[trigger] o[j]).0 == crate::resolver::net_key(before[x]);
                        assert(o[j].0 < o[i as int].0);
                    } else {
                        assert(v@[y] == before[y]);
                    }
                }
            }
            i += 1;
        }
        proof {
            assert forall|s: Subnet|
                s.canonical() && #[trigger] crate::placement::net_owner(&self.core, nets, s) == Some(
                    rule as int,
                ) implies v@.contains(s) by {
                crate::placement::lemma_owner_listed(*owners, &self.core, nets, s);
                let j = choose|j: int| 0 <= j < o.len() && (#[trigger] o[j]).1.net == s;
                crate::table::lemma_mapped_at(o, j);
                assert(owners@.dom().contains(o[j].0));
            }
        }
        v
    }

    /// The tables of the rules: every host by its rule, and the subnets of
    /// each rule in force but the fake range. A subnet that holds a tunnel
    /// server is not routed, yet held: only the server itself is let out
    /// past the tunnel.
    pub fn tables(&self) -> (r: Tables)
        requires
            self.wf(),
        ensures
            tables_of(r, self),
    {
        let owners = self.subnet_owners();
        let mut hosts: Vec<Vec<Ipv4Addr>> = Vec::new();
        let mut nets: Vec<Vec<Subnet>> = Vec::new();
        let mut i: usize = 0;
        while i < self.core.rules.len()
            invariant
                i <= self.core.rules@.len(),
                owners.wf(),
                crate::placement::owns(owners@, &self.core, self.nets()),
                hosts@.len() == i,
                nets@.len() == i,
                forall|j: int|
                    0 <= j < i ==> (#[trigger] hosts@[j])@ == hosts_of(self.hosts.entries(), j),
                forall|j: int|
                    0 <= j < i ==> nets_of((#[trigger] nets@[j])@, &self.core, self.nets(), j),
            decreases self.core.rules@.len() - i,
        {
            hosts.push(self.host_table(i));
            nets.push(self.net_table(&owners, i));
            i += 1;
        }
        Tables { hosts, nets }
    }

    /// Whether pf is to be loaded anew, and with what: when what it depends
    /// on changed, or its tables may be out of date.
    pub fn sync_pf(&mut self) -> (r: Option<(Shape, Tables)>)
        requires
            old(self).wf(),
        ensures
            final(self).wf(),
            *final(self) == (Resolver { pf_stale: false, ..*old(self) }),
            match r {
                Some((s, t)) => (old(self).pf_stale || known_form(old(self).pf_shape) != Some(
                    form(old(self)),
                )) && s@ == form(old(self)) && tables_of(t, old(self)),
                None => !old(self).pf_stale && known_form(old(self).pf_shape) == Some(
                    form(old(self)),
                ),
            },
    {
        let shape = self.shape();
        let tables = self.tables();
        let stale = self.pf_stale;
        self.pf_stale = false;
        if !stale {
            if let Some(last) = &self.pf_shape {
                if last.same(&shape) {
                    return None;
                }
            }
        }
        Some((shape, tables))
    }

    /// What came of loading pf: what it holds now, or that this is unknown.
    pub fn pf_loaded(&mut self, shape: Shape, ok: bool)
        ensures
            *final(self) == (Resolver {
                pf_stale: old(self).pf_stale || !ok,
                pf_shape: if ok {
                    Some(shape)
                } else {
                    None
                },
                ..*old(self)
            }),
    {
        if ok {
            self.pf_shape = Some(shape);
        } else {
            self.pf_stale = true;
            self.pf_shape = None;
        }
    }

    /// True when `ip` is routed into a tunnel by a host route or a subnet.
    pub fn covers(&self, ip: Ipv4Addr) -> (r: bool)
        requires
            self.wf(),
        ensures
            r == ((self.hosts@.dom().contains(crate::resolver::host_key(ip)) && self.hosts@[crate::resolver::host_key(
                ip,
            )].placed is Some) || exists|k: u64| #[trigger]
                self.subnets@.dom().contains(k) && self.subnets@[k].net.has(ip)),
    {
        let k: u64 = ip.bits as u64;
        let routed = match self.hosts.get(k) {
            Some(h) => h.placed.is_some(),
            None => false,
        };
        if routed {
            return true;
        }
        let ghost e = self.subnets.entries();
        let mut i: usize = 0;
        while i < self.subnets.len()
            invariant
                self.wf(),
                i <= e.len(),
                e == self.subnets.entries(),
                forall|j: int| 0 <= j < i ==> !(#[trigger] e[j]).1.net.has(ip),
            decreases e.len() - i,
        {
            let (k, run) = self.subnets.at(i);
            proof {
                crate::table::lemma_mapped_at(e, i as int);
                assert(self.subnets@.dom().contains(k));
            }
            if run.net.contains(ip) {
                return true;
            }
            i += 1;
        }
        proof {
            assert forall|k: u64| #[trigger] self.subnets@.dom().contains(k) implies !self.subnets@[k].net.has(
                ip,
            ) by {
                let j = choose|j: int| 0 <= j < e.len() && (#[trigger] e[j]).0 == k;
                crate::table::lemma_mapped_at(e, j);
            }
        }
        false
    }

    /// True when pf may hold `ip` back: a host or a subnet of a rule in
    /// force.
    pub fn held(&self, ip: Ipv4Addr) -> (r: bool)
        requires
            self.wf(),
        ensures
            r == (self.hosts@.dom().contains(crate::resolver::host_key(ip)) || exists|s: Subnet|
                s.canonical() && s.has(ip) && #[trigger] crate::placement::net_owner(
                    &self.core,
                    self.nets(),
                    s,
                ) is Some),
    {
        let k: u64 = ip.bits as u64;
        if self.hosts.get(k).is_some() {
            return true;
        }
        let owners = self.subnet_owners();
        let ghost o = owners.entries();
        let mut i: usize = 0;
        while i < owners.len()
            invariant
                i <= o.len(),
                o == owners.entries(),
                owners.wf(),
                crate::placement::owns(owners@, &self.core, self.nets()),
                forall|j: int| 0 <= j < i ==> !(#[trigger] o[j]).1.net.has(ip),
            decreases o.len() - i,
        {
            let (k, own) = owners.at(i);
            proof {
                crate::table::lemma_mapped_at(o, i as int);
                assert(owners@.dom().contains(k));
            }
            if own.net.contains(ip) {
                proof {
                    assert(crate::placement::net_owner(&self.core, self.nets(), own.net) is Some);
                }
                return true;
            }
            i += 1;
        }
        proof {
            assert forall|s: Subnet|
                s.canonical() && s.has(ip) implies !(#[trigger] crate::placement::net_owner(
                &self.core,
                self.nets(),
                s,
            ) is Some) by {
                if crate::placement::net_owner(&self.core, self.nets(), s) is Some {
                    crate::placement::lemma_owner_listed(owners, &self.core, self.nets(), s);
                    let j = choose|j: int| 0 <= j < o.len() && (#[trigger] o[j]).1.net == s;
                    assert(!o[j].1.net.has(ip));
                }
            }
        }
        false
    }

    /// The hosts with the names of their rules, to be saved.
    pub fn hosts_snapshot(&self) -> (r: Hosts)
        requires
            self.wf(),
        ensures
            r.wf(),
            forall|ip: Ipv4Addr| #[trigger]
                r@.dom().contains(ip) <==> self.hosts@.dom().contains(crate::resolver::host_key(ip))
                    && self.hosts@[crate::resolver::host_key(ip)].rule < self.core.rules@.len(),
            forall|ip: Ipv4Addr| #[trigger]
                r@.dom().contains(ip) ==> {
                    let h = self.hosts@[crate::resolver::host_key(ip)];
                    &&& r@[ip].rule == self.core.rules@[h.rule as int].name@
                    &&& r@[ip].last == h.last
                },
    {
        let ghost e = self.hosts.entries();
        let mut r = Hosts::new();
        let mut i: usize = 0;
        while i < self.hosts.len()
            invariant
                self.wf(),
                i <= e.len(),
                e == self.hosts.entries(),
                r.wf(),
                forall|ip: Ipv4Addr| #[trigger]
                    r@.dom().contains(ip) <==> exists|j: int|
                        0 <= j < i && (#[trigger] e[j]).0 == crate::resolver::host_key(ip) && e[j].1.rule
                            < self.core.rules@.len(),
                forall|ip: Ipv4Addr| #[trigger]
                    r@.dom().contains(ip) ==> {
                        let h = self.hosts@[crate::resolver::host_key(ip)];
                        &&& r@[ip].rule == self.core.rules@[h.rule as int].name@
                        &&& r@[ip].last == h.last
                    },
            decreases e.len() - i,
        {
            let (k, h) = self.hosts.at(i);
            let ghost before = r@;
            proof {
                crate::table::lemma_mapped_at(e, i as int);
                assert(self.hosts@.dom().contains(k));
                assert(e[i as int] == (k, *h));
            }
            let ip = Ipv4Addr { bits: k as u32 };
            if h.rule < self.core.rules.len() {
                r.insert(ip, Host { rule: self.core.rules[h.rule].name.clone(), last: h.last });
            }
            proof {
                assert(crate::resolver::host_key(ip) == k);
                assert forall|x: Ipv4Addr| #[trigger] r@.dom().contains(x) <==> exists|j: int|
                    0 <= j < i + 1 && (#[trigger] e[j]).0 == crate::resolver::host_key(x) && e[j].1.rule
                        < self.core.rules@.len() by {
                    if before.dom().contains(x) {
                        let j = choose|j: int|
                            0 <= j < i && (#[trigger] e[j]).0 == crate::resolver::host_key(x) && e[j].1.rule
                                < self.core.rules@.len();
                        assert(e[j].0 == crate::resolver::host_key(x));
                    }
                    if x == ip {
                        assert(e[i as int].0 == crate::resolver::host_key(x));
                    }
                    if exists|j: int|
                        0 <= j < i + 1 && (#[trigger] e[j]).0 == crate::resolver::host_key(x) && e[j].1.rule
                            < self.core.rules@.len() {
                        let j = choose|j: int|
                            0 <= j < i + 1 && (#[trigger] e[j]).0 == crate::resolver::host_key(x) && e[j].1.rule
                                < self.core.rules@.len();
                        if j < i {
                            assert(before.dom().contains(x));
                        } else {
                            assert(x == ip);
                        }
                    }
                }
            }
            i += 1;
        }
        proof {
            assert forall|ip: Ipv4Addr| #[trigger] r@.dom().contains(ip) <==> self.hosts@.dom().contains(
                crate::resolver::host_key(ip),
            ) && self.hosts@[crate::resolver::host_key(ip)].rule < self.core.rules@.len() by {
                let k = crate::resolver::host_key(ip);
                if r@.dom().contains(ip) {
                    let j = choose|j: int|
                        0 <= j < e.len() && (#[trigger] e[j]).0 == k && e[j].1.rule
                            < self.core.rules@.len();
                    crate::table::lemma_mapped_at(e, j);
                }
                if self.hosts@.dom().contains(k) {
                    let j = choose|j: int| 0 <= j < e.len() && (#[trigger] e[j]).0 == k;
                    crate::table::lemma_mapped_at(e, j);
                }
            }
        }
        r
    }
}

// ---------------------------------------------------------------------
// Laws.
// ---------------------------------------------------------------------

/// Nothing is lost by expiring but what lived out its window: a host that
/// answered within it is still there, as it was.
pub proof fn lemma_expire_spares_the_fresh(
    m: Map<u64, HostRun>,
    now: u64,
    window: u64,
    k: u64,
)
    requires
        m.dom().contains(k),
        now <= m[k].last + window,
    ensures
        unexpired(m, now, window).dom().contains(k),
        unexpired(m, now, window)[k] == m[k],
{
}

/// Once every route was taken back, nothing is placed any more.
pub proof fn lemma_stopped_places_nothing(core: &Core, m: Map<u64, HostRun>, ip: Ipv4Addr, rule: int)
    requires
        core.stopped,
    ensures
        crate::resolver::host_step(core, m, ip, rule) is Stopped,
{
}

/// Taking every route back forgets no host: the same addresses are kept,
/// for the same rules, and none of them is said to have a route.
pub proof fn lemma_stop_keeps_the_hosts(m: Map<u64, HostRun>, k: u64)
    ensures
        unplaced(m).dom().contains(k) <==> m.dom().contains(k),
        m.dom().contains(k) ==> unplaced(m)[k].rule == m[k].rule && unplaced(m)[k].last == m[k].last
            && unplaced(m)[k].placed is None,
{
}

/// A host goes exactly when its last answer is more than the window ago;
/// every other stays as it was, and none is made.
pub proof fn lemma_who_expires(m: Map<u64, HostRun>, now: u64, window: u64, k: u64)
    ensures
        unexpired(m, now, window).dom().contains(k) <==> m.dom().contains(k) && now - m[k].last
            <= window,
        unexpired(m, now, window).dom().contains(k) ==> unexpired(m, now, window)[k] == m[k],
{
}

/// The expired are told, all of them and no other, in order, each with its
/// rule, and its route to be deleted exactly when it has one.
pub proof fn lemma_the_expired_are_told(e: Seq<(u64, HostRun)>, now: u64, window: u64)
    ensures
        expired_list(e, now, window) == e.filter(
            |x: (u64, HostRun)| now - x.1.last > window,
        ).map_values(
            |x: (u64, HostRun)|
                Expired {
                    ip: Ipv4Addr { bits: x.0 as u32 },
                    rule: x.1.rule,
                    routed: x.1.placed is Some,
                },
        ),
    decreases e.len(),
{
    reveal(Seq::filter);
    if e.len() > 0 {
        lemma_the_expired_are_told(e.drop_last(), now, window);
    }
    assert(expired_list(e, now, window) =~= e.filter(
        |x: (u64, HostRun)| now - x.1.last > window,
    ).map_values(
        |x: (u64, HostRun)|
            Expired {
                ip: Ipv4Addr { bits: x.0 as u32 },
                rule: x.1.rule,
                routed: x.1.placed is Some,
            },
    ));
}

/// The table of a rule loses the expired hosts of that rule and no other.
pub proof fn lemma_the_expired_of_a_rule(v: Seq<Expired>, rule: int)
    ensures
        expired_of(v, rule) == v.filter(|x: Expired| x.rule == rule).map_values(
            |x: Expired| x.ip,
        ),
    decreases v.len(),
{
    reveal(Seq::filter);
    if v.len() > 0 {
        lemma_the_expired_of_a_rule(v.drop_last(), rule);
    }
    assert(expired_of(v, rule) =~= v.filter(|x: Expired| x.rule == rule).map_values(
        |x: Expired| x.ip,
    ));
}

/// Each answer renews the window: an address whose route is placed at a
/// time, or that is kept at it, is still there when the hosts are expired
/// at any time within the window from then, whatever its last answer was
/// before.
pub proof fn lemma_an_answer_lasts_a_window(
    m: Map<u64, HostRun>,
    ip: Ipv4Addr,
    rule: usize,
    target: crate::resolver::Target,
    now: u64,
    later: u64,
    window: u64,
)
    requires
        later <= now + window,
    ensures
        unexpired(
            crate::resolver::settled_in(m, ip, rule as int, target, now),
            later,
            window,
        ).dom().contains(ip.bits as u64),
        m.dom().contains(ip.bits as u64) ==> unexpired(
            crate::resolver::renewed(m, ip, now),
            later,
            window,
        ).dom().contains(ip.bits as u64),
{
}

/// And no longer: past the window it goes, unless it is answered again.
pub proof fn lemma_an_answer_lasts_no_longer(
    m: Map<u64, HostRun>,
    ip: Ipv4Addr,
    rule: usize,
    target: crate::resolver::Target,
    now: u64,
    later: u64,
    window: u64,
)
    requires
        later > now + window,
    ensures
        !unexpired(
            crate::resolver::settled_in(m, ip, rule as int, target, now),
            later,
            window,
        ).dom().contains(ip.bits as u64),
{
}

/// A host from the state is taken in, without a route, for a rule that
/// there is, unless it is known; one that is known stays as it is, and no
/// other is touched.
pub proof fn lemma_a_host_is_taken_in(m: Map<u64, HostRun>, l: Loaded, rules: nat, k: u64)
    ensures
        ({
            let f = with_loaded(m, l, rules);
            &&& m.dom().contains(k) ==> f.dom().contains(k) && f[k] == m[k]
            &&& !m.dom().contains(k) ==> (f.dom().contains(k) <==> k == l.ip.bits && l.rule < rules)
            &&& !m.dom().contains(k) && f.dom().contains(k) ==> f[k].rule == l.rule && f[k].last
                == l.last && f[k].placed is None
        }),
{
}

/// Of hosts from the state, the first with an address and a rule that there
/// is counts; all are taken in.
pub proof fn lemma_hosts_are_taken_in(m: Map<u64, HostRun>, v: Seq<Loaded>, rules: nat, k: u64)
    ensures
        ({
            let f = with_all_loaded(m, v, rules);
            &&& m.dom().contains(k) ==> f.dom().contains(k) && f[k] == m[k]
            &&& !m.dom().contains(k) && f.dom().contains(k) ==> f[k].placed is None && exists|i: int|
                0 <= i < v.len() && (#[trigger] v[i]).ip.bits == k && v[i].rule < rules && f[k].rule
                    == v[i].rule && f[k].last == v[i].last
            &&& forall|i: int|
                0 <= i < v.len() && (#[trigger] v[i]).rule < rules && v[i].ip.bits == k
                    ==> f.dom().contains(k)
        }),
    decreases v.len(),
{
    if v.len() > 0 {
        let a = v.drop_last();
        let n = v.len() - 1;
        lemma_hosts_are_taken_in(m, a, rules, k);
        lemma_a_host_is_taken_in(with_all_loaded(m, a, rules), v.last(), rules, k);
        assert(v[n] == v.last());
        let g = with_all_loaded(m, a, rules);
        if !m.dom().contains(k) && g.dom().contains(k) {
            let i = choose|i: int|
                0 <= i < a.len() && (#[trigger] a[i]).ip.bits == k && a[i].rule < rules && g[k].rule
                    == a[i].rule && g[k].last == a[i].last;
            assert(v[i] == a[i]);
        }
        assert forall|i: int|
            0 <= i < v.len() && (#[trigger] v[i]).rule < rules && v[i].ip.bits == k implies with_all_loaded(
            m,
            v,
            rules,
        ).dom().contains(k) by {
            if i < n {
                assert(a[i] == v[i]);
            }
        }
    }
}

/// The routes that a stop deletes: those of the hosts that have one, and no
/// other, each by its address alone.
pub proof fn lemma_host_routes_are_those_placed(e: Seq<(u64, HostRun)>)
    ensures
        host_routes(e) == e.filter(|x: (u64, HostRun)| x.1.placed is Some).map_values(
            |x: (u64, HostRun)| Subnet { addr: Ipv4Addr { bits: x.0 as u32 }, prefix: 32 },
        ),
    decreases e.len(),
{
    reveal(Seq::filter);
    if e.len() > 0 {
        lemma_host_routes_are_those_placed(e.drop_last());
    }
    assert(host_routes(e) =~= e.filter(|x: (u64, HostRun)| x.1.placed is Some).map_values(
        |x: (u64, HostRun)| Subnet { addr: Ipv4Addr { bits: x.0 as u32 }, prefix: 32 },
    ));
}

/// And every subnet that is in place, as it is.
pub proof fn lemma_net_routes_are_all(e: Seq<(u64, NetRun)>, i: int)
    requires
        0 <= i < e.len(),
    ensures
        net_routes(e).len() == e.len(),
        net_routes(e)[i] == e[i].1.net,
{
}

/// The host table of a rule is every host of the rule and no other, in the
/// order of the addresses, whether or not it has a route.
pub proof fn lemma_the_host_table(e: Seq<(u64, HostRun)>, rule: int)
    ensures
        hosts_of(e, rule) == e.filter(|x: (u64, HostRun)| x.1.rule == rule).map_values(
            |x: (u64, HostRun)| Ipv4Addr { bits: x.0 as u32 },
        ),
    decreases e.len(),
{
    reveal(Seq::filter);
    if e.len() > 0 {
        lemma_the_host_table(e.drop_last(), rule);
    }
    assert(hosts_of(e, rule) =~= e.filter(|x: (u64, HostRun)| x.1.rule == rule).map_values(
        |x: (u64, HostRun)| Ipv4Addr { bits: x.0 as u32 },
    ));
}

/// The addresses of a rule may leave through the interface of every tunnel
/// of the rule that has one, in its order, and through no other.
pub proof fn lemma_the_exits(core: &Core, tunnels: Seq<usize>)
    ensures
        ifaces(core, tunnels) == tunnels.filter(
            |t: usize| t < core.links@.len() && core.links@[t as int].1.iface is Some,
        ).map_values(|t: usize| core.links@[t as int].1.iface->0.name@),
    decreases tunnels.len(),
{
    reveal(Seq::filter);
    if tunnels.len() > 0 {
        lemma_the_exits(core, tunnels.drop_last());
        let t = tunnels.last();
        if t < core.links@.len() {
            assert(core.states()[t as int] == core.links@[t as int].1@);
        }
    }
    assert(ifaces(core, tunnels) =~= tunnels.filter(
        |t: usize| t < core.links@.len() && core.links@[t as int].1.iface is Some,
    ).map_values(|t: usize| core.links@[t as int].1.iface->0.name@));
}

/// What pf depends on: of every rule in force its exits and of every other
/// none, whether the router gives fake addresses, the server of every link,
/// and the network.
pub proof fn lemma_the_shape(r: &Resolver, i: int, ip: Ipv4Addr)
    requires
        0 <= i < r.core.rules@.len(),
    ensures
        form(r).rules.len() == r.core.rules@.len(),
        form(r).rules[i] is Some <==> r.core.rules@[i].active,
        r.core.rules@[i].active ==> form(r).rules[i] == Some(
            ifaces(&r.core, r.core.rules@[i].tunnels@),
        ),
        form(r).use_fakeip == r.core.use_fakeip,
        form(r).endpoints.contains(ip) <==> exists|l: int|
            0 <= l < r.core.links@.len() && (#[trigger] r.core.links@[l]).1.endpoint == Some(ip),
        match r.network {
            Some((iface, dns)) => form(r).network == Some((iface@, dns)),
            None => form(r).network is None,
        },
{
    crate::resolver::lemma_servers(r.core.states(), ip);
    let s = r.core.states();
    assert forall|l: int| 0 <= l < s.len() implies (#[trigger] s[l]).endpoint
        == r.core.links@[l].1.endpoint by {}
    if exists|l: int|
        0 <= l < r.core.links@.len() && (#[trigger] r.core.links@[l]).1.endpoint == Some(ip) {
        let l = choose|l: int|
            0 <= l < r.core.links@.len() && (#[trigger] r.core.links@[l]).1.endpoint == Some(ip);
        assert(s[l].endpoint == Some(ip));
    }
    if exists|l: int| 0 <= l < s.len() && (#[trigger] s[l]).endpoint == Some(ip) {
        let l = choose|l: int| 0 <= l < s.len() && (#[trigger] s[l]).endpoint == Some(ip);
        assert(r.core.links@[l].1.endpoint == Some(ip));
    }
}

/// The tables hold what the rules are to hold: of every rule its hosts, and
/// exactly the subnets that it owns, each once.
pub proof fn lemma_what_the_tables_hold(t: Tables, r: &Resolver, i: int, s: Subnet)
    requires
        tables_of(t, r),
        0 <= i < r.core.rules@.len(),
        s.canonical(),
    ensures
        t.hosts@.len() == r.core.rules@.len(),
        t.nets@.len() == r.core.rules@.len(),
        t.hosts@[i]@ == r.hosts.entries().filter(
            |x: (u64, HostRun)| x.1.rule == i,
        ).map_values(|x: (u64, HostRun)| Ipv4Addr { bits: x.0 as u32 }),
        t.nets@[i]@.contains(s) <==> crate::placement::net_owner(&r.core, r.nets(), s) == Some(i),
        t.nets@[i]@.no_duplicates(),
{
    lemma_the_host_table(r.hosts.entries(), i);
    let v = t.nets@[i]@;
    assert(nets_of(v, &r.core, r.nets(), i));
    assert(t.hosts@[i]@ == hosts_of(r.hosts.entries(), i));
    if v.contains(s) {
        let k = choose|k: int| 0 <= k < v.len() && v[k] == s;
        assert(crate::placement::net_owner(&r.core, r.nets(), v[k]) == Some(i));
    }
    assert forall|a: int, b: int| 0 <= a < v.len() && 0 <= b < v.len() && a != b implies v[a]
        != v[b] by {
        if a < b {
            assert(crate::resolver::net_key(v[a]) < crate::resolver::net_key(v[b]));
        } else {
            assert(crate::resolver::net_key(v[b]) < crate::resolver::net_key(v[a]));
        }
    }
}

} // verus!
