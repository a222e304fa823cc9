//! The resolver alone, on a tunnel someone else keeps up.

use vstd::prelude::*;
use vstd::string::*;

use crate::args::Args;
use crate::config::{Rule, When};
use crate::links::{Health, Iface, LinkState};
use crate::lists::Lists;
use crate::resolver::Resolver;
use crate::text::{copies, show, show_bool};
use crate::upstream::{Upstream, DNS_PORT};

verus! {

/// The first line of the journal.
pub open spec fn start_line(
    lists: crate::lists::Contents,
    a: crate::args::Resolving,
    index: u16,
) -> Seq<char> {
    "start suffixes="@ + crate::text::decimal(lists.suffixes.len()) + " subnets="@
        + crate::text::decimal(lists.subnets.len()) + " rejected="@ + crate::text::decimal(
        lists.rejected.len(),
    ) + " tunnel="@ + a.tunnel + "#"@ + crate::text::decimal(index as nat) + " network="@
        + a.network_dns.shown() + " tunnel_dns="@ + a.tunnel_dns.shown() + " use_fakeip="@
        + crate::text::shown_bool(a.use_fakeip) + " listen="@ + (a.listen.0 + ":"@
        + crate::text::decimal(a.listen.1 as nat))
}

/// What is written when it starts: what it has, and the lines of the lists
/// that are no entry.
pub fn log_start(lists: &Lists, args: &Args, index: u16) -> (r: Vec<String>)
    requires
        lists.sound(),
    ensures
        crate::text::seen(r@) == seq![start_line(lists@, args@, index)] + crate::daemon::after_word(
            "rejected "@,
            lists@.rejected,
        ),
{
    let nets = lists.subnets();
    let rejected = lists.rejected();
    proof {
        assert(nets@.map_values(|e: (crate::addr::Subnet, String)| (e.0, e.1@)).len()
            == nets@.len());
        assert(crate::text::seen(rejected@).len() == rejected@.len());
    }
    let mut s = String::from_str("start suffixes=");
    s.append(show(lists.suffix_count() as u128).as_str());
    s.append(" subnets=");
    s.append(show(nets.len() as u128).as_str());
    s.append(" rejected=");
    s.append(show(rejected.len() as u128).as_str());
    s.append(" tunnel=");
    s.append(args.tunnel.as_str());
    s.append("#");
    s.append(show(index as u128).as_str());
    s.append(" network=");
    s.append(args.network_dns.to_string().as_str());
    s.append(" tunnel_dns=");
    s.append(args.tunnel_dns.to_string().as_str());
    s.append(" use_fakeip=");
    s.append(show_bool(args.use_fakeip));
    s.append(" listen=");
    s.append(args.listen.to_string().as_str());
    let mut lines: Vec<String> = Vec::new();
    proof {
        crate::text::lemma_seen_push(lines@, s);
    }
    lines.push(s);
    proof {
        assert(crate::text::seen(lines@) =~= seq![s@]);
    }
    crate::daemon::add_lines(&mut lines, "rejected ", rejected);
    lines
}

/// The resolver with one rule, always in force, with every list, into the
/// one tunnel, which carries from `now` on; it asks the network DNS given.
pub fn resolve(lists: Lists, args: &Args, index: u16, now: u128) -> (r: Resolver)
    requires
        lists.sound(),
    ensures
        r.wf(),
        r.lists == lists,
        r.tunnel_dns == args.tunnel_dns,
        r.upstream == Some(
            (Upstream { server: args.network_dns, port: DNS_PORT, bound_if: None }),
        ),
        r.network is None,
        r.core.use_fakeip == args.use_fakeip,
        !r.core.owner && !r.core.stopped,
        r.core.rules@.len() == 1,
        ({
            let rule = r.core.rules@[0];
            &&& rule.name@ == "resolve"@
            &&& rule.when@ == crate::config::Condition::Always
            &&& crate::text::seen(rule.lists@) == lists@.names
            &&& rule.tunnels@ == seq![0usize]
            &&& rule.active
            &&& rule.current is None
        }),
        r.core.links@.len() == 1,
        r.core.links@[0].0@ == args.tunnel@,
        r.core.links@[0].1@ == (crate::links::State {
            iface: Some((args.tunnel@, index)),
            generation: 1,
            health: Health::Up,
            works: false,
            since: Some(now),
            endpoint: None,
        }),
        r.hosts@ == Map::<u64, crate::resolver::HostRun>::empty(),
        r.subnets@ == Map::<u64, crate::resolver::NetRun>::empty(),
        r.unrouted@ == Map::<u64, crate::addr::Subnet>::empty(),
        r.pf_stale && r.pf_shape is None && !r.dirty,
{
    let mut tunnels: Vec<usize> = Vec::new();
    tunnels.push(0);
    proof {
        assert(tunnels@ =~= seq![0usize]);
    }
    let rule = Rule {
        name: String::from_str("resolve"),
        when: When::Always,
        lists: copies(lists.names()),
        tunnels,
    };
    let mut rules: Vec<Rule> = Vec::new();
    rules.push(rule);
    let mut names: Vec<String> = Vec::new();
    names.push(args.tunnel.clone());
    let mut r = Resolver::new(lists, &rules, names, args.tunnel_dns);
    proof {
        assert(crate::status::fresh(r.core.rules@[0], rules@[0]));
    }
    r.set_upstream(
        Some(Upstream { server: args.network_dns, port: DNS_PORT, bound_if: None }),
    );
    r.set_use_fakeip(args.use_fakeip);
    let ghost before = r;
    r.set_country("RU");
    proof {
        assert(r.core.rules@[0] == (crate::resolver::RuleRun {
            active: before.core.rules@[0].when@.holds("RU"@),
            ..before.core.rules@[0]
        }));
        assert(before.core.rules@[0].when@.holds("RU"@));
    }
    let mut l = LinkState::new();
    l.iface = Some(Iface { name: args.tunnel.clone(), index });
    l.generation = 1;
    l.health = Health::Up;
    l.since = Some(now);
    r.set_link(0, l);
    r
}

/// The last line of the journal.
pub fn stop_line(removed: usize) -> (r: String)
    ensures
        r@ == "stop routes_removed="@ + crate::text::decimal(removed as nat),
{
    let mut s = String::from_str("stop routes_removed=");
    s.append(show(removed as u128).as_str());
    s
}

/// The first line: how much the lists hold, the tunnel, the servers, the
/// switch and where queries are taken.
pub proof fn lemma_the_first_line(
    lists: crate::lists::Contents,
    a: crate::args::Resolving,
    index: u16,
)
    ensures
        start_line(lists, a, index) == "start suffixes="@ + crate::text::decimal(
            lists.suffixes.len(),
        ) + " subnets="@ + crate::text::decimal(lists.subnets.len()) + " rejected="@
            + crate::text::decimal(lists.rejected.len()) + " tunnel="@ + a.tunnel + "#"@
            + crate::text::decimal(index as nat) + " network="@ + a.network_dns.shown()
            + " tunnel_dns="@ + a.tunnel_dns.shown() + " use_fakeip="@ + (if a.use_fakeip {
            "true"@
        } else {
            "false"@
        }) + " listen="@ + (a.listen.0 + ":"@ + crate::text::decimal(a.listen.1 as nat)),
{
}

} // verus!
