//! What is written of a query: one line for what it came to, and one for
//! every route on the way there.

use vstd::prelude::*;
use vstd::string::*;

use crate::addr::{Ipv4Addr, Subnet};
use crate::dns::{show_code, show_type};
use crate::resolver::{routable, Lookup, Placing, Target};
use crate::route::Outcome;
use crate::text::{join_of, show};

verus! {

/// A line for the journal.
#[derive(Debug)]
pub struct Note {
    /// Repeats of this kind are counted for a while; without a kind it is
    /// written every time.
    pub kind: Option<&'static str>,
    pub text: String,
}

impl Note {
    pub open spec fn view(&self) -> (Option<Seq<char>>, Seq<char>) {
        (
            match self.kind {
                Some(k) => Some(k@),
                None => None,
            },
            self.text@,
        )
    }
}

pub open spec fn noted(v: Seq<Note>) -> Seq<(Option<Seq<char>>, Seq<char>)> {
    v.map_values(|n: Note| n@)
}

/// A name that is held, the rule that holds it, and why.
pub open spec fn killswitch(name: Seq<char>, rule: Seq<char>, why: Seq<char>) -> Seq<char> {
    "killswitch "@ + name + " "@ + rule + " "@ + why
}

fn show_killswitch(name: &str, rule: &str, why: &str) -> (r: String)
    ensures
        r@ == killswitch(name@, rule@, why@),
{
    let mut s = "killswitch ".to_owned();
    s.append(name);
    s.append(" ");
    s.append(rule);
    s.append(" ");
    s.append(why);
    s
}

/// The router answers with a fake address.
pub fn fakeip(name: &str, rule: &str) -> (r: Note)
    ensures
        r@ == (None::<Seq<char>>, "fakeip "@ + name@ + " "@ + rule@),
{
    let mut s = "fakeip ".to_owned();
    s.append(name);
    s.append(" ");
    s.append(rule);
    Note { kind: None, text: s }
}

/// An answer without records. Every AAAA and HTTPS query of a listed name:
/// a line each would be a third of the journal.
pub fn refused(name: &str, qtype: u16, code: u16) -> (r: Note)
    ensures
        r@ == (
            Some("refuse"@),
            "refuse "@ + name@ + " "@ + crate::dns::type_text(qtype) + " "@
                + crate::dns::code_text(code),
        ),
{
    let mut s = "refuse ".to_owned();
    s.append(name);
    s.append(" ");
    s.append(show_type(qtype).as_str());
    s.append(" ");
    s.append(show_code(code).as_str());
    Note { kind: Some("refuse"), text: s }
}

/// The network DNS did not answer, for this reason.
pub fn network_failed(why: &str) -> (r: Note)
    ensures
        r@ == (Some("network-fail"@), "network-fail "@ + why@),
{
    let mut s = "network-fail ".to_owned();
    s.append(why);
    Note { kind: Some("network-fail"), text: s }
}

/// There is no network DNS to ask.
pub fn no_network() -> (r: Note)
    ensures
        r@ == (Some("network-fail"@), "network-fail "@ + "no network"@),
{
    network_failed("no network")
}

/// The kill switch holds the name, for the reasons of its rule.
pub fn killed(l: &Lookup) -> (r: Note)
    ensures
        r@ == (
            Some("killswitch"@),
            killswitch(l@.name, l@.rule_name, l@.reasons.shown()),
        ),
{
    let why = l.reasons.to_string();
    Note {
        kind: Some("killswitch"),
        text: show_killswitch(l.name.as_str(), l.rule_name.as_str(), why.as_str()),
    }
}

/// The server did not answer through the tunnel.
pub fn tunnel_failed(name: &str, rule: &str, why: &str) -> (r: Note)
    ensures
        r@ == (Some("killswitch"@), killswitch(name@, rule@, "tunnel: "@ + why@)),
{
    let mut s = "tunnel: ".to_owned();
    s.append(why);
    Note { kind: Some("killswitch"), text: show_killswitch(name, rule, s.as_str()) }
}

/// What came through the tunnel is no DNS message.
pub fn bad_answer(name: &str, rule: &str) -> (r: Note)
    ensures
        r@ == (None::<Seq<char>>, killswitch(name@, rule@, "bad answer"@)),
{
    Note { kind: None, text: show_killswitch(name, rule, "bad answer") }
}

/// The addresses are routed, but not in the table of the rule.
pub fn not_held(name: &str, rule: &str, why: &str) -> (r: Note)
    ensures
        r@ == (None::<Seq<char>>, killswitch(name@, rule@, "pf: "@ + why@)),
{
    let mut s = "pf: ".to_owned();
    s.append(why);
    Note { kind: None, text: show_killswitch(name, rule, s.as_str()) }
}

/// Why an address has no route: what the kernel said, else that the
/// resolver is stopped, else that the rule has no tunnel.
pub open spec fn no_route(why: Option<Seq<char>>, stopped: bool) -> Seq<char> {
    match why {
        Some(e) => e,
        None => if stopped {
            "stopped"@
        } else {
            "no tunnel"@
        },
    }
}

/// The first address of an answer that could not be routed, if there is
/// one.
pub fn not_routed(p: &Placing, why: Option<&str>, stopped: bool) -> (r: Option<Note>)
    ensures
        if p.at < p.ips@.len() {
            r matches Some(n) && n@ == (
                None::<Seq<char>>,
                killswitch(
                    p.lookup@.name,
                    p.lookup@.rule_name,
                    "route "@ + p.ips@[p.at as int].shown() + ": "@ + no_route(
                        match why {
                            Some(e) => Some(e@),
                            None => None,
                        },
                        stopped,
                    ),
                ),
            )
        } else {
            r is None
        },
{
    if p.at >= p.ips.len() {
        return None;
    }
    let mut s = "route ".to_owned();
    s.append(p.ips[p.at].to_string().as_str());
    s.append(": ");
    match why {
        Some(e) => s.append(e),
        None => if stopped {
            s.append("stopped");
        } else {
            s.append("no tunnel");
        },
    }
    let text = show_killswitch(p.lookup.name.as_str(), p.lookup.rule_name.as_str(), s.as_str());
    Some(Note { kind: None, text })
}

pub open spec fn addresses_shown(ips: Seq<Ipv4Addr>) -> Seq<char> {
    "["@ + crate::text::join(ips.map_values(|ip: Ipv4Addr| ip.shown()), ", "@) + "]"@
}

fn show_addresses(ips: &Vec<Ipv4Addr>) -> (r: String)
    ensures
        r@ == addresses_shown(ips@),
{
    let mut v: Vec<String> = Vec::new();
    let mut i: usize = 0;
    while i < ips.len()
        invariant
            i <= ips@.len(),
            v@.len() == i,
            forall|j: int| 0 <= j < i ==> (#[trigger] v@[j])@ == ips@[j].shown(),
        decreases ips@.len() - i,
    {
        v.push(ips[i].to_string());
        i += 1;
    }
    proof {
        assert(crate::text::seen(v@) =~= ips@.map_values(|ip: Ipv4Addr| ip.shown()));
    }
    let mut s = "[".to_owned();
    s.append(join_of(&v, ", ").as_str());
    s.append("]");
    s
}

/// An answer that is handed out, its addresses routed and held.
pub fn answered(p: &Placing) -> (r: Note)
    ensures
        r@ == (
            None::<Seq<char>>,
            "answer "@ + p.lookup@.name + " "@ + p.lookup@.rule_name + " "@
                + crate::dns::code_text(p.code) + " "@ + addresses_shown(p.ips@),
        ),
{
    let mut s = "answer ".to_owned();
    s.append(p.lookup.name.as_str());
    s.append(" ");
    s.append(p.lookup.rule_name.as_str());
    s.append(" ");
    s.append(show_code(p.code).as_str());
    s.append(" ");
    s.append(show_addresses(&p.ips).as_str());
    Note { kind: None, text: s }
}

/// The addresses from one place to another that get no route.
pub open spec fn unrouted_in(
    name: Seq<char>,
    ips: Seq<Ipv4Addr>,
    servers: Seq<Ipv4Addr>,
    from: int,
    to: int,
) -> Seq<(Option<Seq<char>>, Seq<char>)>
    decreases to - from,
{
    if from >= to {
        seq![]
    } else {
        let before = unrouted_in(name, ips, servers, from, to - 1);
        if crate::resolver::may_route(ips[to - 1], servers) {
            before
        } else {
            before.push((None, "unrouted "@ + name + " "@ + ips[to - 1].shown()))
        }
    }
}

/// The addresses of an answer passed over without a route since place
/// `from`.
pub fn unrouted(p: &Placing, from: usize) -> (r: Vec<Note>)
    requires
        p.at <= p.ips@.len(),
    ensures
        noted(r@) == unrouted_in(
            p.lookup@.name,
            p.ips@,
            p.servers@,
            from as int,
            p.at as int,
        ),
{
    let mut v: Vec<Note> = Vec::new();
    let mut i: usize = from;
    proof {
        assert(noted(v@) =~= seq![]);
    }
    while i < p.at
        invariant
            from <= i,
            i <= p.at || i == from,
            p.at <= p.ips@.len(),
            noted(v@) == unrouted_in(p.lookup@.name, p.ips@, p.servers@, from as int, i as int),
        decreases p.at - i,
    {
        if !routable(p.ips[i], &p.servers) {
            let mut s = "unrouted ".to_owned();
            s.append(p.lookup.name.as_str());
            s.append(" ");
            s.append(p.ips[i].to_string().as_str());
            let n = Note { kind: None, text: s };
            let ghost had = v@;
            v.push(n);
            proof {
                assert(noted(v@) =~= noted(had).push(n@));
            }
        }
        i += 1;
    }
    v
}

pub open spec fn outcome_shown(o: Outcome) -> Seq<char> {
    match o {
        Outcome::Added => "Added"@,
        Outcome::Existed => "Existed"@,
        Outcome::Moved => "Moved"@,
    }
}

/// A route that is in place; `fresh` when its address is new to the table
/// of the rule. A known address answered again is written by its answer
/// alone; a route that had to be put back says so.
pub fn routed(dst: Subnet, outcome: Outcome, target: Target, fresh: bool) -> (r: Option<Note>)
    ensures
        r is Some <==> fresh || outcome != Outcome::Existed,
        r matches Some(n) ==> n@ == (
            None::<Seq<char>>,
            "route "@ + dst.shown() + " "@ + outcome_shown(outcome) + " if="@
                + crate::text::decimal(target.index as nat) + " gen="@ + crate::text::decimal(
                target.generation as nat,
            ),
        ),
{
    if !fresh && outcome == Outcome::Existed {
        return None;
    }
    let mut s = "route ".to_owned();
    s.append(dst.to_string().as_str());
    s.append(" ");
    s.append(
        match outcome {
            Outcome::Added => "Added",
            Outcome::Existed => "Existed",
            Outcome::Moved => "Moved",
        },
    );
    s.append(" if=");
    s.append(show(target.index as u128).as_str());
    s.append(" gen=");
    s.append(show(target.generation as u128).as_str());
    Some(Note { kind: None, text: s })
}

/// An address that may be routed is never written as one that is not.
pub proof fn lemma_routable_is_not_unrouted(
    name: Seq<char>,
    ips: Seq<Ipv4Addr>,
    servers: Seq<Ipv4Addr>,
    from: int,
    to: int,
)
    requires
        0 <= from <= to <= ips.len(),
        forall|i: int| from <= i < to ==> crate::resolver::may_route(#[trigger] ips[i], servers),
    ensures
        unrouted_in(name, ips, servers, from, to) == Seq::<(Option<Seq<char>>, Seq<char>)>::empty(),
    decreases to - from,
{
    if from < to {
        lemma_routable_is_not_unrouted(name, ips, servers, from, to - 1);
    }
}

/// A name that is held is written with its rule and the reason; without one
/// of the kernel that is that the resolver stopped, else that there is no
/// tunnel.
pub proof fn lemma_how_a_held_name_is_written(
    name: Seq<char>,
    rule: Seq<char>,
    why: Seq<char>,
    stopped: bool,
)
    ensures
        killswitch(name, rule, why) == "killswitch "@ + name + " "@ + rule + " "@ + why,
        no_route(Some(why), stopped) == why,
        no_route(None, true) == "stopped"@,
        no_route(None, false) == "no tunnel"@,
{
}

/// The addresses that may not be routed are written, each by itself and in
/// order, and no others.
pub proof fn lemma_which_addresses_are_written(
    name: Seq<char>,
    ips: Seq<Ipv4Addr>,
    servers: Seq<Ipv4Addr>,
    from: int,
    to: int,
)
    requires
        0 <= from <= to < ips.len(),
    ensures
        unrouted_in(name, ips, servers, from, from) == Seq::<
            (Option<Seq<char>>, Seq<char>),
        >::empty(),
        unrouted_in(name, ips, servers, from, to + 1) == if crate::resolver::may_route(
            ips[to],
            servers,
        ) {
            unrouted_in(name, ips, servers, from, to)
        } else {
            unrouted_in(name, ips, servers, from, to).push(
                (None::<Seq<char>>, "unrouted "@ + name + " "@ + ips[to].shown()),
            )
        },
{
}

/// Addresses are shown in brackets, with a comma and a space between.
pub proof fn lemma_how_addresses_are_shown(ips: Seq<Ipv4Addr>)
    ensures
        addresses_shown(ips) == "["@ + crate::text::join(
            Seq::new(ips.len(), |i: int| ips[i].shown()),
            ", "@,
        ) + "]"@,
        outcome_shown(Outcome::Added) == "Added"@,
        outcome_shown(Outcome::Existed) == "Existed"@,
        outcome_shown(Outcome::Moved) == "Moved"@,
{
    assert(ips.map_values(|ip: Ipv4Addr| ip.shown()) =~= Seq::new(
        ips.len(),
        |i: int| ips[i].shown(),
    ));
}

} // verus!
