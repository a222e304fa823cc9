use mac_gate::addr::{Ipv4Addr, Subnet};
use mac_gate::config::{Rule, When};
use mac_gate::degraded::SECOND;
use mac_gate::dns::{
    self, has_fakeip, ipv4_answers, query_a, reply, Answer, Kind, NO_ERROR, NX_DOMAIN, SERV_FAIL,
    TYPE_A, TYPE_AAAA, TYPE_HTTPS,
};
use mac_gate::holding::Loaded;
use mac_gate::journal::{stamped, Journal};
use mac_gate::lines::{self, Note};
use mac_gate::lists::Lists;
use mac_gate::resolver::{
    pick, plan, refused_type, routable, Health, Iface, LinkState, Plan, PlaceStep, Reasons,
    Resolver, Step, Way, BURST, RETURN,
};
use mac_gate::route::Outcome;

use hickory_proto::op::{Message, MessageType, OpCode, Query, ResponseCode};
use hickory_proto::rr::rdata::A;
use hickory_proto::rr::{Name, RData, Record, RecordType};

const NOW: u128 = 1000 * SECOND;

fn texts(v: &[&str]) -> Vec<String> {
    v.iter().map(|s| (*s).to_owned()).collect()
}

fn lists() -> Lists {
    let mut l = Lists::new();
    l.add("custom", "example.com\n");
    l
}

#[test]
fn plans() {
    let l = lists();
    assert!(matches!(plan(&l, "www.example.com."), Plan::Listed(v) if v == ["custom"]));
    assert!(matches!(plan(&l, "other.org"), Plan::Network));
    assert!(matches!(
        plan(&l, "Use-Application-DNS.net."),
        Plan::Reply(code) if code == u16::from(ResponseCode::NXDomain)
    ));
    assert!(refused_type(u16::from(RecordType::AAAA)));
    assert!(refused_type(u16::from(RecordType::HTTPS)));
    assert!(!refused_type(u16::from(RecordType::A)));
    assert!(!refused_type(u16::from(RecordType::MX)));
}

#[test]
fn routable_addresses() {
    let server = Ipv4Addr::new(203, 0, 113, 7);
    assert!(routable(Ipv4Addr::new(149, 154, 167, 99), &vec![server]));
    assert!(!routable(server, &vec![server]));
    assert!(!routable(server, &vec![Ipv4Addr::new(1, 1, 1, 1), server]));
    assert!(routable(server, &vec![]));
    for ip in [
        "0.0.0.0",
        "10.7.0.2",
        "100.64.1.1",
        "127.0.0.1",
        "169.254.1.1",
        "172.20.10.1",
        "192.168.1.1",
        "224.0.0.251",
        "255.255.255.255",
        "198.18.0.5",
        "198.19.1.1",
    ] {
        assert!(!routable(Ipv4Addr::parse(ip).unwrap(), &vec![]), "{ip}");
    }
    assert!(routable(Ipv4Addr::new(198, 20, 0, 1), &vec![]));
}

fn link(index: u16, alive: bool, since: Option<u128>) -> LinkState {
    LinkState {
        iface: Some(Iface {
            name: format!("utun{index}"),
            index,
        }),
        generation: u32::from(index),
        health: if alive { Health::Up } else { Health::Down },
        works: false,
        since,
        endpoint: None,
    }
}

fn two(a: LinkState, b: LinkState) -> Vec<(String, LinkState)> {
    vec![("a".to_owned(), a), ("b".to_owned(), b)]
}

#[test]
fn a_rule_stays_with_what_it_picked() {
    let order = vec![1, 0];
    for a in [Health::Down, Health::Up, Health::Suspect, Health::Degraded] {
        for b in [Health::Down, Health::Up, Health::Suspect, Health::Degraded] {
            let mut both = two(link(4, true, Some(NOW)), link(5, true, Some(NOW - RETURN)));
            both[0].1.health = a;
            both[1].1.health = b;
            for current in [None, Some(0), Some(1), Some(7)] {
                let first = pick(&order, &both, current, NOW);
                assert_eq!(pick(&order, &both, first, NOW), first);
            }
        }
    }
}

#[test]
fn picks_the_first_that_carries_and_returns_after_a_while() {
    let now = NOW;
    let long = Some(now - RETURN);
    let order = vec![0, 1];
    let both = two(link(4, true, long), link(5, true, long));
    assert_eq!(pick(&order, &both, None, now), Some(0));
    assert_eq!(pick(&order, &both, Some(0), now), Some(0));
    // Back to the first once it has stood.
    assert_eq!(pick(&order, &both, Some(1), now), Some(0));
    // Not before.
    let fresh = two(link(4, true, Some(now)), link(5, true, long));
    assert_eq!(pick(&order, &fresh, Some(1), now), Some(1));
    // The first dead: the second.
    let dead = two(link(4, false, None), link(5, true, long));
    assert_eq!(pick(&order, &dead, Some(0), now), Some(1));
    // Suspect: the second, if it carries.
    let mut suspect = two(link(4, true, long), link(5, true, long));
    suspect[0].1.health = Health::Suspect;
    assert_eq!(pick(&order, &suspect, Some(0), now), Some(1));
    suspect[1].1.health = Health::Down;
    assert_eq!(pick(&order, &suspect, Some(0), now), Some(0));
    // Degraded: the same, and it keeps its names and routes meanwhile.
    let mut degraded = two(link(4, true, long), link(5, true, long));
    degraded[0].1.health = Health::Degraded;
    assert_eq!(pick(&order, &degraded, Some(0), now), Some(1));
    assert!(degraded[0].1.health.alive());
    degraded[1].1.health = Health::Down;
    assert_eq!(pick(&order, &degraded, Some(0), now), Some(0));
    // None carries: stays; nothing yet: the first with an interface.
    let none = two(link(4, false, None), link(5, false, None));
    assert_eq!(pick(&order, &none, Some(1), now), Some(1));
    assert_eq!(pick(&order, &none, None, now), Some(0));
    let mut gone = none;
    gone[0].1.iface = None;
    assert_eq!(pick(&order, &gone, None, now), Some(1));
    gone[1].1.iface = None;
    assert_eq!(pick(&order, &gone, Some(1), now), None);
    // Just after a wake: waited for, not left.
    let mut woke = two(link(4, true, long), link(5, true, long));
    woke[0].1.works = true;
    assert_eq!(pick(&order, &woke, Some(0), now), Some(0));
}

/// "always" with the list "custom" into the first two tunnels, "home"
/// anywhere but in DE with `home` into the third.
fn resolver(home: &[&str]) -> Resolver {
    let mut l = Lists::new();
    l.add("custom", "example.com\n149.154.160.0/20\n");
    l.add("outside", "example.net\nexample.com\n");
    let rules = vec![
        Rule {
            name: "always".to_owned(),
            when: When::Always,
            lists: texts(&["custom"]),
            tunnels: vec![0, 1],
        },
        Rule {
            name: "home".to_owned(),
            when: When::Out("DE".to_owned()),
            lists: texts(home),
            tunnels: vec![2],
        },
    ];
    Resolver::new(
        l,
        &rules,
        texts(&["main", "backup", "other"]),
        Ipv4Addr::new(1, 1, 1, 1),
    )
}

#[test]
fn rules_by_country_and_tunnel() {
    let mut r = resolver(&["outside"]);
    assert_eq!(r.set_country("DE"), [("always".to_owned(), true)]);
    assert_eq!(r.wanted(), [true, true, false]);
    // Listed in both, "home" not in force: the first rule.
    let pick = r.core.choose_rule(&texts(&["custom", "outside"])).unwrap();
    assert_eq!((pick.rule, pick.via), (0, None));
    assert!(pick.reasons.tunnel);
    // Only in "home", not in force: goes as if not listed.
    assert!(r.core.choose_rule(&texts(&["outside"])).is_none());
    assert_eq!(r.set_country("FR"), [("home".to_owned(), true)]);
    assert_eq!(r.wanted(), [true, true, true]);
    r.set_link(2, link(9, true, Some(NOW)));
    r.core.rules[1].current = Some(2);
    // "always" first by order, refusing; "home" carries and takes it.
    let pick = r.core.choose_rule(&texts(&["custom", "outside"])).unwrap();
    assert_eq!((pick.rule, pick.via, pick.always), (1, Some(9), false));
    r.set_owner(true);
    let pick = r.core.choose_rule(&texts(&["outside"])).unwrap();
    assert_eq!(pick.via, None);
    assert!(pick.reasons.owner);
    let status = r.status();
    assert!(
        status.starts_with(
            "rules=always=none,home=other tunnels=main=down,backup=down,other=utun9#9/alive"
        ),
        "{status}"
    );
}

#[test]
fn subnets_go_to_the_first_rule_in_force() {
    let mut r = resolver(&["outside", "custom"]);
    r.set_country("FR");
    let t = r.tables();
    let net: Subnet = Subnet {
        addr: Ipv4Addr::new(149, 154, 160, 0),
        prefix: 20,
    };
    assert_eq!(t.nets[0], [net]);
    assert!(t.nets[1].is_empty());
    let s = r.shape();
    assert_eq!(s.rules, [Some(Vec::new()), Some(Vec::new())]);
    r.set_country("DE");
    assert_eq!(r.shape().rules, [Some(Vec::new()), None]);
}

fn loaded(ip: Ipv4Addr, rule: usize, last: u64) -> Loaded {
    Loaded { ip, rule, last }
}

/// Every route goes well.
fn reconcile(r: &mut Resolver) -> Vec<String> {
    let mut lines = r.pick_tunnels(NOW);
    let plan = r.place_hosts();
    let results = plan.moves.iter().map(|_| Some(Outcome::Added)).collect();
    let (hosts, dropped) = r.settle_hosts(&plan, &results);
    let plan = r.place_subnets();
    let deleted = plan.gone.iter().map(|g| g.delete).collect();
    let results = plan.set.iter().map(|_| Some(Outcome::Added)).collect();
    let subnets = r.settle_subnets(plan, &deleted, &results);
    lines.extend(r.report(&hosts, &dropped, &subnets));
    lines
}

#[test]
fn hosts_of_rules_out_of_force_are_dropped() {
    let mut r = resolver(&["outside"]);
    r.set_country("FR");
    r.load_hosts(&vec![
        loaded(Ipv4Addr::new(93, 184, 216, 34), 0, 100),
        loaded(Ipv4Addr::new(213, 59, 254, 7), 1, 200),
        loaded(Ipv4Addr::new(1, 2, 3, 4), 7, 200),
    ]);
    assert_eq!(r.host_count(), 2);
    let snap = r.hosts_snapshot();
    assert_eq!(snap.get(Ipv4Addr::new(213, 59, 254, 7)).unwrap().rule, "home");
    r.set_country("DE");
    reconcile(&mut r);
    assert_eq!(r.host_count(), 1);
    assert_eq!(r.tables().hosts[0], [Ipv4Addr::new(93, 184, 216, 34)]);
}

fn answer(ips: &[Ipv4Addr]) -> dns::Message {
    dns::Message {
        id: 7,
        kind: Kind::Response,
        op_code: 0,
        recursion_desired: false,
        recursion_available: false,
        code: NO_ERROR,
        questions: Vec::new(),
        answers: ips.iter().map(|&ip| Answer::A(ip)).collect(),
    }
}

#[test]
fn fakeip_detection() {
    assert!(has_fakeip(&answer(&[Ipv4Addr::new(198, 18, 0, 15)])));
    assert!(has_fakeip(&answer(&[Ipv4Addr::new(198, 19, 255, 1)])));
    assert!(!has_fakeip(&answer(&[Ipv4Addr::new(198, 20, 0, 1)])));
    assert!(!has_fakeip(&answer(&[])));
    assert_eq!(
        ipv4_answers(&answer(&[
            Ipv4Addr::new(1, 2, 3, 4),
            Ipv4Addr::new(5, 6, 7, 8)
        ])),
        vec![Ipv4Addr::new(1, 2, 3, 4), Ipv4Addr::new(5, 6, 7, 8)]
    );
}

#[test]
fn bursts_are_counted() {
    let mut j = Journal::new();
    let mut events = Vec::new();
    for i in 0..5 {
        events.extend(j.burst("network-fail", &format!("network-fail {i}"), NOW));
    }
    events.extend(j.burst("killswitch", "killswitch a", NOW));
    events.extend(j.flush(NOW));
    events.extend(j.flush(NOW + BURST));
    events.extend(j.burst("network-fail", "network-fail again", NOW + BURST));
    assert_eq!(
        events,
        vec![
            "network-fail 0",
            "killswitch a",
            "network-fail repeated 4 more times within 10s",
            "network-fail again",
        ]
    );
    assert_eq!(stamped(12, "a b"), "12 a b");
}

#[test]
fn reasons_shown() {
    let none = Reasons {
        tunnel: false,
        works: false,
        owner: false,
    };
    assert_eq!(none.to_string(), "off");
    let r = Reasons {
        tunnel: true,
        works: false,
        owner: true,
    };
    assert_eq!(r.to_string(), "on tunnel,owner");
    assert!(r.any());
    assert!(!none.any());
}

#[test]
fn reply_keeps_id_and_question() {
    let req = dns::Message {
        id: 4242,
        kind: Kind::Query,
        op_code: 0,
        recursion_desired: true,
        recursion_available: false,
        code: NO_ERROR,
        questions: vec![dns::Question {
            labels: vec![b"example".to_vec(), b"com".to_vec()],
            qtype: TYPE_AAAA,
            class: 1,
        }],
        answers: Vec::new(),
    };
    let bytes = reply(&req, NO_ERROR).unwrap();
    let msg = Message::from_vec(&bytes).unwrap();
    assert_eq!(msg.metadata.id, 4242);
    assert_eq!(msg.metadata.message_type, MessageType::Response);
    assert_eq!(msg.metadata.response_code, ResponseCode::NoError);
    assert!(msg.metadata.recursion_desired);
    assert_eq!(
        msg.queries,
        vec![Query::query(
            Name::from_ascii("example.com.").unwrap(),
            RecordType::AAAA,
        )]
    );
    assert!(msg.answers.is_empty());
}

fn query(name: &str, kind: RecordType) -> Vec<u8> {
    let mut req = Message::new(4242, MessageType::Query, OpCode::Query);
    req.metadata.recursion_desired = true;
    req.add_query(Query::query(Name::from_ascii(name).unwrap(), kind));
    req.to_vec().unwrap()
}

fn wire_answer(name: &str, ips: &[[u8; 4]]) -> Vec<u8> {
    let mut m = Message::new(4242, MessageType::Response, OpCode::Query);
    for ip in ips {
        m.add_answer(Record::from_rdata(
            Name::from_ascii(name).unwrap(),
            60,
            RData::A(A::new(ip[0], ip[1], ip[2], ip[3])),
        ));
    }
    m.to_vec().unwrap()
}

/// In force in FR, with the first tunnel carrying.
fn carrying() -> Resolver {
    let mut r = resolver(&["outside"]);
    r.set_country("FR");
    r.set_link(0, link(4, true, Some(NOW)));
    r.pick_tunnels(NOW);
    r
}

#[test]
fn a_query_of_our_own() {
    let bytes = query_a(77, "fakeip.podkop.fyi.").unwrap();
    let m = Message::from_vec(&bytes).unwrap();
    assert_eq!(m.metadata.id, 77);
    assert!(m.metadata.recursion_desired);
    assert_eq!(
        m.queries,
        vec![Query::query(
            Name::from_ascii("fakeip.podkop.fyi.").unwrap(),
            RecordType::A
        )]
    );
    assert_eq!(
        query_a(1, "no..name"),
        Err(Name::from_ascii("no..name").unwrap_err().to_string())
    );
}

#[test]
fn what_a_query_comes_to() {
    let mut r = carrying();
    assert!(matches!(r.handle(&[1, 2, 3]), Step::Done(None)));
    let bytes = wire_answer("example.com.", &[]);
    assert!(matches!(r.handle(&bytes), Step::Done(None)));
    assert!(matches!(
        r.handle(&query("other.org.", RecordType::A)),
        Step::NoNetwork(Some(_))
    ));
    let canary = query("use-application-dns.net.", RecordType::A);
    match r.handle(&canary) {
        Step::Refused {
            reply, name, code, ..
        } => {
            assert_eq!(name, "use-application-dns.net");
            assert_eq!(code, NX_DOMAIN);
            let m = Message::from_vec(&reply.unwrap()).unwrap();
            assert_eq!(m.metadata.response_code, ResponseCode::NXDomain);
        }
        _ => panic!("not refused"),
    }
    match r.handle(&query("WWW.Example.COM.", RecordType::HTTPS)) {
        Step::Refused { name, qtype, code, .. } => {
            assert_eq!(name, "www.example.com");
            assert_eq!((qtype, code), (TYPE_HTTPS, NO_ERROR));
        }
        _ => panic!("not refused"),
    }
    // Only in "home", which does not carry: the kill switch.
    match r.handle(&query("example.net.", RecordType::A)) {
        Step::Killed(reply, l) => {
            assert_eq!((l.rule, l.rule_name.as_str()), (1, "home"));
            assert_eq!(l.reasons.to_string(), "on tunnel");
            let n = lines::killed(&l);
            assert_eq!(n.kind, Some("killswitch"));
            assert_eq!(n.text, "killswitch example.net home on tunnel");
            let m = Message::from_vec(&reply.unwrap()).unwrap();
            assert_eq!(m.metadata.response_code, ResponseCode::ServFail);
        }
        _ => panic!("not killed"),
    }
    r.set_owner(true);
    assert!(matches!(
        r.handle(&query("example.com.", RecordType::A)),
        Step::Killed(..)
    ));
}

fn written(v: &[Note]) -> Vec<&str> {
    v.iter().map(|n| n.text.as_str()).collect()
}

#[test]
fn what_is_written_of_a_query() {
    let n = lines::refused("example.com", TYPE_AAAA, NO_ERROR);
    assert_eq!(n.kind, Some("refuse"));
    assert_eq!(n.text, "refuse example.com AAAA No Error");
    assert_eq!(
        lines::refused("a", 65280, NX_DOMAIN).text,
        "refuse a Unknown Non-Existent Domain"
    );
    let n = lines::fakeip("a.b", "home");
    assert_eq!((n.kind, n.text.as_str()), (None, "fakeip a.b home"));
    let n = lines::no_network();
    assert_eq!(n.kind, Some("network-fail"));
    assert_eq!(n.text, "network-fail no network");
    assert_eq!(lines::network_failed("x").text, "network-fail x");
    let n = lines::tunnel_failed("a", "r", "timed out");
    assert_eq!(n.kind, Some("killswitch"));
    assert_eq!(n.text, "killswitch a r tunnel: timed out");
    let n = lines::bad_answer("a", "r");
    assert_eq!((n.kind, n.text.as_str()), (None, "killswitch a r bad answer"));
    assert_eq!(lines::not_held("a", "r", "busy").text, "killswitch a r pf: busy");
    let dst = Subnet::parse("1.2.3.4").unwrap();
    let target = mac_gate::resolver::Target {
        link: 0,
        generation: 7,
        index: 4,
    };
    assert_eq!(
        lines::routed(dst, Outcome::Moved, target, false).unwrap().text,
        "route 1.2.3.4/32 Moved if=4 gen=7"
    );
    assert_eq!(
        lines::routed(dst, Outcome::Existed, target, true).unwrap().text,
        "route 1.2.3.4/32 Existed if=4 gen=7"
    );
    assert!(lines::routed(dst, Outcome::Existed, target, false).is_none());
}

#[test]
fn the_addresses_of_an_answer_are_routed_first() {
    let mut r = carrying();
    let l = match r.handle(&query("www.example.com.", RecordType::A)) {
        Step::Tunnel(u, l) => {
            assert_eq!(u.server, Ipv4Addr::new(1, 1, 1, 1));
            assert_eq!(u.bound_if, Some(4));
            l
        }
        _ => panic!("not into the tunnel"),
    };
    let bytes = wire_answer(
        "www.example.com.",
        &[[10, 0, 0, 1], [93, 184, 216, 34], [93, 184, 216, 35]],
    );
    let (p, step) = r.tunnel_said(l, Some(bytes.clone()), 100);
    let mut p = p.unwrap();
    assert_eq!(p.code, NO_ERROR);
    assert_eq!(
        written(&lines::unrouted(&p, 0)),
        ["unrouted www.example.com 10.0.0.1"]
    );
    assert!(lines::unrouted(&p, 1).is_empty());
    let PlaceStep::Route(dst, target, way) = step else {
        panic!("no route");
    };
    assert_eq!(way, Way::Move);
    assert_eq!(dst, Subnet::host(Ipv4Addr::new(93, 184, 216, 34)));
    assert_eq!((target.link, target.index), (0, 4));
    let PlaceStep::Route(dst, target, _) = r.placed(&mut p, target, true, 100) else {
        panic!("no route");
    };
    assert_eq!(dst, Subnet::host(Ipv4Addr::new(93, 184, 216, 35)));
    assert!(matches!(r.placed(&mut p, target, true, 100), PlaceStep::Hold));
    assert_eq!(
        p.new,
        [
            Ipv4Addr::new(93, 184, 216, 34),
            Ipv4Addr::new(93, 184, 216, 35)
        ]
    );
    assert!(lines::not_routed(&p, None, false).is_none());
    assert_eq!(
        lines::answered(&p).text,
        "answer www.example.com always No Error [10.0.0.1, 93.184.216.34, 93.184.216.35]"
    );
    assert_eq!(r.held_in_table(p, true), Some(bytes));
    assert!(r.covers(Ipv4Addr::new(93, 184, 216, 34)));
    assert!(!r.covers(Ipv4Addr::new(10, 0, 0, 1)));
    // Answered again: the route is ours, and is left as it is.
    let Step::Tunnel(_, l) = r.handle(&query("www.example.com.", RecordType::A)) else {
        panic!("not into the tunnel");
    };
    let bytes = wire_answer("www.example.com.", &[[93, 184, 216, 34]]);
    let (p, step) = r.tunnel_said(l, Some(bytes), 101);
    let mut p = p.unwrap();
    let PlaceStep::Route(_, target, Way::Keep) = step else {
        panic!("not ours");
    };
    assert!(matches!(r.placed(&mut p, target, true, 101), PlaceStep::Hold));
    assert!(p.new.is_empty());
    assert!(r.held(Ipv4Addr::new(149, 154, 160, 1)));
}

#[test]
fn an_address_that_is_not_routed_is_not_handed_out() {
    let mut r = carrying();
    let Step::Tunnel(_, l) = r.handle(&query("example.com.", RecordType::A)) else {
        panic!("not into the tunnel");
    };
    let bytes = wire_answer("example.com.", &[[93, 184, 216, 34]]);
    let (p, step) = r.tunnel_said(l, Some(bytes), 100);
    let mut p = p.unwrap();
    let PlaceStep::Route(_, target, _) = step else {
        panic!("no route");
    };
    let PlaceStep::Done(b) = r.placed(&mut p, target, false, 100) else {
        panic!("handed out");
    };
    assert_eq!(
        lines::not_routed(&p, Some("denied"), false).unwrap().text,
        "killswitch example.com always route 93.184.216.34: denied"
    );
    assert!(lines::not_routed(&p, None, true).unwrap().text.ends_with(": stopped"));
    assert!(lines::not_routed(&p, None, false).unwrap().text.ends_with(": no tunnel"));
    let m = Message::from_vec(&b.unwrap()).unwrap();
    assert_eq!(u16::from(m.metadata.response_code), SERV_FAIL);
    assert_eq!(r.host_count(), 0);
}

#[test]
fn the_router_takes_what_it_fakes() {
    let mut r = carrying();
    r.set_use_fakeip(true);
    r.set_upstream(Some(mac_gate::upstream::Upstream {
        server: Ipv4Addr::new(192, 168, 1, 1),
        port: 53,
        bound_if: None,
    }));
    let Step::Router(u, l) = r.handle(&query("example.net.", RecordType::A)) else {
        panic!("not to the router");
    };
    assert_eq!(u.server, Ipv4Addr::new(192, 168, 1, 1));
    let fake = wire_answer("example.net.", &[[198, 18, 0, 9]]);
    assert!(
        matches!(r.router_said(l, Some(fake.clone())), Step::Done(Some(b)) if b == fake)
    );
    let Step::Router(_, l) = r.handle(&query("example.net.", RecordType::A)) else {
        panic!("not to the router");
    };
    let real = wire_answer("example.net.", &[[93, 184, 216, 34]]);
    assert!(matches!(r.router_said(l, Some(real)), Step::Killed(..)));
    let Step::Forward(_, req) = r.handle(&query("other.org.", RecordType::A)) else {
        panic!("not forwarded");
    };
    assert_eq!(req.questions[0].qtype, TYPE_A);
    assert_eq!(Resolver::forwarded(&req, Some(vec![1, 2])), Some(vec![1, 2]));
    assert!(Resolver::forwarded(&req, None).is_some());
}

#[test]
fn routes_follow_the_rules() {
    let mut r = resolver(&["outside"]);
    r.set_country("DE");
    r.set_link(0, link(4, true, Some(NOW)));
    r.load_hosts(&vec![loaded(Ipv4Addr::new(93, 184, 216, 34), 0, 100)]);
    let lines = reconcile(&mut r);
    assert_eq!(
        lines,
        [
            "rule always tunnel none -> main",
            "routes always hosts added=1 moved=0 removed=0 failed=0 dropped=0 subnets added=1 moved=0 removed=0 failed=0",
        ]
    );
    // Nothing changed: nothing is placed again.
    assert!(reconcile(&mut r).is_empty());
    assert!(r.all_routed());
    assert_eq!(r.fetch_iface().as_deref(), Some("utun4"));
    // A tunnel server is left out of the routes, with the subnet it is in.
    let mut l = link(4, true, Some(NOW));
    l.endpoint = Some(Ipv4Addr::new(149, 154, 160, 9));
    r.set_link(0, l);
    let plan = r.place_subnets();
    assert_eq!(plan.gone.len(), 1);
    assert!(plan.gone[0].delete);
    assert_eq!(plan.fresh, [Subnet::parse("149.154.160.0/20").unwrap()]);
}

#[test]
fn everything_is_taken_back() {
    let mut r = carrying();
    r.load_hosts(&vec![
        loaded(Ipv4Addr::new(93, 184, 216, 34), 0, 100),
        loaded(Ipv4Addr::new(93, 184, 216, 35), 1, 100),
    ]);
    reconcile(&mut r);
    assert_eq!(
        r.remove_all(),
        [
            Subnet::host(Ipv4Addr::new(93, 184, 216, 34)),
            Subnet::parse("149.154.160.0/20").unwrap(),
        ]
    );
    assert_eq!(r.host_count(), 2);
    assert!(r.remove_all().is_empty());
    // Nothing is routed or handed out after a stop.
    let Step::Tunnel(_, l) = r.handle(&query("example.com.", RecordType::A)) else {
        panic!("not into the tunnel");
    };
    let bytes = wire_answer("example.com.", &[[93, 184, 216, 34]]);
    let (_, step) = r.tunnel_said(l, Some(bytes), 100);
    let PlaceStep::Done(Some(b)) = step else {
        panic!("routed");
    };
    let m = Message::from_vec(&b).unwrap();
    assert_eq!(m.metadata.response_code, ResponseCode::ServFail);
}

#[test]
fn hosts_live_out_their_window() {
    let mut r = carrying();
    let old = Ipv4Addr::new(93, 184, 216, 34);
    r.load_hosts(&vec![
        loaded(old, 0, 100),
        loaded(Ipv4Addr::new(93, 184, 216, 35), 1, 200),
    ]);
    assert!(r.expire(160, 60).is_empty());
    assert!(!r.take_dirty());
    let gone = r.expire(161, 60);
    assert_eq!(gone.len(), 1);
    assert_eq!((gone[0].ip, gone[0].rule, gone[0].routed), (old, 0, false));
    assert_eq!(Resolver::expired_hosts(&gone, 0), [old]);
    assert!(Resolver::expired_hosts(&gone, 1).is_empty());
    assert!(r.take_dirty());
    assert_eq!(r.host_count(), 1);
}

#[test]
fn pf_is_loaded_when_what_it_depends_on_changes() {
    let mut r = carrying();
    let (shape, tables) = r.sync_pf().unwrap();
    assert_eq!(shape.rules, [Some(texts(&["utun4"])), Some(Vec::new())]);
    assert_eq!(tables.nets[0].len(), 1);
    r.pf_loaded(shape, true);
    assert!(r.sync_pf().is_none());
    r.mark_stale();
    let (shape, _) = r.sync_pf().unwrap();
    r.pf_loaded(shape, false);
    assert!(r.sync_pf().is_some());
    r.set_owner(true);
    let (shape, _) = r.sync_pf().unwrap();
    r.pf_loaded(shape, true);
    r.set_use_fakeip(true);
    assert!(r.sync_pf().unwrap().0.use_fakeip);
}
