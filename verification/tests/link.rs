use mac_gate::addr::Ipv4Addr;
use mac_gate::degraded::{GRACE, MINUTE, SECOND, YOUNG};
use mac_gate::link::{
    direct_targets, Act, Ctl, Link, Next, Out, Pinged, Then, Tried, Why, CUT_WINDOW, FAST, FRESH,
    FRESH_TLS, PING, SLOW, TLS, WAKE_PING,
};
use mac_gate::links::{Health, Iface};
use mac_gate::lists::Lists;
use mac_gate::net::Network;
use mac_gate::probe::{targets, Counters};
use mac_gate::resolver::Resolver;

const NOW: u128 = 1000 * SECOND;
const WANTED: Ctl = Ctl {
    wanted: true,
    wakes: 0,
    stop: false,
};

fn server() -> Ipv4Addr {
    Ipv4Addr::new(203, 0, 113, 7)
}

fn network() -> Option<Network> {
    Some(Network {
        iface: "en0".to_owned(),
        index: 14,
        addr: Ipv4Addr::new(192, 168, 1, 7),
        gateway: Ipv4Addr::new(192, 168, 1, 1),
        dns: Ipv4Addr::new(192, 168, 1, 1),
    })
}

fn fresh() -> Link {
    Link::new(
        "t".to_owned(),
        "203.0.113.7".to_owned(),
        Some(server()),
        network(),
        0,
        GRACE,
        NOW,
    )
}

fn iface(index: u16) -> Iface {
    Iface {
        name: format!("utun{index}"),
        index,
    }
}

fn lines(o: &Out) -> Vec<String> {
    o.acts
        .iter()
        .filter_map(|a| match a {
            Act::Log(s) => Some(s.clone()),
            Act::Tell(_) => None,
        })
        .collect()
}

fn told(o: &Out) -> Vec<Health> {
    o.acts
        .iter()
        .filter_map(|a| match a {
            Act::Log(_) => None,
            Act::Tell(s) => Some(s.health),
        })
        .collect()
}

/// A link whose tunnel was confirmed.
fn up() -> Link {
    let mut l = fresh();
    l.step(WANTED, network(), false, NOW);
    l.connect(1, NOW);
    l.raised(Ok((iface(4), Some(5555))), server(), NOW, NOW);
    let o = l.confirmed(Tried::Yes, network(), NOW, NOW);
    assert_eq!(o.after, Then::Rest);
    l
}

#[test]
fn a_connect_from_the_start() {
    let mut l = fresh();
    let o = l.step(WANTED, network(), false, NOW);
    assert_eq!(o.after, Then::Number);
    let o = l.connect(1, NOW);
    assert_eq!(lines(&o), ["t: connect attempt=1"]);
    // The server is let out before the first packet to it.
    assert!(matches!(&o.acts[1], Act::Tell(s) if s.endpoint == Some(server())));
    assert_eq!(
        o.after,
        Then::Raise {
            endpoint: server(),
            start: NOW
        }
    );
    let o = l.raised(Ok((iface(4), Some(5555))), server(), NOW, NOW + SECOND);
    assert_eq!(
        lines(&o),
        ["t: up utun4#4 endpoint=203.0.113.7 port=5555 in 1000ms"]
    );
    assert_eq!(o.after, Then::Confirm { start: NOW + SECOND });
    let o = l.confirmed(Tried::Yes, network(), NOW + SECOND, NOW + 2 * SECOND);
    assert_eq!(
        lines(&o),
        ["t: confirm 1000ms", "t: recovered start in 2000ms"]
    );
    assert_eq!(told(&o), [Health::Up]);
    assert_eq!(o.after, Then::Rest);
    // Nothing is due until the next check.
    let o = l.step(WANTED, network(), false, NOW + 3 * SECOND);
    assert_eq!(o.after, Then::ReadCounters);
    let o = l.counted(None, NOW + 3 * SECOND);
    assert!(o.acts.is_empty());
    assert_eq!(o.after, Then::Rest);
}

#[test]
fn a_named_server_is_resolved() {
    let mut l = Link::new("t".to_owned(), "h".to_owned(), None, network(), 0, GRACE, NOW);
    assert_eq!(l.connect(1, NOW).after, Then::Resolve { start: NOW });
    let o = l.resolved(Err("no answer".to_owned()), NOW, NOW);
    assert_eq!(lines(&o), ["t: connect-fail endpoint: no answer"]);
    assert_eq!(o.after, Then::Rest);
    assert!(matches!(
        l.resolved(Ok(server()), NOW, NOW).after,
        Then::Raise { .. }
    ));
    let mut l = Link::new("t".to_owned(), "h".to_owned(), None, None, 0, GRACE, NOW);
    assert_eq!(
        lines(&l.connect(1, NOW)),
        ["t: connect attempt=1", "t: connect-fail endpoint: no network"]
    );
}

#[test]
fn pauses_after_the_fast_tries() {
    let mut l = fresh();
    let mut seen = Vec::new();
    for i in 0..8u32 {
        let o = l.raised(Err("x".to_owned()), server(), NOW, NOW);
        assert_eq!(lines(&o)[0], "t: connect-fail x");
        if i >= 4 {
            seen.push(lines(&o)[1].clone());
        } else {
            assert_eq!(l.run.connect_at, Some(NOW));
        }
    }
    assert_eq!(
        seen,
        ["t: pause 30s", "t: pause 60s", "t: pause 120s", "t: pause 120s"]
    );
    assert_eq!(l.run.connect_at, Some(NOW + 2 * MINUTE));
    assert_eq!(l.step(WANTED, network(), false, NOW).after, Then::Rest);
    // A wake does not sit the pause out.
    let woken = Ctl { wakes: 1, ..WANTED };
    assert_eq!(l.step(woken, network(), false, NOW).after, Then::Number);
    assert_eq!(l.run.failures, 0);
}

#[test]
fn the_new_tunnel_takes_over_before_the_old_goes() {
    let mut l = up();
    let o = l.raised(Ok((iface(5), None)), server(), NOW, NOW);
    assert!(lines(&o)[0].contains("port=? in"));
    assert!(matches!(
        &o.acts[1],
        Act::Tell(s) if s.iface.as_ref().is_some_and(|i| i.index == 5)
    ));
    assert_eq!(o.after, Then::Retire);
    let o = l.retired(NOW);
    assert_eq!(lines(&o), ["t: down utun4#4"]);
    assert_eq!(o.after, Then::Confirm { start: NOW });
    assert_eq!(l.confirmed(Tried::No, network(), NOW, NOW).after, Then::LookAt);
    let o = l.looked(
        Some(3),
        Some(Counters {
            rx_packets: 0,
            rx_bytes: 1,
            tx_packets: 0,
            tx_bytes: 2,
        }),
        NOW,
    );
    assert_eq!(lines(&o), ["t: confirm-fail handshake=3s rx=1 tx=2"]);
    let o = l.looked(None, None, NOW);
    assert_eq!(lines(&o)[0], "t: confirm-fail handshake=none ?");
}

#[test]
fn a_confirm_cut_short_by_a_new_network() {
    let mut l = up();
    let o = l.confirmed(Tried::Moved, None, NOW, NOW);
    assert_eq!(lines(&o), ["t: confirm aborted: network changed"]);
    assert_eq!(l.run.connect_at, Some(NOW));
    assert!(l.network.is_none());
}

#[test]
fn a_cut_is_suspected_by_the_counters() {
    let mut l = up();
    let count = |rx: u64, tx: u64| {
        Some(Counters {
            rx_packets: rx,
            rx_bytes: 0,
            tx_packets: tx,
            tx_bytes: 0,
        })
    };
    let t = NOW + SECOND;
    assert_eq!(l.counted(count(5, 10), t).after, Then::Rest);
    assert_eq!(l.counted(count(5, 12), t + 3 * SECOND).after, Then::Rest);
    let o = l.counted(count(5, 13), t + CUT_WINDOW);
    assert_eq!(lines(&o), ["t: cut suspected: sent without reply for 4s"]);
    let Then::Ping(c) = o.after else {
        panic!("no ping");
    };
    assert_eq!((c.next, c.ping_limit()), (Next::Cut, PING));
    // The ping refutes it: not suspected again before the next check.
    let now = t + 5 * SECOND;
    let o = l.pinged(c, Pinged::Replied(7_000_000), network(), now);
    assert_eq!(lines(&o), ["t: check ping 7ms"]);
    assert_eq!(
        l.step(WANTED, network(), false, now).after,
        Then::Rest
    );
    // Without a reply the tunnel is left for a new one at once.
    let mut l = up();
    l.counted(count(5, 10), t);
    let Then::Ping(c) = l.counted(count(5, 13), t + CUT_WINDOW).after else {
        panic!("no ping");
    };
    let o = l.pinged(c, Pinged::Silent, network(), now);
    assert_eq!(lines(&o), ["t: check cut: sent without reply, ping failed"]);
    assert_eq!(told(&o), [Health::Down]);
    assert_eq!(o.after, Then::DirectPing(c));
    let o = l.direct_pinged(c, Pinged::Replied(1), network(), now);
    assert_eq!(lines(&o), ["t: lost cut"]);
    assert_eq!(l.step(WANTED, network(), false, now).after, Then::Number);
    // Replies coming back refute it by themselves.
    let mut l = up();
    l.counted(count(5, 10), NOW);
    assert_eq!(l.counted(count(6, 20), NOW + CUT_WINDOW).after, Then::Rest);
}

#[test]
fn a_check_of_a_tunnel_that_stopped_carrying() {
    let mut l = up();
    let t = NOW + FAST;
    let Then::Ping(c) = l.counted(None, t).after else {
        panic!("no ping");
    };
    assert_eq!((c.next, c.fresh), (Next::Usual, true));
    assert_eq!(c.tls_limit(), Some(FRESH_TLS));
    l.pinged(c, Pinged::Replied(1), network(), t);
    let t = t + FAST;
    let Then::Ping(c) = l.counted(None, t).after else {
        panic!("no ping");
    };
    let o = l.pinged(c, Pinged::Silent, network(), t);
    assert_eq!(lines(&o), ["t: suspect: ping failed, tls next"]);
    assert_eq!(told(&o), [Health::Suspect]);
    assert_eq!(o.after, Then::Tls(c));
    let o = l.tls_tried(c, Tried::Yes, network(), t + SECOND);
    assert_eq!(lines(&o), ["t: check tls 1000ms, ping failed"]);
    assert_eq!(told(&o), [Health::Up]);
    let o = l.tls_tried(c, Tried::No, network(), t + SECOND);
    assert_eq!(lines(&o), ["t: check fail: ping and tls"]);
    assert_eq!(o.after, Then::DirectPing(c));
    assert_eq!(
        l.direct_pinged(c, Pinged::Silent, network(), t).after,
        Then::DirectTls(c)
    );
    let o = l.direct_tried(c, Tried::No, network(), t);
    assert_eq!(
        lines(&o),
        ["t: offline: nothing past the tunnel either; tunnel kept"]
    );
    assert!(l.run.connect_at.is_none());
    assert!(lines(&l.direct_tried(c, Tried::No, network(), t)).is_empty());
    let o = l.pinged(c, Pinged::Replied(1), network(), t);
    assert_eq!(lines(&o), ["t: check ping 0ms", "t: online"]);
    let o = l.direct_tried(c, Tried::Yes, network(), t);
    assert_eq!(lines(&o), ["t: lost dead"]);
}

fn bytes(rx: u64) -> Option<Counters> {
    Some(Counters {
        rx_packets: rx,
        rx_bytes: rx,
        tx_packets: 1,
        tx_bytes: 1,
    })
}

/// Has a check find nothing at `t`; `rx` bytes have come by then, and as
/// many again while it runs.
fn fails(l: &mut Link, rx: u64, t: u128) -> Out {
    l.step(WANTED, network(), false, t);
    let Then::Ping(c) = l.counted(bytes(rx), t).after else {
        panic!("no ping");
    };
    assert_eq!(l.pinged(c, Pinged::Silent, network(), t).after, Then::Tls(c));
    let o = l.tls_tried(c, Tried::No, network(), t);
    assert_eq!(lines(&o), ["t: check fail: ping and tls"]);
    assert_eq!(o.after, Then::Weigh(c));
    l.weighed(c, Some(10), bytes(rx + 1), t)
}

#[test]
fn a_degraded_tunnel_is_left_alone_until_the_patience_runs_out() {
    let mut l = up();
    let mut t = NOW + MINUTE;
    let start = t;
    let o = fails(&mut l, 100, t);
    assert_eq!(
        lines(&o),
        ["t: degraded: no probe gets through, the peer answers; tunnel kept"]
    );
    assert_eq!(told(&o), [Health::Degraded]);
    assert_eq!(o.after, Then::Rest);
    let mut rx = 200;
    loop {
        t = l.run.check_at;
        assert_eq!(l.run.cut_quiet_until, t);
        let o = fails(&mut l, rx, t);
        rx += 100;
        if t - start < GRACE {
            assert!(o.acts.is_empty());
            assert!(l.run.connect_at.is_none());
            continue;
        }
        assert_eq!(lines(&o), ["t: lost degraded"]);
        assert_eq!(told(&o), [Health::Down]);
        break;
    }
    // One reconnect, and it does not help: no other follows.
    assert_eq!(l.step(WANTED, network(), false, t).after, Then::Number);
    l.connect(2, t);
    assert_eq!(
        l.raised(Ok((iface(5), None)), server(), t, t).after,
        Then::Retire
    );
    l.retired(t);
    assert_eq!(l.confirmed(Tried::No, network(), t, t).after, Then::LookAt);
    let o = l.looked(Some(0), bytes(1), t);
    assert_eq!(
        lines(&o),
        [
            "t: confirm-fail handshake=0s rx=1 tx=1",
            "t: degraded: the reconnect did not help; tunnel kept"
        ]
    );
    assert!(l.run.connect_at.is_none());
    assert_eq!(l.run.check_at, t + YOUNG);
    assert_eq!(l.run.degradation.patience(), 2 * GRACE);
    assert_eq!(l.run.failures, 0);
    // Out of the young window it speaks for itself again.
    let t = t + YOUNG;
    let o = fails(&mut l, 50, t);
    assert_eq!(told(&o), [Health::Degraded]);
    // It answers: the patience is whole once more.
    let t = l.run.check_at;
    let Then::Ping(c) = l.counted(bytes(90), t).after else {
        panic!("no ping");
    };
    let o = l.pinged(c, Pinged::Replied(1), network(), t);
    assert_eq!(told(&o), [Health::Up]);
    assert_eq!(l.run.degradation.patience(), GRACE);
    assert_eq!(l.run.confirmed, Some(t));
}

#[test]
fn a_tunnel_that_says_nothing_is_repaired_at_once() {
    for (handshake, after) in [
        (None, bytes(101)),
        (Some(181), bytes(101)),
        (Some(10), bytes(100)),
        (Some(10), None),
    ] {
        let mut l = up();
        let t = NOW + MINUTE;
        let Then::Ping(c) = l.counted(bytes(100), t).after else {
            panic!("no ping");
        };
        l.pinged(c, Pinged::Silent, network(), t);
        assert_eq!(l.tls_tried(c, Tried::No, network(), t).after, Then::Weigh(c));
        let o = l.weighed(c, handshake, after, t);
        assert_eq!(told(&o), [Health::Down]);
        assert_eq!(o.after, Then::DirectPing(c));
        let o = l.direct_pinged(c, Pinged::Replied(1), network(), t);
        assert_eq!(lines(&o), ["t: lost dead"]);
    }
    // A woken tunnel is young again: nothing is asked of it.
    let mut l = up();
    let woken = Ctl { wakes: 1, ..WANTED };
    let t = NOW + 10 * MINUTE;
    let Then::Ping(c) = l.step(woken, network(), false, t).after else {
        panic!("no ping");
    };
    let o = l.pinged(c, Pinged::Silent, network(), t);
    assert_eq!(o.after, Then::DirectPing(c));
}

#[test]
fn patience_without_end_is_not_run_out_of() {
    let mut l = up();
    l.run.degradation = mac_gate::degraded::Degradation::new(0);
    let mut t = NOW + MINUTE;
    for i in 1..200 {
        let o = fails(&mut l, i * 10, t);
        assert_eq!(o.after, Then::Rest);
        assert_eq!(l.run.health, Health::Degraded);
        t = l.run.check_at;
    }
}

#[test]
fn a_wake_is_checked_with_a_short_ping() {
    let mut l = up();
    let woken = Ctl { wakes: 1, ..WANTED };
    let o = l.step(woken, network(), false, NOW + MINUTE);
    let Then::Ping(c) = o.after else {
        panic!("no ping");
    };
    assert_eq!((c.ping_limit(), c.tls_limit()), (WAKE_PING, None));
    assert_eq!(l.run.works, Some(NOW + MINUTE));
    let o = l.pinged(c, Pinged::Moved, None, NOW + MINUTE);
    assert_eq!(lines(&o), ["t: check aborted: network changed"]);
    assert_eq!(l.run.next, Next::Woke);
    let o = l.pinged(c, Pinged::Silent, network(), NOW + MINUTE);
    assert_eq!(lines(&o)[0], "t: check fail: ping after wake");
    assert!(l.run.works.is_none());
}

#[test]
fn a_tunnel_that_stood_starts_the_count_over() {
    let mut l = up();
    l.run.failures = 3;
    let t = NOW + FRESH;
    let Then::Ping(c) = l.counted(None, t).after else {
        panic!("no ping");
    };
    assert!(!c.fresh);
    assert_eq!(c.tls_limit(), Some(TLS));
    assert_eq!(l.run.check_at, t + SLOW);
    let o = l.pinged(c, Pinged::Replied(1), network(), t);
    assert_eq!(lines(&o), ["t: check ping 0ms", "t: stable"]);
    assert_eq!(l.run.failures, 0);
}

#[test]
fn a_tunnel_no_rule_takes_goes_down() {
    let mut l = up();
    let idle = Ctl {
        wanted: false,
        ..WANTED
    };
    let o = l.step(idle, network(), false, NOW);
    assert_eq!(o.after, Then::TakeDown(Why::NoRule));
    let o = l.went_down(Why::NoRule, NOW);
    assert_eq!(lines(&o), ["t: down utun4#4: no rule in force takes it"]);
    assert_eq!(o.after, Then::Rest);
    assert!(l.tunnel.is_none());
    assert_eq!(l.step(idle, network(), false, NOW).after, Then::Rest);
    let stop = Ctl {
        stop: true,
        ..WANTED
    };
    assert_eq!(l.step(stop, network(), false, NOW).after, Then::Done);
    let mut l = up();
    let o = l.step(stop, network(), false, NOW);
    assert_eq!(o.after, Then::TakeDown(Why::Stop));
    let o = l.went_down(Why::Stop, NOW);
    assert_eq!(lines(&o), ["t: down utun4#4: stop"]);
    assert_eq!(o.after, Then::Done);
}

#[test]
fn a_process_that_exited_is_replaced() {
    let mut l = up();
    assert_eq!(l.step(WANTED, network(), true, NOW).after, Then::DropDead);
    let o = l.dropped(NOW);
    assert_eq!(lines(&o), ["t: lost process exited"]);
    assert_eq!(told(&o), [Health::Down]);
    assert_eq!(o.after, Then::Number);
}

#[test]
fn a_ping_past_the_tunnel_goes_to_free_targets() {
    let mut lists = Lists::new();
    lists.add("a", "1.1.1.1\n");
    let rules = vec![mac_gate::config::Rule {
        name: "r".to_owned(),
        when: mac_gate::config::When::Always,
        lists: vec!["a".to_owned()],
        tunnels: vec![0],
    }];
    let mut r = Resolver::new(lists, &rules, vec!["t".to_owned()], server());
    assert_eq!(direct_targets(&r), targets());
    r.set_country("DE");
    r.set_link(
        0,
        mac_gate::links::LinkState {
            iface: Some(iface(4)),
            generation: 1,
            health: Health::Up,
            works: false,
            since: Some(NOW),
            endpoint: None,
        },
    );
    r.pick_tunnels(NOW);
    let plan = r.place_subnets();
    let deleted = plan.gone.iter().map(|g| g.delete).collect();
    let results = plan
        .set
        .iter()
        .map(|_| Some(mac_gate::route::Outcome::Added))
        .collect();
    r.settle_subnets(plan, &deleted, &results);
    assert_eq!(
        direct_targets(&r),
        [Ipv4Addr::new(8, 8, 8, 8), Ipv4Addr::new(9, 9, 9, 9)]
    );
}
