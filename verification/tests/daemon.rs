use std::collections::BTreeMap;

use mac_gate::addr::Ipv4Addr;
use mac_gate::config::{parse, RawList, RawRule, RawSettings, RawTunnel, Settings};
use mac_gate::daemon::{
    country_code, hosts_to_restore, load_confs, log_start, open, owner_country, owner_killswitch,
    request_update, rule_of, Config, Country, Flag,
};
use mac_gate::degraded::{MINUTE, SECOND};
use mac_gate::geo::Asked;
use mac_gate::link::Ctl;
use mac_gate::lists::Lists;
use mac_gate::net::Network;
use mac_gate::paths::dir_of;
use mac_gate::resolving::{self, resolve};
use mac_gate::socket::SocketAddr;
use mac_gate::state;
use mac_gate::tunnel::Conf;
use mac_gate::watch::{
    stop_line, tell_link, track_network, Said, Strays, Watch, COUNTRY_RETRY, NET_POLL, STRAYS_WAIT,
};

const NOW: u128 = 1000 * SECOND;

fn text(s: &str) -> String {
    s.to_owned()
}

#[test]
fn owner_flags_next_to_the_state() {
    let state = "/d/routes";
    assert!(matches!(owner_killswitch(state, true), Flag::Raise(p) if p == "/d/killswitch"));
    assert!(matches!(owner_killswitch(state, false), Flag::Lower(p) if p == "/d/killswitch"));
    let Flag::Write(path, text) = owner_country(state, Some("DE")) else {
        panic!("not written");
    };
    assert_eq!(path, "/d/country");
    let c = Country::load(Some(&text), None);
    assert_eq!(c.now(), ("DE", "owner"));
    assert!(matches!(owner_country(state, None), Flag::Lower(p) if p == "/d/country"));
    assert!(matches!(request_update(state), Flag::Raise(p) if p == "/d/update"));
    let c = Country::load(None, Some("NL 100\n"));
    assert_eq!(c.now(), ("NL", "services"));
    let now = 1_700_000_000;
    assert!(c.stale(now));
    assert!(!Country::load(None, Some(&format!("NL {now}\n"))).stale(now));
    assert_eq!(Country::load(None, None).now(), ("RU", "default"));
    assert_eq!(dir_of("routes"), ".");
}

/// Does a flag to files by their path.
fn set(files: &mut BTreeMap<String, String>, flag: Flag) {
    match flag {
        Flag::Raise(p) => {
            files.entry(p).or_default();
        }
        Flag::Write(p, text) => {
            files.insert(p, text);
        }
        Flag::Lower(p) => {
            files.remove(&p);
        }
    }
}

#[test]
fn owner_flags_set_twice() {
    let state = "/d/routes";
    let mut files = BTreeMap::new();
    files.insert(text(state), text("1.2.3.4 always 7\n"));
    let before = files.clone();
    for _ in 0..2 {
        set(&mut files, owner_killswitch(state, true));
        assert_eq!(files.len(), 2);
        assert_eq!(files["/d/killswitch"], "");
    }
    for _ in 0..2 {
        set(&mut files, owner_country(state, Some("DE")));
        assert_eq!(files.len(), 3);
        assert_eq!(files["/d/country"], "DE\n");
    }
    for _ in 0..2 {
        set(&mut files, owner_killswitch(state, false));
        assert!(!files.contains_key("/d/killswitch"));
        set(&mut files, owner_country(state, None));
        assert_eq!(files, before);
    }
}

#[test]
fn country_codes() {
    assert_eq!(country_code("DE\n").as_deref(), Some("DE"));
    assert_eq!(country_code("de"), None);
    assert_eq!(country_code("DEU"), None);
}

fn settings() -> Settings {
    let list = |name: &str, file: &str| RawList {
        name: text(name),
        sources: vec![text(file)],
    };
    let rule = |name: &str, when: &str, lists: &[&str]| RawRule {
        name: text(name),
        when: text(when),
        lists: lists.iter().map(|l| text(l)).collect(),
        tunnels: vec![text("t")],
    };
    parse(RawSettings {
        watch: None,
        lists: vec![list("custom", "c.lst"), list("telegram", "t.lst")],
        tunnels: vec![RawTunnel {
            name: text("t"),
            conf: text("t.conf"),
        }],
        rules: vec![
            rule("always", "always", &["custom"]),
            rule("bypass", "RU", &["custom", "telegram"]),
        ],
    })
    .unwrap()
}

#[test]
fn saved_addresses_find_their_rule() {
    let s = settings();
    assert_eq!(rule_of(&s, "bypass"), Some(1));
    assert_eq!(rule_of(&s, "custom"), Some(0));
    assert_eq!(rule_of(&s, "telegram"), Some(1));
    assert_eq!(rule_of(&s, "pf"), None);
}

const CONF: &str =
    "[Interface]\nAddress = 10.0.0.2\nDNS = 1.1.1.1\n[Peer]\nEndpoint = 203.0.113.7:9\n";

#[test]
fn two_tunnels_with_one_address_are_refused() {
    let s = parse(RawSettings {
        watch: None,
        lists: vec![RawList {
            name: text("a"),
            sources: vec![text("a.lst")],
        }],
        tunnels: vec![
            RawTunnel {
                name: text("t"),
                conf: text("t.conf"),
            },
            RawTunnel {
                name: text("u"),
                conf: text("u.conf"),
            },
        ],
        rules: vec![RawRule {
            name: text("r"),
            when: text("always"),
            lists: vec![text("a")],
            tunnels: vec![text("t"), text("u")],
        }],
    })
    .unwrap();
    let fault = |got: Vec<Result<String, String>>| match load_confs(&s, "/d", &got) {
        Ok(_) => panic!("accepted"),
        Err(e) => e,
    };
    assert_eq!(
        fault(vec![Ok(text(CONF)), Ok(text(CONF))]),
        "tunnel u: address 10.0.0.2 as in tunnel t"
    );
    assert_eq!(
        fault(vec![Err(text("gone")), Ok(text(CONF))]),
        "/d/t.conf: gone"
    );
    assert_eq!(
        fault(vec![Ok(text(CONF)), Ok(text("x"))]),
        "/d/u.conf: not a key = value line: x"
    );
    let other = CONF.replace("10.0.0.2", "10.0.0.3");
    assert_eq!(
        load_confs(&s, "/d", &vec![Ok(text(CONF)), Ok(other)]).map(|v| v.len()),
        Ok(2)
    );
}

#[test]
fn hosts_that_pf_holds_are_restored() {
    let s = settings();
    let saved = state::parse("1.2.3.4 100 telegram\n5.6.7.8 200 gone\n");
    let held = vec![
        (0, Ipv4Addr::new(1, 2, 3, 4)),
        (1, Ipv4Addr::new(9, 9, 9, 9)),
        (0, Ipv4Addr::new(9, 9, 9, 9)),
    ];
    let (hosts, line) = hosts_to_restore(&s, &saved, &held, 777);
    let got: Vec<(String, usize, u64)> = hosts
        .iter()
        .map(|h| (h.ip.to_string(), h.rule, h.last))
        .collect();
    assert_eq!(
        got,
        [(text("1.2.3.4"), 1, 100), (text("9.9.9.9"), 1, 777)]
    );
    assert_eq!(line.as_deref(), Some("pf held hosts added=1"));
    assert_eq!(hosts_to_restore(&s, &saved, &Vec::new(), 777).1, None);
}

fn config() -> Config {
    Config {
        settings: text("/e/mac-gate.toml"),
        state: text("/s/routes"),
        journal: None,
        listen: SocketAddr::parse("127.0.0.1:53").unwrap(),
        tunnel_dns: Ipv4Addr::new(1, 1, 1, 1),
        libexec: text("/b"),
        window: 60,
        use_fakeip: true,
        system_dns: true,
    }
}

#[test]
fn what_the_daemon_starts_with() {
    let s = settings();
    let confs = vec![Conf::parse(CONF).unwrap()];
    let mut lists = Lists::new();
    lists.add("custom", "example.com\na b\n1.2.3.0/24\n");
    let missing = vec![text("telegram t.lst: gone")];
    assert_eq!(
        log_start(&config(), &s, &confs, &lists, &missing, &Vec::new(), 3),
        [
            "start daemon rules=2 tunnels=1 lists=2 suffixes=1 subnets=1 rejected=1 missing=1 stale=0 saved_hosts=3 listen=127.0.0.1:53 tunnel_dns=1.1.1.1 window=60s use_fakeip=auto conf_ignored=[\"t:dns\"]",
            "rejected custom: a b",
            "source-missing telegram t.lst: gone",
        ]
    );
    let (hosts, _) = hosts_to_restore(
        &s,
        &state::parse("93.184.216.34 100 always\n"),
        &Vec::new(),
        777,
    );
    let country = Country::load(None, None);
    let (r, lines) = open(
        lists,
        &s,
        &confs,
        Ipv4Addr::new(1, 1, 1, 1),
        &country,
        &hosts,
    );
    assert_eq!(
        lines,
        [
            "country RU from=default",
            "rule always in force",
            "rule bypass in force"
        ]
    );
    assert_eq!(r.endpoints(), [Ipv4Addr::new(203, 0, 113, 7)]);
    assert_eq!(r.host_count(), 1);
    assert_eq!(
        r.status(),
        "rules=always=none,bypass=none tunnels=t=down suffixes=1 subnets=1 hosts=1 use_fakeip=false owner=false"
    );
}

fn network(iface: &str) -> Network {
    Network {
        iface: text(iface),
        index: 14,
        addr: Ipv4Addr::new(192, 168, 1, 7),
        gateway: Ipv4Addr::new(192, 168, 1, 1),
        dns: Ipv4Addr::new(192, 168, 1, 1),
    }
}

fn running() -> (mac_gate::resolver::Resolver, Watch) {
    let mut lists = Lists::new();
    lists.add("custom", "example.com\n");
    let country = Country::load(None, Some("NL 100\n"));
    let (r, _) = open(
        lists,
        &settings(),
        &vec![Conf::parse(CONF).unwrap()],
        Ipv4Addr::new(1, 1, 1, 1),
        &country,
        &Vec::new(),
    );
    (r, Watch::new(true, true, country, NOW))
}

#[test]
fn the_watch_follows_the_network() {
    let (mut r, mut w) = running();
    r.set_use_fakeip(true);
    let line = w.follow_network(&mut r, Some(network("en0")), 100, NOW);
    assert_eq!(
        line.as_deref(),
        Some("network none -> en0 192.168.1.7 gw=192.168.1.1 dns=192.168.1.1")
    );
    assert!(!r.use_fakeip());
    assert_eq!(w.dns_at, Some(NOW));
    assert_eq!(w.country_at, Some(NOW));
    assert!(w
        .follow_network(&mut r, Some(network("en0")), 100, NOW)
        .is_none());
    let up = w.fakeip_due(&mut r, NOW).unwrap();
    assert_eq!((up.server, up.bound_if), (Ipv4Addr::new(192, 168, 1, 1), Some(14)));
    assert!(w.fakeip_due(&mut r, NOW + 5 * MINUTE - 1).is_none());
    assert_eq!(w.fakeip_said(&mut r, Ok(true)), "upstream-fakeip true");
    assert!(r.use_fakeip());
    assert_eq!(
        w.fakeip_said(&mut r, Err(text("x"))),
        "upstream-fakeip-fail x"
    );
    assert!(track_network(&mut r, &None, &Some(network("en0"))));
    assert!(!r.use_fakeip());
    assert!(!track_network(&mut r, &Some(network("en0")), &Some(network("en0"))));
}

#[test]
fn the_watch_follows_the_country() {
    let (mut r, mut w) = running();
    assert!(w.follow_country(&mut r).is_empty());
    w.owner_says(Some("RU\n"));
    assert_eq!(
        w.follow_country(&mut r),
        ["country NL -> RU from=owner", "rule bypass in force"]
    );
    w.owner_says(None);
    assert_eq!(
        w.follow_country(&mut r),
        ["country RU -> NL from=services", "rule bypass out of force"]
    );
    assert!(w.ask(NOW).is_none());
    w.follow_network(&mut r, Some(network("en0")), 20_000, NOW);
    assert_eq!(w.ask(NOW).unwrap().iface, "en0");
    assert!(w.ask(NOW).is_none());
    let asked = |c: Option<&str>| {
        Ok(Asked {
            country: c.map(text),
            shown: text("a=b"),
        })
    };
    let (line, save) = w.take_country(asked(Some("RU")), 20_000, NOW);
    assert_eq!(line, "country seen RU: a=b");
    assert_eq!(save.as_deref(), Some("RU 20000\n"));
    let read = Country::load(None, save.as_deref());
    assert_eq!(read.now(), ("RU", "services"));
    assert_eq!(read.seen, Some(("RU".to_owned(), 20_000)));
    assert_eq!(w.country.now(), ("RU", "services"));
    w.country_at = Some(NOW);
    w.ask(NOW);
    let (line, save) = w.take_country(asked(None), 20_000, NOW);
    assert_eq!((line.as_str(), save), ("country-fail a=b", None));
    assert_eq!(w.country_at, Some(NOW + COUNTRY_RETRY));
    w.ask(NOW + COUNTRY_RETRY);
    w.follow_network(&mut r, None, 20_000, NOW);
    let (line, _) = w.take_country(asked(Some("DE")), 20_000, NOW);
    assert_eq!(line, "country dropped: network changed; a=b");
    assert_eq!(
        w.take_country(Err(text("x")), 20_000, NOW).0,
        "country-fail task: x"
    );
}

#[test]
fn reasons_are_written_when_they_change() {
    let (mut r, mut w) = running();
    assert_eq!(w.log_reasons(&r), ["killswitch always on tunnel"]);
    assert!(w.log_reasons(&r).is_empty());
    r.set_owner(true);
    assert_eq!(w.log_reasons(&r), ["killswitch always on tunnel,owner"]);
}

#[test]
fn housekeeping_when_it_is_due() {
    let (mut r, mut w) = running();
    r.mark_dirty();
    let due = w.housekeeping(&mut r, NOW + MINUTE - 1);
    assert!(!due.dns && !due.save && !due.sweep && !due.status);
    let due = w.housekeeping(&mut r, NOW + MINUTE);
    assert!(due.save && !due.sweep);
    assert!(!w.housekeeping(&mut r, NOW + 2 * MINUTE).save);
    let due = w.housekeeping(&mut r, NOW + 10 * MINUTE);
    assert!(due.sweep && due.status);
    assert!(
        matches!(w.dns_taken(Ok(2), NOW), Said::Line(s) if s == "dns set services=2")
    );
    assert!(matches!(w.dns_taken(Ok(0), NOW), Said::Nothing));
    assert!(
        matches!(w.dns_taken(Err(text("x")), NOW), Said::Burst(s) if s == "dns-fail x")
    );
    assert_eq!(w.dns_at, Some(NOW + NET_POLL));
    assert!(w.housekeeping(&mut r, NOW + NET_POLL).dns);
    assert_eq!(
        w.woke(62 * SECOND, 20_000, NOW),
        "wake slept=62s"
    );
    assert_eq!((w.wakes, w.country_at), (1, Some(NOW)));
}

#[test]
fn lists_without_an_entry_are_refused() {
    let (mut r, mut w) = running();
    let (lines, reload) =
        w.follow_sources(&mut r, Lists::new(), vec![text("a x: gone")], Vec::new());
    assert_eq!(
        lines,
        [
            "source-missing a x: gone",
            "lists-refused no entries; the lists in place stay"
        ]
    );
    assert!(!reload);
    assert_eq!(r.lists().suffix_count(), 1);
    let mut l = Lists::new();
    l.add("custom", "a.org\nb.org\n");
    let (lines, reload) = w.follow_sources(&mut r, l, Vec::new(), Vec::new());
    assert_eq!(lines, ["lists reload suffixes=2 subnets=0 rejected=0"]);
    assert!(reload);
    assert_eq!(
        w.status(&r),
        ["status rules=always=none,bypass=off tunnels=t=down suffixes=2 subnets=0 hosts=0 use_fakeip=false owner=false missing=0 stale=0 country=NL from=services network=none"]
    );
}

#[test]
fn strays_go_once_the_routes_are_taken() {
    let (r, mut w) = running();
    w.strays = Some(Strays {
        pids: vec![12, 34],
        since: NOW,
    });
    assert!(w.stop_strays(&r, NOW + STRAYS_WAIT - 1).is_none());
    let (pids, line) = w.stop_strays(&r, NOW + STRAYS_WAIT).unwrap();
    assert_eq!(pids, [12, 34]);
    assert_eq!(line, "stray amneziawg-go stopped [12, 34]");
    assert!(w.stop_strays(&r, NOW + STRAYS_WAIT).is_none());
}

#[test]
fn what_links_and_the_journal_are_told() {
    let c = Ctl {
        wanted: false,
        wakes: 0,
        stop: false,
    };
    let (d, news) = tell_link(c, true, 0);
    assert!(d.wanted && news);
    assert!(!tell_link(d, true, 0).1);
    assert!(tell_link(d, true, 1).1);
    assert_eq!(
        stop_line(Some(Ok(2)), 5, 7, Some(Err(text("x")))),
        "stop dns_back=2 routes_removed=5 hosts_saved=7 pf=fail: x"
    );
    assert_eq!(
        stop_line(None, 0, 0, Some(Ok(()))),
        "stop dns_back=none routes_removed=0 hosts_saved=0 pf=released"
    );
}

#[test]
fn the_resolver_alone() {
    let words: Vec<String> =
        "resolve --lists /l --tunnel utun4 --network-dns 192.168.1.1 --use-fakeip"
            .split_whitespace()
            .map(text)
            .collect();
    let Ok(mac_gate::args::Cmd::Resolve(a)) = mac_gate::args::parse_args(&words) else {
        panic!("not resolve");
    };
    let mut l = Lists::new();
    l.add("custom", "example.com\na b\n");
    assert_eq!(
        resolving::log_start(&l, &a, 9),
        [
            "start suffixes=1 subnets=0 rejected=1 tunnel=utun4#9 network=192.168.1.1 tunnel_dns=1.1.1.1 use_fakeip=true listen=127.0.0.1:5300",
            "rejected custom: a b"
        ]
    );
    let mut r = resolve(l, &a, 9, NOW);
    assert_eq!(r.pick_tunnels(NOW), ["rule resolve tunnel none -> utun4"]);
    assert_eq!(
        r.status(),
        "rules=resolve=utun4 tunnels=utun4=utun4#9/alive suffixes=1 subnets=0 hosts=0 use_fakeip=true owner=false"
    );
    assert_eq!(resolving::stop_line(3), "stop routes_removed=3");
}
