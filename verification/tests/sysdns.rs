use mac_gate::sysdns::{
    format_saved, give_back, is_ip, parse_saved, parse_servers, parse_services, set_args, settled,
    take_over, Entry, Found,
};

fn entry(service: &str, servers: &[&str]) -> Entry {
    Entry {
        service: service.to_owned(),
        servers: servers.iter().map(|s| (*s).to_owned()).collect(),
    }
}

fn pairs(v: &[Entry]) -> Vec<(String, Vec<String>)> {
    v.iter()
        .map(|e| (e.service.clone(), e.servers.clone()))
        .collect()
}

#[test]
fn services_without_the_header_and_asterisk() {
    let out = "An asterisk (*) denotes that a network service is disabled.\n\
               Wi-Fi\n*Thunderbolt Bridge\nEthernet (PPPoE)\n";
    assert_eq!(
        parse_services(out),
        vec!["Wi-Fi", "Thunderbolt Bridge", "Ethernet (PPPoE)"]
    );
}

#[test]
fn servers_or_none() {
    assert_eq!(
        parse_servers("1.1.1.1\n8.8.8.8\n"),
        vec!["1.1.1.1", "8.8.8.8"]
    );
    assert!(parse_servers("There aren't any DNS Servers set on Wi-Fi.\n").is_empty());
    assert!(parse_servers(
        "(Please note: Thunderbolt Bridge is currently disabled) \
         There aren't any DNS Servers set on Thunderbolt Bridge.\n"
    )
    .is_empty());
}

#[test]
fn saved_round_trip() {
    let entries = vec![
        entry("Wi-Fi", &["192.168.1.1"]),
        entry("USB 10/100/1000 LAN", &[]),
        entry("Ethernet (PPPoE)", &["1.1.1.1", "8.8.8.8"]),
    ];
    assert_eq!(
        pairs(&parse_saved(&format_saved(&entries))),
        pairs(&entries)
    );
}

#[test]
fn addresses_of_both_kinds() {
    for ip in [
        "1.2.3.4",
        "::",
        "::1",
        "fe80::1",
        "2001:db8:1:2:3:4:5:6",
        "::ffff:1.2.3.4",
        "1:2:3:4:5:6:1.2.3.4",
        "1::8",
    ] {
        assert!(is_ip(ip), "{ip}");
    }
    for no in [
        "",
        "1.2.3",
        "01.2.3.4",
        "256.1.1.1",
        "fe80",
        ":1",
        "1:::2",
        "1:2:3:4:5:6:7",
        "1:2:3:4:5:6:7:8:9",
        "1:2:3:4:5:6:7::8:9",
        "12345::",
        "1.2.3.4::",
        "g::",
    ] {
        assert!(!is_ip(no), "{no}");
    }
}

fn found(service: &str, servers: &[&str]) -> Found {
    Found {
        service: service.to_owned(),
        servers: Ok(servers.iter().map(|s| (*s).to_owned()).collect()),
    }
}

#[test]
fn takes_the_services_over_and_keeps_what_they_had() {
    let t = take_over(
        Some(vec![entry("Wi-Fi", &["9.9.9.9"])]),
        vec![
            found("Wi-Fi", &["127.0.0.1"]),
            found("LAN", &["127.0.0.1", "8.8.8.8"]),
            Found {
                service: "Bridge".to_owned(),
                servers: Err("busy".to_owned()),
            },
        ],
    );
    assert_eq!(
        pairs(&t.saved),
        [
            ("Wi-Fi".to_owned(), vec!["9.9.9.9".to_owned()]),
            ("LAN".to_owned(), vec!["8.8.8.8".to_owned()]),
        ]
    );
    assert!(t.changed);
    assert_eq!(t.todo, ["LAN"]);
    assert_eq!(t.first.as_deref(), Some("busy"));
    let (n, first) = settled(t.first, &vec![Ok(()), Err("later".to_owned())]);
    assert_eq!((n, first.as_deref()), (1, Some("busy")));
}

#[test]
fn puts_back_the_services_still_there() {
    let saved = vec![entry("Wi-Fi", &[]), entry("LAN", &["8.8.8.8"])];
    let back = give_back(&saved, &vec!["LAN".to_owned(), "Bridge".to_owned()]);
    assert_eq!(
        pairs(&back),
        [("LAN".to_owned(), vec!["8.8.8.8".to_owned()])]
    );
    assert_eq!(
        set_args("Wi-Fi", &Vec::new()),
        ["-setdnsservers", "Wi-Fi", "Empty"]
    );
    assert_eq!(
        set_args("LAN", &back[0].servers),
        ["-setdnsservers", "LAN", "8.8.8.8"]
    );
}

#[test]
fn a_stop_puts_back_what_was_there() {
    // Taken over, a crash, taken over again, and a stop.
    let first = take_over(
        None,
        vec![
            found("Wi-Fi", &["9.9.9.9", "127.0.0.1"]),
            found("LAN", &["8.8.8.8"]),
        ],
    );
    let file = format_saved(&first.saved);
    let second = take_over(
        Some(parse_saved(&file)),
        vec![
            found("Wi-Fi", &["127.0.0.1"]),
            found("LAN", &["127.0.0.1"]),
        ],
    );
    assert!(!second.changed);
    assert!(second.todo.is_empty());
    let back = give_back(&second.saved, &vec!["LAN".to_owned(), "Wi-Fi".to_owned()]);
    assert_eq!(
        pairs(&back),
        [
            ("Wi-Fi".to_owned(), vec!["9.9.9.9".to_owned()]),
            ("LAN".to_owned(), vec!["8.8.8.8".to_owned()]),
        ]
    );
}
