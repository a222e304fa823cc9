use mac_gate::addr::{Ipv4Addr, Subnet};
use mac_gate::pf::{
    host_lines, is_table_file, net_lines, new_token, parse_table, parse_token, ruleset,
    stale_token, table_args, table_files, Shape, Tables,
};

fn shape() -> Shape {
    Shape {
        rules: vec![
            Some(vec!["utun4".to_owned(), "utun5".to_owned()]),
            None,
            Some(vec!["utun6".to_owned()]),
        ],
        use_fakeip: false,
        endpoints: vec![
            Ipv4Addr::new(203, 0, 113, 7),
            Ipv4Addr::new(198, 51, 100, 9),
        ],
        network: Some(("en0".to_owned(), Ipv4Addr::new(192, 168, 1, 1))),
    }
}

fn starting(rules: &str, word: &str) -> Vec<String> {
    rules
        .lines()
        .filter(|l| l.starts_with(word))
        .map(str::to_owned)
        .collect()
}

#[test]
fn through_the_tunnels_of_the_rule_only() {
    let r = ruleset(&shape(), "/d");
    assert_eq!(
        starting(&r, "table"),
        [
            "table <mac_gate_h0> persist file \"/d/pf-hosts-0\"",
            "table <mac_gate_n0> persist file \"/d/pf-nets-0\"",
            "table <mac_gate_h2> persist file \"/d/pf-hosts-2\"",
            "table <mac_gate_n2> persist file \"/d/pf-nets-2\"",
        ]
    );
    assert_eq!(
        starting(&r, "block"),
        [
            "block drop out quick inet to <mac_gate_h0>",
            "block drop out quick inet to <mac_gate_n0>",
            "block drop out quick inet to <mac_gate_h2>",
            "block drop out quick inet to <mac_gate_n2>",
        ]
    );
    assert!(r.contains("pass out quick on { utun4 utun5 } inet to <mac_gate_h0> no state\n"));
    assert!(r.contains("pass out quick on utun6 inet to <mac_gate_n2> no state\n"));
    assert!(r.contains("pass out quick inet to 203.0.113.7 no state\n"));
    assert!(r.contains("pass out quick inet to 198.51.100.9 no state\n"));
    assert!(r.contains(
        "pass out quick on en0 inet proto { udp tcp } to 192.168.1.1 port 53 no state\n"
    ));
    let first_block = r.find("block").unwrap();
    assert!(r.rfind("pass").unwrap() < first_block);
    assert_eq!(
        shape().to_string(),
        "rules=utun4,utun5 off utun6 use_fakeip=false endpoints=203.0.113.7,198.51.100.9 network=en0 dns=192.168.1.1"
    );
}

#[test]
fn no_tunnel_blocks_everywhere_and_fakeip_frees_subnets() {
    let s = Shape {
        rules: vec![Some(Vec::new())],
        use_fakeip: true,
        endpoints: Vec::new(),
        network: None,
    };
    let r = ruleset(&s, "/d");
    assert_eq!(
        starting(&r, "block"),
        ["block drop out quick inet to <mac_gate_h0>"]
    );
    assert!(!r.contains("pass"));
    assert_eq!(
        s.to_string(),
        "rules=none use_fakeip=true endpoints=none network=none"
    );
}

#[test]
fn table_addresses() {
    assert_eq!(
        parse_table("   203.0.113.10\n   198.51.100.20\n"),
        vec![
            Ipv4Addr::new(203, 0, 113, 10),
            Ipv4Addr::new(198, 51, 100, 20)
        ]
    );
    assert!(parse_table("").is_empty());
}

#[test]
fn token() {
    assert_eq!(
        parse_token("pf enabled\nToken : 13852412398563\n"),
        Some("13852412398563".to_owned())
    );
    assert_eq!(parse_token("pf enabled\n"), None);
    assert_eq!(parse_token("Token : x1\n"), None);
}

#[test]
fn the_token_of_a_dead_daemon_is_released() {
    assert_eq!(new_token("", "Token : 12\n").as_deref(), Some("12"));
    assert_eq!(new_token("Token : 7\n", "Token : 12\n").as_deref(), Some("7"));
    assert_eq!(stale_token(Some("5\n".to_owned()), "7").as_deref(), Some("5"));
    assert_eq!(stale_token(Some("7\n".to_owned()), "7"), None);
    assert_eq!(stale_token(Some("\n".to_owned()), "7"), None);
    assert_eq!(stale_token(None, "7"), None);
}

#[test]
fn the_whole_ruleset() {
    let s = Shape {
        rules: vec![Some(vec!["utun4".to_owned()])],
        use_fakeip: false,
        endpoints: vec![Ipv4Addr::new(203, 0, 113, 7)],
        network: Some(("en0".to_owned(), Ipv4Addr::new(192, 168, 1, 1))),
    };
    assert_eq!(
        ruleset(&s, "/d"),
        "table <mac_gate_h0> persist file \"/d/pf-hosts-0\"\n\
         table <mac_gate_n0> persist file \"/d/pf-nets-0\"\n\
         pass out quick inet to 203.0.113.7 no state\n\
         pass out quick on en0 inet proto { udp tcp } to 192.168.1.1 port 53 no state\n\
         pass out quick on en0 inet proto icmp to { 1.1.1.1 8.8.8.8 9.9.9.9 } icmp-type echoreq no state\n\
         pass out quick on utun4 inet to <mac_gate_h0> no state\n\
         pass out quick on utun4 inet to <mac_gate_n0> no state\n\
         block drop out quick inet to <mac_gate_h0>\n\
         block drop out quick inet to <mac_gate_n0>\n"
    );
}

#[test]
fn tables_on_disk_and_by_command() {
    let ips = vec![Ipv4Addr::new(1, 2, 3, 4), Ipv4Addr::new(5, 6, 7, 8)];
    let nets = vec![Subnet::parse("149.154.160.0/20").unwrap()];
    assert_eq!(host_lines(&ips), "1.2.3.4\n5.6.7.8\n");
    assert_eq!(net_lines(&nets), "149.154.160.0/20\n");
    assert_eq!(
        table_args("add", 3, &ips).unwrap(),
        [
            "-q",
            "-a",
            "com.apple/mac-gate",
            "-t",
            "mac_gate_h3",
            "-T",
            "add",
            "1.2.3.4",
            "5.6.7.8"
        ]
    );
    assert!(table_args("add", 3, &Vec::new()).is_none());
    let t = Tables {
        hosts: vec![ips],
        nets: vec![nets],
    };
    let files = table_files(2, &t, "/d/");
    assert_eq!(files.len(), 2);
    assert_eq!(files[0].0.path, "/d/pf-hosts-0");
    assert_eq!(files[0].0.text, "1.2.3.4\n5.6.7.8\n");
    assert_eq!(files[0].1.path, "/d/pf-nets-0");
    assert_eq!(files[1].0.text, "");
    assert!(is_table_file("pf-hosts-0") && is_table_file("pf-nets"));
    assert!(!is_table_file("pf-token"));
}
