use mac_gate::addr::Ipv4Addr;
use mac_gate::state::{self, parse, Host, Hosts};

fn host(name: &str, last: u64) -> Host {
    Host {
        rule: name.to_owned(),
        last,
    }
}

fn all(h: &Hosts) -> Vec<(Ipv4Addr, String, u64)> {
    (0..h.len())
        .map(|i| {
            let (ip, k) = h.at(i);
            (ip, k.rule.clone(), k.last)
        })
        .collect()
}

#[test]
fn round_trip_sorted() {
    let mut h = Hosts::new();
    h.insert(Ipv4Addr::new(9, 9, 9, 9), host("custom", 200));
    h.insert(Ipv4Addr::new(1, 2, 3, 4), host("telegram", 100));
    let text = state::format(&h);
    assert_eq!(text, "1.2.3.4 100 telegram\n9.9.9.9 200 custom\n");
    assert_eq!(all(&parse(&text)), all(&h));
}

#[test]
fn skips_damaged_lines() {
    let h = parse("1.2.3.4 100 x\nbad\n5.6.7.8 notanumber y\n5.6.7.9 7\n\n");
    assert_eq!(h.len(), 1);
    let k = h.get(Ipv4Addr::new(1, 2, 3, 4)).unwrap();
    assert_eq!((k.rule.as_str(), k.last), ("x", 100));
}

#[test]
fn a_later_line_of_an_address_counts() {
    let mut h = parse("1.2.3.4 100 x\n1.2.3.4 200 y\n");
    assert_eq!(all(&h), [(Ipv4Addr::new(1, 2, 3, 4), "y".to_owned(), 200)]);
    assert!(h.remove(Ipv4Addr::new(1, 2, 3, 4)));
    assert!(!h.remove(Ipv4Addr::new(1, 2, 3, 4)));
    assert_eq!(state::format(&h), "");
}
