use mac_gate::addr::{Ipv4Addr, Subnet};
use mac_gate::lists::{list_name, normalize, Lists};

fn lists() -> Lists {
    let mut l = Lists::new();
    l.add(
        "custom",
        "# comment\n\nexample.com\n*.wild.org\nBad Line\n  Spaced.NET.  \n",
    );
    l.add("telegram", "telegram.org\n149.154.160.0/20\n91.108.4.1\n");
    l.add("other", "example.com\n");
    l
}

#[test]
fn suffix_matches_name_and_subdomains() {
    let l = lists();
    assert_eq!(l.match_domain("example.com"), ["custom", "other"]);
    assert_eq!(l.match_domain("a.b.example.com."), ["custom", "other"]);
    assert_eq!(l.match_domain("WWW.Example.COM"), ["custom", "other"]);
    assert!(l.match_domain("notexample.com").is_empty());
    assert!(l.match_domain("com").is_empty());
    assert!(l.match_domain("").is_empty());
}

#[test]
fn wildcard_is_a_suffix() {
    let l = lists();
    assert_eq!(l.match_domain("wild.org"), ["custom"]);
    assert_eq!(l.match_domain("x.wild.org"), ["custom"]);
}

#[test]
fn leading_dot_is_a_suffix() {
    let mut l = Lists::new();
    l.add("regional", ".test\n");
    assert_eq!(l.match_domain("host.test"), ["regional"]);
    assert_eq!(l.match_domain("a.b.test"), ["regional"]);
    assert!(l.match_domain("test.com").is_empty());
    assert!(l.rejected.is_empty());
}

#[test]
fn every_list_of_a_name_in_the_order_added() {
    let mut l = lists();
    l.add("custom", "example.com\n");
    l.add("parent", "com\n");
    l.add("deep", "b.example.com\n");
    assert_eq!(
        l.match_domain("a.b.example.com"),
        ["deep", "custom", "other", "parent"]
    );
}

#[test]
fn trims_and_rejects() {
    let l = lists();
    assert_eq!(l.match_domain("spaced.net"), ["custom"]);
    assert_eq!(l.rejected, vec!["custom: Bad Line".to_owned()]);
    assert_eq!(l.suffix_count(), 4);
}

#[test]
fn subnets_and_hosts() {
    let l = lists();
    let covered = |ip: &str| {
        let ip = Ipv4Addr::parse(ip).unwrap();
        l.subnets()
            .iter()
            .find(|(s, _)| s.contains(ip))
            .map(|(_, n)| n.as_str())
    };
    assert_eq!(covered("149.154.167.99"), Some("telegram"));
    assert_eq!(covered("149.154.176.1"), None);
    assert_eq!(covered("91.108.4.1"), Some("telegram"));
    assert_eq!(covered("91.108.4.2"), None);
    assert_eq!(l.subnets().len(), 2);
    assert_eq!(l.entry_count(), 6);
    assert_eq!(l.names(), &vec!["custom", "telegram", "other"]);
}

#[test]
fn subnet_parse_normalizes() {
    let s = Subnet::parse("10.1.2.3/8").unwrap();
    assert_eq!(s.to_string(), "10.0.0.0/8");
    assert!(Subnet::parse("10.0.0.0/33").is_none());
    assert!(Subnet::parse("example.com").is_none());
    assert_eq!(Subnet::parse("0.0.0.0/0").unwrap().prefix, 0);
}

#[test]
fn overlap_either_way() {
    let wide = Subnet::parse("198.0.0.0/8").unwrap();
    let fake = Subnet::parse("198.18.0.0/15").unwrap();
    let other = Subnet::parse("198.20.0.0/16").unwrap();
    assert!(wide.overlaps(fake));
    assert!(fake.overlaps(wide));
    assert!(!fake.overlaps(other));
}

#[test]
fn files_that_are_lists() {
    assert_eq!(list_name("custom.lst").as_deref(), Some("custom"));
    assert_eq!(list_name("a.b.lst").as_deref(), Some("a.b"));
    assert_eq!(list_name(".lst"), None);
    assert_eq!(list_name("custom.txt"), None);
    assert_eq!(list_name("lst"), None);
}

#[test]
fn a_name_is_normalized_once() {
    assert_eq!(normalize("WWW.Example.Com.."), "www.example.com");
    let once = normalize("WWW.Example.Com.");
    assert_eq!(normalize(&once), once);
    assert_eq!(normalize("www.EXAMPLE.com"), once);
    assert_eq!(normalize("..."), "");
}

#[test]
fn suffixes_are_found_in_whatever_order_they_come() {
    let mut l = Lists::new();
    for d in ["m.net", "z.org", "a.com", "aa.com", "a.co", "m.net", "b.io", "y", "a.comb"] {
        l.add(d, d);
    }
    assert_eq!(l.suffix_count(), 8);
    for d in ["m.net", "z.org", "a.com", "aa.com", "a.co", "b.io", "y", "a.comb"] {
        assert_eq!(l.match_domain(d), [d]);
        assert_eq!(l.match_domain(&format!("x.{d}")), [d]);
    }
    for d in ["a", "com", "a.c", "zz.org", "m.ne", "ya"] {
        assert!(l.match_domain(d).is_empty());
    }
}

#[test]
fn a_subnet_shown_is_the_subnet_read() {
    for s in ["0.0.0.0/0", "10.0.0.0/8", "149.154.160.0/20", "1.2.3.4/32"] {
        let net = Subnet::parse(s).unwrap();
        assert_eq!(net.to_string(), s);
        assert_eq!(Subnet::parse(&net.to_string()), Some(net));
    }
}
