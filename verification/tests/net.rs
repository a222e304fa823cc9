use mac_gate::addr::Ipv4Addr;
use mac_gate::degraded::SECOND;
use mac_gate::net::{
    heard, is_link_event, network_of, parse_route_get, resolve_ipv4, upstream_has_fakeip, Clock,
    Heard, Read, ENOBUFS,
};

use hickory_proto::op::{Message, MessageType, OpCode};
use hickory_proto::rr::rdata::A;
use hickory_proto::rr::{Name, RData, Record};

#[test]
fn route_get_default() {
    let out = "   route to: default\ndestination: default\n       mask: default\n    \
               gateway: 192.168.1.1\n  interface: en0\n      flags: <UP,GATEWAY,DONE,STATIC,PRCLONING,GLOBAL>\n";
    assert_eq!(
        parse_route_get(out),
        Some((Ipv4Addr::new(192, 168, 1, 1), "en0".to_owned()))
    );
    assert_eq!(parse_route_get("  interface: utun4\n"), None);
}

#[test]
fn link_events() {
    assert!(is_link_event(0xc));
    assert!(is_link_event(0xe));
    assert!(!is_link_event(1));
}

#[test]
fn the_network_dns_is_that_of_dhcp_or_the_gateway() {
    let gw = Ipv4Addr::new(192, 168, 1, 1);
    let n = network_of(
        gw,
        "en0".to_owned(),
        14,
        "192.168.1.7\n",
        Some("9.9.9.9\n".to_owned()),
    )
    .unwrap();
    assert_eq!(n.dns, Ipv4Addr::new(9, 9, 9, 9));
    assert_eq!(n.to_string(), "en0 192.168.1.7 gw=192.168.1.1 dns=9.9.9.9");
    assert_eq!(n.upstream().bound_if, Some(14));
    let n = network_of(gw, "en0".to_owned(), 14, "192.168.1.7\n", None).unwrap();
    assert_eq!(n.dns, gw);
    assert!(network_of(gw, "en0".to_owned(), 14, "\n", None).is_none());
}

fn answer(ips: &[[u8; 4]]) -> Vec<u8> {
    let mut m = Message::new(7, MessageType::Response, OpCode::Query);
    for ip in ips {
        m.add_answer(Record::from_rdata(
            Name::from_ascii("example.com.").unwrap(),
            60,
            RData::A(A::new(ip[0], ip[1], ip[2], ip[3])),
        ));
    }
    m.to_vec().unwrap()
}

#[test]
fn answers_to_queries_of_our_own() {
    assert_eq!(upstream_has_fakeip(&answer(&[[198, 18, 0, 5]])), Ok(true));
    assert_eq!(upstream_has_fakeip(&answer(&[[1, 2, 3, 4]])), Ok(false));
    let short = Message::from_vec(&[0, 1]).unwrap_err().to_string();
    assert_eq!(upstream_has_fakeip(&[0, 1]), Err(short.clone()));
    assert_eq!(
        resolve_ipv4(&answer(&[[203, 0, 113, 7], [1, 2, 3, 4]]), "example.com."),
        Ok(Ipv4Addr::new(203, 0, 113, 7))
    );
    assert_eq!(
        resolve_ipv4(&answer(&[]), "example.com."),
        Err("no address for example.com.".to_owned())
    );
    assert_eq!(resolve_ipv4(&[0, 1], "example.com."), Err(short));
}

#[test]
fn sleep_is_wall_time_ahead() {
    let mut c = Clock::new(100 * SECOND, 50 * SECOND);
    assert_eq!(c.slept(101 * SECOND, 51 * SECOND), None);
    assert_eq!(c.slept(107 * SECOND, 52 * SECOND), None);
    assert_eq!(c.slept(170 * SECOND, 53 * SECOND), Some(62 * SECOND));
    // The wall clock was set back.
    assert_eq!(c.slept(160 * SECOND, 54 * SECOND), None);
}

#[test]
fn lost_events_may_have_mattered() {
    assert_eq!(heard(&Read::Message(vec![8, 0, 5, 0xe])), Heard::Change);
    assert_eq!(heard(&Read::Message(vec![8, 0, 5, 1])), Heard::More);
    assert_eq!(heard(&Read::Message(vec![8, 0, 5])), Heard::More);
    assert_eq!(heard(&Read::Failed(Some(ENOBUFS))), Heard::Change);
    assert_eq!(heard(&Read::Failed(Some(1))), Heard::Error);
    assert_eq!(heard(&Read::Nothing), Heard::More);
}
