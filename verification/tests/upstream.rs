use mac_gate::addr::Ipv4Addr;
use mac_gate::upstream::{after_udp, answers, frame, truncated, Exchange, Upstream, DNS_PORT};

#[test]
fn truncation_bit() {
    assert!(truncated(&[0, 1, 0x83, 0x80]));
    assert!(!truncated(&[0, 1, 0x81, 0x80]));
    assert!(!truncated(&[0, 1]));
}

#[test]
fn a_cut_answer_is_asked_for_over_tcp() {
    assert!(matches!(after_udp(vec![0, 1, 0x83, 0x80]), Exchange::Again));
    assert!(
        matches!(after_udp(vec![0, 1, 0x81, 0x80]), Exchange::Answer(a) if a == [0, 1, 0x81, 0x80])
    );
    assert_eq!(frame(&[1, 2, 3]).unwrap(), [0, 3, 1, 2, 3]);
    assert!(frame(&vec![0; 65536]).is_none());
    assert_eq!(frame(&vec![0; 65535]).unwrap()[..2], [255, 255]);
}

#[test]
fn only_the_id_is_checked() {
    let mut a = vec![0u8; 12];
    a[0] = 7;
    assert!(answers(&a, &[7, 0, 1]));
    assert!(!answers(&a, &[8, 0, 1]));
    assert!(!answers(&a[..11], &[7, 0, 1]));
    assert!(!answers(&a, &[7]));
    let u = Upstream {
        server: Ipv4Addr::new(9, 9, 9, 9),
        port: DNS_PORT,
        bound_if: None,
    };
    assert_eq!(u.timed_out(), "no answer from 9.9.9.9:53");
}
