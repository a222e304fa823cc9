use mac_gate::probe::{checksum, echo, ids, is_reply, parse_counters, Counters, tls_args};

#[test]
fn echo_checksum_verifies() {
    let p = echo(0x1234, 0xabcd);
    assert_eq!(p[0], 8);
    assert_eq!(checksum(&p), 0);
}

#[test]
fn reply_with_and_without_ip_header() {
    let mut r = echo(7, 9);
    r[0] = 0;
    assert!(is_reply(&r, 7, 9));
    assert!(!is_reply(&r, 7, 10));
    let mut with_ip = vec![0x45u8];
    with_ip.extend_from_slice(&[0; 19]);
    with_ip.extend_from_slice(&r);
    assert!(is_reply(&with_ip, 7, 9));
    assert!(!is_reply(&echo(7, 9), 7, 9));
    assert!(!is_reply(&[0x45, 0], 7, 9));
}

#[test]
fn counters_of_the_link_row() {
    let out = "\
Name       Mtu   Network       Address            Ipkts Ierrs     Ibytes    Opkts Oerrs     Obytes  Coll
utun4      1280  <Link#23>                           12     0       1234       10     0        987     0
utun4      1280  10.7.0.2/32   10.7.0.2              12     -       1234       10     -        987     -
en0        1500  <Link#14>   00:00:5e:00:53:01  1000000     0 12345678901   500000     0  9876543210     0
";
    assert_eq!(
        parse_counters(out, "utun4"),
        Some(Counters {
            rx_packets: 12,
            rx_bytes: 1234,
            tx_packets: 10,
            tx_bytes: 987,
        })
    );
    assert_eq!(
        parse_counters(out, "en0"),
        Some(Counters {
            rx_packets: 1_000_000,
            rx_bytes: 12_345_678_901,
            tx_packets: 500_000,
            tx_bytes: 9_876_543_210,
        })
    );
    assert_eq!(parse_counters(out, "utun9"), None);
}

#[test]
fn the_bytes_of_an_echo() {
    assert_eq!(
        echo(0, 0),
        [8, 0, 0x4b, 0xaa, 0, 0, 0, 0, b'm', b'a', b'c', b'-', b'g', b'a', b't', b'e']
    );
    assert_eq!(ids(0x12345, 0xabcdef), (0x2345, 0xcdef));
}

#[test]
fn the_arguments_of_a_tls_probe() {
    assert_eq!(
        tls_args("utun4", 15),
        [
            "-s",
            "-o",
            "/dev/null",
            "-m",
            "15.0",
            "--interface",
            "utun4",
            "https://1.1.1.1/cdn-cgi/trace",
        ]
    );
}
