use mac_gate::addr::Ipv4Addr;
use mac_gate::tunnel::{
    configure, down, find_strays, handshake_age, is_name_file, listen_port, name_file, stray_pids,
    Conf, Ready, Tools, Waiting, LOOKS,
};

const FILE: &str = "\
[Interface]
PrivateKey = cHJpdmF0ZQ==
Table = off
Address = 10.7.0.2/32, fd00::2/128
MTU = 1280
DNS = 1.1.1.1
Jc = 5
I1 = <b 0x1234>
PostUp = echo hi # a hook

[Peer]
PublicKey = cHVibGlj
AllowedIPs = 0.0.0.0/0
Endpoint = 203.0.113.7:51820
PersistentKeepalive = 25
";

#[test]
fn splits_quick_keys_from_setconf() {
    let c = Conf::parse(FILE).unwrap();
    assert_eq!(c.address, Ipv4Addr::new(10, 7, 0, 2));
    assert_eq!(c.mtu, 1280);
    assert_eq!(c.endpoint_ip(), Some(Ipv4Addr::new(203, 0, 113, 7)));
    assert_eq!(c.endpoint_port, 51820);
    assert_eq!(c.ignored, vec!["table", "dns", "postup"]);
    let text = c.setconf(Ipv4Addr::new(198, 51, 100, 1));
    assert_eq!(
        text,
        "[Interface]\nPrivateKey = cHJpdmF0ZQ==\nJc = 5\nI1 = <b 0x1234>\n\
         [Peer]\nPublicKey = cHVibGlj\nAllowedIPs = 0.0.0.0/0\n\
         Endpoint = 198.51.100.1:51820\nPersistentKeepalive = 25\n"
    );
}

#[test]
fn named_endpoint_and_defaults() {
    let c = Conf::parse("[Interface]\nAddress = 10.0.0.2\n[Peer]\nEndpoint = vpn.example:51820\n")
        .unwrap();
    assert_eq!(c.endpoint_host, "vpn.example");
    assert_eq!(c.endpoint_ip(), None);
    assert_eq!(c.mtu, 1280);
}

#[test]
fn rejects_incomplete_files() {
    assert!(Conf::parse("[Interface]\nAddress = 10.0.0.2\n").is_err());
    assert!(Conf::parse("[Peer]\nEndpoint = 1.2.3.4:5\n").is_err());
    assert!(Conf::parse(
        "[Interface]\nAddress = 10.0.0.2\nMTU = x\n[Peer]\nEndpoint = 1.2.3.4:5\n"
    )
    .is_err());
    assert!(Conf::parse("[Interface]\nAddress = 10.0.0.2\nnonsense\n").is_err());
    assert!(Conf::parse(
        "[Interface]\nAddress = 10.0.0.2\n[Peer]\nEndpoint = 1.2.3.4:5\n[Peer]\nEndpoint = 1.2.3.5:5\n"
    )
    .is_err());
}

fn fault(text: &str) -> String {
    match Conf::parse(text) {
        Ok(_) => panic!("accepted"),
        Err(e) => e,
    }
}

#[test]
fn says_what_is_wrong_with_a_file() {
    assert_eq!(fault(""), "no peer endpoint");
    assert_eq!(
        fault("[Peer]\nEndpoint = 1.2.3.4:5\n"),
        "no IPv4 Address in [Interface]"
    );
    assert_eq!(fault("[Interface]\nMTU = x\n"), "bad MTU x");
    assert_eq!(fault("nonsense # c\n"), "not a key = value line: nonsense");
    assert_eq!(fault("[Peer]\nEndpoint = h\n"), "bad endpoint h");
    assert_eq!(fault("[Peer]\nEndpoint = h:p\n"), "bad endpoint port h:p");
    assert_eq!(
        fault("[Peer]\nEndpoint = h:1\nendpoint = h:2\n"),
        "more than one peer endpoint"
    );
    let c = Conf::parse("[interface]\nADDRESS = fd00::2/64, 10.0.0.9/24\n[peer]\nEndpoint = [fd00::1]:9\n")
        .unwrap();
    assert_eq!(c.address, Ipv4Addr::new(10, 0, 0, 9));
    assert_eq!(c.endpoint_host, "fd00::1");
}

fn tools() -> Tools {
    Tools {
        go: "/b/go".to_owned(),
        awg: "/b/awg".to_owned(),
        run_dir: "/r".to_owned(),
    }
}

#[test]
fn the_programs_that_configure_an_interface() {
    let c = Conf::parse(FILE).unwrap();
    let run = configure(&tools(), &c, "utun4", Ipv4Addr::new(203, 0, 113, 7));
    assert_eq!(run.len(), 5);
    assert_eq!(run[0].program, "/b/awg");
    assert_eq!(run[0].args, ["setconf", "utun4", "/dev/stdin"]);
    assert_eq!(
        run[0].input,
        Some(c.setconf(Ipv4Addr::new(203, 0, 113, 7)))
    );
    assert_eq!(run[1].args, ["utun4", "inet", "10.7.0.2", "10.7.0.2", "alias"]);
    assert_eq!(run[2].args, ["utun4", "mtu", "1280"]);
    assert_eq!(run[3].args, ["utun4", "up"]);
    assert_eq!(run[4].program, "/sbin/route");
    assert_eq!(run[4].args[2..], ["add", "-inet", "default", "-interface", "utun4", "-ifscope", "utun4"]);
    let stop = down("utun4", false, Some(42));
    assert_eq!(stop.len(), 2);
    assert_eq!(stop[1].args, ["-TERM", "42"]);
    // The name may already belong to a new tunnel.
    assert_eq!(down("utun4", true, Some(42)).len(), 1);
    assert!(down("utun4", true, None).is_empty());
}

#[test]
fn what_the_programs_say() {
    assert_eq!(listen_port("51820\n"), Some(51820));
    assert_eq!(listen_port("70000\n"), None);
    assert_eq!(handshake_age("key\t100\n", 130), Some(30));
    assert_eq!(handshake_age("key\t200\n", 130), Some(0));
    assert_eq!(handshake_age("key\t0\n", 130), None);
    assert_eq!(handshake_age("", 130), None);
    assert_eq!(stray_pids("12\nx\n34\n"), [12, 34]);
    assert_eq!(find_strays(&tools()).args, ["-f", "-x", "/b/go -f utun"]);
    assert_eq!(name_file("/r", 7), "/r/mac-gate-7.name");
    assert!(is_name_file("mac-gate-7.name"));
    assert!(!is_name_file("utun4.sock"));
}

#[test]
fn waits_for_the_name_and_then_the_socket() {
    let mut w = Waiting::new();
    assert_eq!(w.look(None, "/r"), None);
    assert!(matches!(w.next(false, None), Ready::Again));
    assert_eq!(w.look(Some("\n".to_owned()), "/r"), None);
    assert!(matches!(w.next(false, None), Ready::Again));
    let sock = w.look(Some("utun5\n".to_owned()), "/r");
    assert_eq!(sock.as_deref(), Some("/r/utun5.sock"));
    assert!(matches!(
        w.next(false, Some("exit status: 1".to_owned())),
        Ready::Failed(e) if e == "amneziawg-go exited: exit status: 1"
    ));
    assert!(matches!(w.next(true, None), Ready::Up(n) if n == "utun5"));
    let mut w = Waiting::new();
    w.look(Some("utun5\n".to_owned()), "/r");
    for _ in 1..LOOKS {
        assert!(matches!(w.next(false, None), Ready::Again));
    }
    assert!(matches!(
        w.next(false, None),
        Ready::TimedOut(e) if e == "amneziawg-go not ready, interface Some(\"utun5\")"
    ));
}
