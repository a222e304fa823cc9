use mac_gate::addr::Ipv4Addr;
use mac_gate::args::{parse_args, Args, Cmd};
use mac_gate::socket::SocketAddr;

fn cmd(s: &str) -> Result<Cmd, String> {
    let words: Vec<String> = s.split_whitespace().map(str::to_owned).collect();
    parse_args(&words)
}

fn resolve_args(s: &str) -> Args {
    match cmd(s).unwrap() {
        Cmd::Resolve(a) => a,
        _ => panic!("not resolve"),
    }
}

#[test]
fn parses_resolve_required_and_defaults() {
    let a = resolve_args("resolve --lists /l --tunnel utun4 --network-dns 192.168.1.1");
    assert_eq!(a.lists, "/l");
    assert_eq!(a.tunnel, "utun4");
    assert_eq!(a.network_dns, Ipv4Addr::new(192, 168, 1, 1));
    assert_eq!(a.tunnel_dns, Ipv4Addr::new(1, 1, 1, 1));
    assert_eq!(a.listen.to_string(), "127.0.0.1:5300");
    assert!(!a.use_fakeip);
    assert!(a.journal.is_none());
}

#[test]
fn parses_resolve_options() {
    let a = resolve_args(
        "resolve --use-fakeip --lists /l --tunnel utun9 --network-dns 10.0.0.1 \
         --tunnel-dns 9.9.9.9 --listen 127.0.0.1:53 --journal /j",
    );
    assert!(a.use_fakeip);
    assert_eq!(a.tunnel_dns, Ipv4Addr::new(9, 9, 9, 9));
    assert_eq!(a.listen.port(), 53);
    assert_eq!(a.journal, Some("/j".to_owned()));
}

#[test]
fn parses_run() {
    let Cmd::Run(c) = cmd("run --config /l --state /s --window-min 3").unwrap() else {
        panic!("not run");
    };
    assert_eq!(c.settings, "/l");
    assert_eq!(c.state, "/s");
    assert_eq!(c.listen.to_string(), "127.0.0.1:53");
    assert_eq!(c.libexec, "/usr/local/libexec/mac-gate");
    assert_eq!(c.window, 180);
    assert!(c.use_fakeip);
    let Cmd::Run(c) = cmd("run --config /l --state /s --use-fakeip off").unwrap() else {
        panic!("not run");
    };
    assert_eq!(c.window, 24 * 3600);
    assert!(!c.use_fakeip);
}

#[test]
fn parses_killswitch() {
    assert!(matches!(
        cmd("killswitch on --state /s/routes").unwrap(),
        Cmd::Killswitch { on: true, state } if state == "/s/routes"
    ));
    assert!(matches!(
        cmd("killswitch off --state /s/routes"),
        Ok(Cmd::Killswitch { on: false, .. })
    ));
    assert!(cmd("killswitch --state /s").is_err());
    assert!(matches!(
        cmd("killswitch on").unwrap(),
        Cmd::Killswitch { on: true, state } if state == "/var/db/mac-gate/routes"
    ));
    assert!(cmd("killswitch on --state").is_err());
    assert!(cmd("killswitch on --state /s extra").is_err());
}

#[test]
fn parses_country() {
    assert!(matches!(
        cmd("country de").unwrap(),
        Cmd::Country { code: Some(c), state } if c == "DE" && state == "/var/db/mac-gate/routes"
    ));
    assert!(matches!(
        cmd("country auto --state /s/routes").unwrap(),
        Cmd::Country { code: None, state } if state == "/s/routes"
    ));
    assert!(cmd("country").is_err());
    assert!(cmd("country RUS").is_err());
    assert!(cmd("country R1").is_err());
}

#[test]
fn parses_update() {
    assert!(matches!(
        cmd("update").unwrap(),
        Cmd::Update { state } if state == "/var/db/mac-gate/routes"
    ));
    assert!(matches!(
        cmd("update --state /s/routes").unwrap(),
        Cmd::Update { state } if state == "/s/routes"
    ));
    assert!(cmd("update now").is_err());
}

#[test]
fn parses_install_and_bare_commands() {
    assert!(matches!(
        cmd("install --awg /b/awg --awg-go /b/go --config /l").unwrap(),
        Cmd::Install(s) if s.config == "/l" && s.awg_go == "/b/go" && s.awg == "/b/awg"
    ));
    assert!(matches!(cmd("uninstall").unwrap(), Cmd::Uninstall));
    assert!(matches!(cmd("on").unwrap(), Cmd::On));
    assert!(matches!(cmd("off").unwrap(), Cmd::Off));
}

#[test]
fn parses_system_dns() {
    let Cmd::Run(c) = cmd("run --system-dns --config /l --state /s").unwrap() else {
        panic!("not run");
    };
    assert!(c.system_dns);
    let Cmd::Run(c) = cmd("run --config /l --state /s").unwrap() else {
        panic!("not run");
    };
    assert!(!c.system_dns);
}

#[test]
fn rejects_bad_input() {
    assert!(cmd("").is_err());
    assert!(cmd("serve").is_err());
    assert!(cmd("resolve --lists /l --tunnel utun4").is_err());
    assert!(cmd("resolve --lists /l --tunnel utun4 --network-dns x").is_err());
    assert!(cmd("resolve --lists").is_err());
    assert!(cmd("resolve --bogus 1").is_err());
    assert!(cmd("run --config /l").is_err());
    assert!(cmd("run --config /l --state /s --window-min x").is_err());
    assert!(cmd("run --lists /l --state /s").is_err());
    assert!(cmd("run --conf /c --config /l --state /s").is_err());
    assert!(cmd("run --use-fakeip").is_err());
    assert!(cmd("run --config /l --state /s --use-fakeip yes").is_err());
    assert!(cmd("off now").is_err());
    assert!(cmd("install --config /l --awg-go /g").is_err());
    assert!(cmd("install --lists /l --awg-go /g --awg /a").is_err());
    assert!(cmd("install --conf /c --config /l --awg-go /g --awg /a")
        .unwrap_err()
        .contains("[[tunnel]]"));
    assert!(cmd("install --config /l --bogus 1").is_err());
}

#[test]
fn says_what_is_wrong_with_the_arguments() {
    assert!(cmd("").unwrap_err().starts_with("usage:\n  mac-gate install "));
    assert!(cmd("resolve --lists")
        .unwrap_err()
        .starts_with("--lists needs a value\nusage:"));
    assert!(cmd("resolve --bogus 1")
        .unwrap_err()
        .starts_with("unknown argument --bogus\nusage:"));
    assert!(cmd("run --config /l")
        .unwrap_err()
        .starts_with("--state is required\nusage:"));
    assert_eq!(
        cmd("run --listen 1.2.3.4").unwrap_err(),
        "--listen: bad value 1.2.3.4"
    );
    assert!(cmd("country RUS")
        .unwrap_err()
        .starts_with("country: RUS is not a code of two letters\nusage:"));
    let Cmd::Run(c) = cmd("run --config /l --state /s --window-min 18446744073709551615").unwrap()
    else {
        panic!("not run");
    };
    assert_eq!(c.window, u64::MAX);
}

#[test]
fn addresses_with_a_port() {
    for ok in ["127.0.0.1:53", "[::1]:5300", "[fe80::1%4]:53", "0.0.0.0:00053"] {
        assert!(SocketAddr::parse(ok).is_some(), "{ok}");
    }
    for (written, shown) in [
        ("0.0.0.0:00053", "0.0.0.0:53"),
        ("[::]:53", "[::]:53"),
        ("[0:0:0:0:0:0:0:1]:53", "[::1]:53"),
        ("[2001:0DB8::0:1]:53", "[2001:db8::1]:53"),
        ("[1:0:0:2:0:0:0:3]:1", "[1:0:0:2::3]:1"),
        ("[1:0:0:2:3:0:0:4]:1", "[1::2:3:0:0:4]:1"),
        ("[1:0:2:3:4:5:6:7]:1", "[1:0:2:3:4:5:6:7]:1"),
        ("[1:2:3:4:5:6::]:1", "[1:2:3:4:5:6::]:1"),
        ("[1:2:3:4:5:6:7::]:1", "[1:2:3:4:5:6:7:0]:1"),
        ("[::1.2.3.4]:1", "[::102:304]:1"),
        ("[::FFFF:102:304]:5", "[::ffff:1.2.3.4]:5"),
        ("[fe80::1%4]:53", "[fe80::1%4]:53"),
        ("[fe80::1%007]:53", "[fe80::1%7]:53"),
        ("[fe80::1%0]:53", "[fe80::1]:53"),
    ] {
        let a = SocketAddr::parse(written).unwrap();
        assert_eq!(a.to_string(), shown);
    }
    for no in [
        "127.0.0.1",
        "127.0.0.1:",
        "127.0.0.1:+53",
        "127.0.0.1:65536",
        "::1:53",
        "[::1]",
        "[127.0.0.1]:53",
        "[::1%x]:53",
        "[1:2:3:4:5:6:7]:53",
        "[1:2:3:4:5:6:7:8::]:53",
        "[::12345]:53",
        "[1.2.3.4::]:53",
        "host:53",
        "",
    ] {
        assert!(SocketAddr::parse(no).is_none(), "{no}");
    }
}
