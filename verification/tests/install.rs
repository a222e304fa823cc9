use mac_gate::install::{
    answered, base_of, check_file, check_url, confirming, daemon_pattern, exit_wait, installed,
    link, not_started, plist, put_files, require_root, starting, tail, unlink, Confirming, Linking,
    Starting,
    CONFIRM_WAIT, EXIT_WAIT, READY_WAIT,
};
use mac_gate::config::{parse, RawList, RawRule, RawSettings, RawTunnel};
use mac_gate::degraded::SECOND;

#[test]
fn plist_is_valid() {
    let p = plist();
    assert!(p.contains("<string>--system-dns</string>"));
    assert!(p.contains("<string>/var/db/mac-gate/routes</string>"));
    assert!(p.contains(
        "<string>--config</string>\n        <string>/usr/local/etc/mac-gate/mac-gate.toml</string>"
    ));
    assert_eq!(base_of("a.toml"), ".");
    assert_eq!(base_of("/x/a.toml"), "/x");
}

#[test]
fn the_whole_plist() {
    assert_eq!(
        plist(),
        r#"<?xml version="1.0" encoding="UTF-8"?>
<!DOCTYPE plist PUBLIC "-//Apple//DTD PLIST 1.0//EN" "http://www.apple.com/DTDs/PropertyList-1.0.dtd">
<plist version="1.0">
<dict>
    <key>Label</key><string>mac-gate</string>
    <key>ProgramArguments</key>
    <array>
        <string>/usr/local/libexec/mac-gate/mac-gate</string>
        <string>run</string>
        <string>--config</string>
        <string>/usr/local/etc/mac-gate/mac-gate.toml</string>
        <string>--state</string>
        <string>/var/db/mac-gate/routes</string>
        <string>--journal</string>
        <string>/var/log/mac-gate.log</string>
        <string>--libexec</string>
        <string>/usr/local/libexec/mac-gate</string>
        <string>--system-dns</string>
    </array>
    <key>RunAtLoad</key><true/>
    <key>KeepAlive</key><true/>
    <key>ThrottleInterval</key><integer>1</integer>
    <key>ExitTimeOut</key><integer>60</integer>
    <key>StandardErrorPath</key><string>/var/log/mac-gate.err</string>
</dict>
</plist>
"#
    );
}

#[test]
fn tail_lines() {
    assert_eq!(tail("a\nb\nc\n", 2), "b\nc");
    assert_eq!(tail("a", 5), "a");
}

#[test]
fn directories_of_files() {
    for (file, dir) in [
        ("a/b.toml", "a"),
        ("/b.toml", "/"),
        ("a//b.toml", "a"),
        ("a/./b.toml", "a"),
        ("a/b/", "a"),
        ("a/b/.", "a"),
        ("./b", "."),
        ("../b", ".."),
        ("", "."),
        ("/", "."),
        (".", "."),
        ("..", "."),
    ] {
        assert_eq!(base_of(file), dir, "{file}");
    }
}

fn text(s: &str) -> String {
    s.to_owned()
}

#[test]
fn what_is_put_beside_the_settings() {
    let s = parse(RawSettings {
        watch: None,
        lists: vec![RawList {
            name: text("a"),
            sources: vec![text("https://h/x"), text("l/a.lst")],
        }],
        tunnels: vec![RawTunnel {
            name: text("t"),
            conf: text("t.conf"),
        }],
        rules: vec![RawRule {
            name: text("r"),
            when: text("always"),
            lists: vec![text("a")],
            tunnels: vec![text("t")],
        }],
    })
    .unwrap();
    let put: Vec<(String, u32)> = put_files(&s).into_iter().map(|p| (p.path, p.mode)).collect();
    assert_eq!(
        put,
        [(text("l/a.lst"), 0o644), (text("t.conf"), 0o600)]
    );
    assert_eq!(
        installed(&s, 2, 1),
        "installed: /usr/local/libexec/mac-gate; settings with 1 rules, 1 tunnels, 1 lists and 2 files in /usr/local/etc/mac-gate; 1 sources fetched"
    );
}

#[test]
fn bad_sources_fail_the_install() {
    assert_eq!(
        check_file("/d/a.lst", &Ok(text("x.org\n"))),
        Ok(text("source /d/a.lst: 1 entries"))
    );
    assert_eq!(
        check_file("/d/a.lst", &Ok(text(""))),
        Err(text("/d/a.lst: no entries"))
    );
    assert_eq!(
        check_file("/d/a.lst", &Err(text("gone"))),
        Err(text("/d/a.lst: gone"))
    );
    assert_eq!(
        check_url("https://h/a", &Ok(text("x.org\n")), false),
        Ok((text("source https://h/a: 1 entries"), true))
    );
    assert_eq!(
        check_url("https://h/a", &Err(text("no route")), true),
        Ok((text("source https://h/a: no route; the cached copy stays"), false))
    );
    assert_eq!(
        check_url("https://h/a", &Err(text("no route")), false),
        Err(text("source https://h/a: no route"))
    );
}

#[test]
fn the_command_on_the_path() {
    let ours = "/usr/local/libexec/mac-gate/mac-gate";
    assert_eq!(link(Some(ours), true), Linking::Done);
    assert_eq!(link(Some("/else"), true), Linking::Left);
    // The same path, written otherwise.
    let other = "/usr/local/libexec//mac-gate/./mac-gate/";
    assert_eq!(link(Some(other), true), Linking::Done);
    assert!(unlink(Some(other)));
    assert!(!unlink(Some("usr/local/libexec/mac-gate/mac-gate")));
    assert!(!unlink(Some("/usr/local/libexec/mac-gate/../mac-gate/mac-gate")));
    assert_eq!(link(None, true), Linking::Left);
    assert_eq!(link(None, false), Linking::Make);
    assert!(unlink(Some(ours)) && !unlink(Some("/else")) && !unlink(None));
    assert_eq!(daemon_pattern(), "/usr/local/libexec/mac-gate/mac-gate run .*");
    assert_eq!(require_root("0\n"), Ok(()));
    assert_eq!(require_root("501\n"), Err(text("run with sudo")));
}

#[test]
fn a_start_that_gets_no_answer_is_taken_back() {
    assert!(matches!(starting(READY_WAIT - 1), Starting::Ask));
    assert!(matches!(answered(false, READY_WAIT - 1), Starting::Again));
    assert!(matches!(
        starting(READY_WAIT),
        Starting::TakeBack(s) if s == "no answer on 127.0.0.1:53 in 30s; taking back"
    ));
    assert!(matches!(
        answered(true, 2 * SECOND),
        Starting::On(s) if s == "on: answers on 127.0.0.1:53 after 2000ms"
    ));
    assert_eq!(
        not_started("1 a\n", ""),
        "not started\njournal:\n1 a\nerrors:\n"
    );
    assert_eq!(exit_wait(true, 0), Ok(true));
    assert_eq!(exit_wait(false, EXIT_WAIT), Ok(false));
    assert_eq!(exit_wait(true, EXIT_WAIT), Err(text("the daemon does not exit")));
}

#[test]
fn the_first_tunnel_is_told() {
    let journal = "1 t: connect attempt=1\n2 dns set services=2\n3 t: confirm 12ms\n4 t: confirm 9ms\n";
    assert!(matches!(
        confirming(journal, 0),
        Confirming::Done(v) if v == ["tunnel: t: confirm 12ms", "dns set services=2"]
    ));
    assert!(matches!(confirming("1 t: connect\n", 0), Confirming::Again));
    assert!(matches!(
        confirming(journal, CONFIRM_WAIT),
        Confirming::Done(v) if v.len() == 1 && v[0].starts_with("tunnel not confirmed yet")
    ));
}
