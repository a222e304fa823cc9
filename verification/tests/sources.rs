use mac_gate::config::{parse, RawList, RawRule, RawSettings, RawTunnel};
use mac_gate::degraded::SECOND;
use mac_gate::sources::{
    after_direct, after_tunnel, build, cache_file, check, due_in, fetch_args, places, Fetching,
    Stamp, Taken, Updater, Via, EVERY, HOUR, RETRY,
};

const NOW: u128 = 1000 * EVERY;

#[test]
fn cache_name_is_stable_and_per_url() {
    let d = "/c";
    assert_eq!(cache_file(d, "a"), cache_file(d, "a"));
    assert_ne!(cache_file(d, "a"), cache_file(d, "b"));
    // FNV-1a of the empty string is its offset basis.
    assert_eq!(cache_file(d, ""), "/c/cbf29ce484222325.lst");
    assert_eq!(cache_file(d, "a"), "/c/af63dc4c8601ec8c.lst");
}

#[test]
fn refuses_what_is_no_list() {
    assert!(check("404: Not Found").is_err());
    assert!(check("").is_err());
    assert!(check("<html>\n<body>\nnothing here\n</body>\n</html>\nx.org\n").is_err());
    assert_eq!(check("telegram.org\n149.154.160.0/20\n"), Ok(2));
    assert_eq!(check("# c\n.test\n"), Ok(1));
    assert_eq!(
        check("a b\nc d\nx.org\n"),
        Err("2 lines that are no entry against 1 entries".to_owned())
    );
    assert_eq!(check("a b\n"), Err("no entries".to_owned()));
}

#[test]
fn due_a_day_after_the_copy() {
    let now = NOW;
    assert_eq!(due_in(None, now), 0);
    assert_eq!(due_in(Some(now - EVERY * 2), now), 0);
    assert_eq!(due_in(Some(now - HOUR), now), 23 * HOUR);
}

fn text(s: &str) -> String {
    s.to_owned()
}

#[test]
fn builds_from_files_and_copies_and_names_the_missing() {
    let s = parse(RawSettings {
        watch: None,
        lists: vec![
            RawList {
                name: text("custom"),
                sources: vec![text("lists/custom.lst")],
            },
            RawList {
                name: text("telegram"),
                sources: vec![text("https://h/a.lst"), text("https://h/b.lst")],
            },
        ],
        tunnels: vec![RawTunnel {
            name: text("t"),
            conf: text("t.conf"),
        }],
        rules: vec![RawRule {
            name: text("r"),
            when: text("always"),
            lists: vec![text("custom"), text("telegram")],
            tunnels: vec![text("t")],
        }],
    })
    .unwrap();
    let at = places(&s, "/d", "/d/cache");
    assert_eq!(at.len(), 3);
    assert_eq!(at[0].path, "/d/lists/custom.lst");
    assert_eq!(at[1].path, cache_file("/d/cache", "https://h/a.lst"));
    let read = vec![
        Ok(text("example.com\n")),
        Ok(text("telegram.org\n")),
        Err(text("No such file or directory (os error 2)")),
    ];
    let (lists, missing) = build(&at, &read);
    assert_eq!(lists.match_domain("x.example.com"), ["custom"]);
    assert_eq!(lists.match_domain("telegram.org"), ["telegram"]);
    assert_eq!(missing.len(), 1);
    assert!(missing[0].starts_with("telegram https://h/b.lst: "));
}

#[test]
fn through_the_tunnel_then_directly() {
    assert!(matches!(
        after_tunnel(Some(Ok(text("x")))),
        Fetching::Done(t, Via::Tunnel) if t == "x"
    ));
    let Fetching::Direct(tried) = after_tunnel(Some(Err(text("no route")))) else {
        panic!("done");
    };
    assert_eq!(
        after_direct(tried, Err(text("timed out"))),
        Err(text("tunnel: no route; direct: timed out"))
    );
    let Fetching::Direct(tried) = after_tunnel(None) else {
        panic!("done");
    };
    assert_eq!(
        after_direct(tried, Ok(text("x"))),
        Ok((text("x"), Via::Direct))
    );
    let args = fetch_args("https://h/a", Some("utun4"));
    assert_eq!(args[..4], ["-f", "-s", "-S", "-L"]);
    assert_eq!(args[8..], ["--max-time", "60", "--max-filesize", "20000000", "--interface", "utun4", "https://h/a"]);
    assert_eq!(fetch_args("https://h/a", None).len(), 13);
}

fn updater() -> Updater {
    Updater::new(
        "/c",
        &vec![text("https://h/a"), text("https://h/b")],
        &vec![None, Some(NOW - HOUR)],
        vec![Stamp {
            path: text("/d/x.lst"),
            time: Some(5),
        }],
        NOW,
        7 * SECOND,
    )
}

#[test]
fn what_is_due_is_fetched_once() {
    let mut u = updater();
    let now = 7 * SECOND;
    assert_eq!(u.start(now), ["https://h/a"]);
    assert!(u.start(now + EVERY).is_empty());
    u.finish();
    assert!(u.start(now + HOUR - SECOND).is_empty());
    assert_eq!(u.start(now + HOUR), ["https://h/a"]);
    u.finish();
    assert_eq!(u.requested(now + 2 * HOUR), "sources update requested");
    assert_eq!(u.start(now + 2 * HOUR), ["https://h/a", "https://h/b"]);
}

#[test]
fn a_changed_file_is_noticed() {
    let mut u = updater();
    assert!(u.look(&vec![Some(5)]).is_empty());
    assert_eq!(u.look(&vec![Some(6)]), ["source /d/x.lst changed"]);
    assert!(u.look(&vec![Some(6)]).is_empty());
    assert_eq!(u.look(&vec![None]), ["source /d/x.lst changed"]);
}

#[test]
fn a_failed_fetch_leaves_the_copy() {
    let mut u = updater();
    let now = 7 * SECOND;
    assert!(matches!(
        u.take("https://h/a", &Err(text("x")), &None, now),
        Taken::Kept(l) if l == "source-fail https://h/a: x"
    ));
    assert!(matches!(
        u.take("https://h/a", &Ok((text("<p>\n"), Via::Direct)), &None, now),
        Taken::Kept(l) if l == "source-fail https://h/a: no entries"
    ));
    assert_eq!(u.due[0].1, now + RETRY);
    let got = Ok((text("x.org\n"), Via::Direct));
    match u.take("https://h/a", &got, &Some(text("x.org\n")), now) {
        Taken::Write { path, entries, new } => {
            assert_eq!(path, cache_file("/c", "https://h/a"));
            assert_eq!((entries, new), (1, false));
        }
        Taken::Kept(l) => panic!("{l}"),
    }
    assert_eq!(
        u.written("https://h/a", Via::Direct, 1, false, Ok(()), now),
        "source https://h/a via=direct entries=1 changed=false"
    );
    assert_eq!(u.due[0].1, now + EVERY);
    assert_eq!(
        u.written("https://h/a", Via::Direct, 1, true, Err(text("full")), now),
        "source-fail https://h/a: cache: full"
    );
    assert_eq!(u.due[0].1, now + RETRY);
}
