use mac_gate::config::{
    parse as parse_raw, RawList, RawRule, RawSettings, RawTunnel, RawWatch, Settings, Source, When,
};
use mac_gate::degraded::{self, MINUTE};

const GOOD: &str = r#"
[[list]]
name = "custom"
sources = ["lists/custom.lst"]

[[list]]
name = "telegram"
sources = [
  "https://example.org/Services/telegram.lst",
  "http://127.0.0.1:8765/telegram.lst",
]

[[list]]
name = "regional"
sources = ["https://example.org/Regional/outside-raw.lst"]

[[tunnel]]
name = "main"
conf = "main.conf"

[[tunnel]]
name = "backup"
conf = "tunnels/backup.conf"

[[tunnel]]
name = "other"
conf = "tunnels/other.conf"

[[rule]]
name = "pinned"
when = "always"
lists = ["custom"]
tunnels = ["main", "backup"]

[[rule]]
name = "bypass"
when = "DE"
lists = ["custom", "telegram"]
tunnels = ["main", "backup"]

[[rule]]
name = "abroad"
when = "!DE"
lists = ["regional"]
tunnels = ["other"]
"#;

fn known(t: &toml::Table, keys: &[&str]) -> Result<(), String> {
    for k in t.keys() {
        if !keys.contains(&k.as_str()) {
            return Err(format!("unknown field {k}"));
        }
    }
    Ok(())
}

fn text(t: &toml::Table, key: &str) -> Result<String, String> {
    let v = t.get(key).ok_or(format!("missing field {key}"))?;
    Ok(v.as_str().ok_or(format!("{key}: not a text"))?.to_owned())
}

fn texts(t: &toml::Table, key: &str) -> Result<Vec<String>, String> {
    let v = t.get(key).ok_or(format!("missing field {key}"))?;
    let mut out = Vec::new();
    for x in v.as_array().ok_or(format!("{key}: not a list"))? {
        out.push(x.as_str().ok_or(format!("{key}: not a text"))?.to_owned());
    }
    Ok(out)
}

fn tables(t: &toml::Table, key: &str) -> Result<Vec<toml::Table>, String> {
    let Some(v) = t.get(key) else {
        return Ok(Vec::new());
    };
    let mut out = Vec::new();
    for x in v.as_array().ok_or(format!("{key}: not a list"))? {
        out.push(x.as_table().ok_or(format!("{key}: not a table"))?.clone());
    }
    Ok(out)
}

/// The settings as the text writes them; a key nobody knows is an error.
fn raw(s: &str) -> Result<RawSettings, String> {
    let t: toml::Table = s.parse().map_err(|_| "not toml".to_owned())?;
    known(&t, &["watch", "list", "tunnel", "rule"])?;
    let watch = match t.get("watch") {
        None => None,
        Some(w) => {
            let w = w.as_table().ok_or("watch: not a table")?;
            known(w, &["degraded_grace"])?;
            let degraded_grace = match w.get("degraded_grace") {
                None => None,
                Some(v) => {
                    let n = v.as_integer().ok_or("degraded_grace: not a number")?;
                    Some(u64::try_from(n).map_err(|_| "degraded_grace: negative".to_owned())?)
                }
            };
            Some(RawWatch { degraded_grace })
        }
    };
    let mut lists = Vec::new();
    for l in tables(&t, "list")? {
        known(&l, &["name", "sources"])?;
        lists.push(RawList {
            name: text(&l, "name")?,
            sources: texts(&l, "sources")?,
        });
    }
    let mut tunnels = Vec::new();
    for l in tables(&t, "tunnel")? {
        known(&l, &["name", "conf"])?;
        tunnels.push(RawTunnel {
            name: text(&l, "name")?,
            conf: text(&l, "conf")?,
        });
    }
    let mut rules = Vec::new();
    for l in tables(&t, "rule")? {
        known(&l, &["name", "when", "lists", "tunnels"])?;
        rules.push(RawRule {
            name: text(&l, "name")?,
            when: text(&l, "when")?,
            lists: texts(&l, "lists")?,
            tunnels: texts(&l, "tunnels")?,
        });
    }
    Ok(RawSettings {
        watch,
        lists,
        tunnels,
        rules,
    })
}

fn parse(s: &str) -> Result<Settings, String> {
    parse_raw(raw(s)?)
}

#[test]
fn the_watchdog_settings_have_defaults() {
    assert_eq!(parse(GOOD).unwrap().degraded_grace, degraded::GRACE);
    let with = format!("[watch]\ndegraded_grace = 600\n{GOOD}");
    assert_eq!(parse(&with).unwrap().degraded_grace, 10 * MINUTE);
    // Zero is patience without end, not no patience at all.
    let none = format!("[watch]\ndegraded_grace = 0\n{GOOD}");
    assert_eq!(parse(&none).unwrap().degraded_grace, 0);
    // An empty table is the defaults; a key nobody knows is a mistake.
    assert_eq!(
        parse(&format!("[watch]\n{GOOD}")).unwrap().degraded_grace,
        degraded::GRACE
    );
    assert!(parse(&format!("[watch]\ngrace = 5\n{GOOD}")).is_err());
    assert!(parse(&format!("[watch]\ndegraded_grace = \"x\"\n{GOOD}")).is_err());
}

#[test]
fn lists_tunnels_and_rules_in_order() {
    let s = parse(GOOD).unwrap();
    let names: Vec<&str> = s.lists.iter().map(|l| l.name.as_str()).collect();
    assert_eq!(names, ["custom", "telegram", "regional"]);
    assert_eq!(s.lists[0].sources.len(), 1);
    assert!(matches!(&s.lists[0].sources[0], Source::File(p) if p == "lists/custom.lst"));
    assert_eq!(s.urls().len(), 3);
    assert_eq!(s.files(), ["lists/custom.lst"]);
    assert_eq!(s.tunnels[1].conf, "tunnels/backup.conf");
    let r: Vec<(&str, String, Vec<usize>)> = s
        .rules
        .iter()
        .map(|r| (r.name.as_str(), r.when.to_string(), r.tunnels.clone()))
        .collect();
    assert_eq!(
        r,
        [
            ("pinned", "always".to_owned(), vec![0, 1]),
            ("bypass", "DE".to_owned(), vec![0, 1]),
            ("abroad", "!DE".to_owned(), vec![2]),
        ]
    );
}

#[test]
fn conditions() {
    assert!(When::Always.holds("DE"));
    assert!(When::In("DE".to_owned()).holds("DE"));
    assert!(!When::In("DE".to_owned()).holds("FR"));
    assert!(When::Out("DE".to_owned()).holds("FR"));
    assert!(!When::Out("DE".to_owned()).holds("DE"));
    for bad in ["de", "DEU", "!", "!de", "", "D", "never"] {
        assert!(When::parse(bad).is_none(), "{bad}");
    }
    for good in ["always", "DE", "!DE"] {
        assert_eq!(When::parse(good).unwrap().to_string(), good);
    }
}

fn with(rules: &str) -> String {
    format!(
        "[[list]]\nname = \"a\"\nsources = [\"a.lst\"]\n\
         [[tunnel]]\nname = \"t\"\nconf = \"t.conf\"\n{rules}"
    )
}

const RULE: &str =
    "[[rule]]\nname = \"r\"\nwhen = \"always\"\nlists = [\"a\"]\ntunnels = [\"t\"]\n";

#[test]
fn refuses_bad_lists() {
    let one = |name: &str, src: &str| {
        format!("[[list]]\nname = \"{name}\"\nsources = [{src}]\n")
            + "[[tunnel]]\nname = \"t\"\nconf = \"t.conf\"\n"
            + &format!(
                "[[rule]]\nname = \"r\"\nwhen = \"always\"\nlists = [\"{name}\"]\ntunnels = [\"t\"]\n"
            )
    };
    assert!(parse("").is_err());
    assert!(parse(&one("a-b_1", "\"x.lst\"")).is_ok());
    assert!(parse(&one("a b", "\"x.lst\"")).is_err());
    assert!(parse(&one("", "\"x.lst\"")).is_err());
    assert!(parse(&one("a", "")).is_err());
    assert!(parse(&one("a", "\"/etc/x.lst\"")).is_err());
    assert!(parse(&one("a", "\"../x.lst\"")).is_err());
    assert!(parse(&one("a", "\"./x.lst\"")).is_err());
    assert!(parse(&one("a", "\"https://a b\"")).is_err());
    assert!(parse(&(one("a", "\"x.lst\"") + "update = 1\n")).is_err());
    let twice = with(RULE) + "[[list]]\nname = \"a\"\nsources = [\"y.lst\"]\n";
    assert!(parse(&twice).unwrap_err().contains("named twice"));
}

#[test]
fn refuses_bad_tunnels_and_rules() {
    assert!(parse(&with(RULE)).is_ok());
    assert!(parse(&with("")).unwrap_err().contains("no [[rule]]"));
    let bad = |rule: &str| parse(&with(rule)).unwrap_err();
    assert!(bad(&RULE.replace("always", "ru")).contains("when"));
    assert!(bad(&RULE.replace("[\"a\"]", "[]")).contains("no lists"));
    assert!(bad(&RULE.replace("[\"t\"]", "[]")).contains("no tunnels"));
    assert!(bad(&RULE.replace("[\"a\"]", "[\"b\"]")).contains("no list b"));
    assert!(bad(&RULE.replace("[\"t\"]", "[\"t\", \"t\"]")).contains("twice"));
    assert!(bad(&(RULE.to_owned() + RULE)).contains("named twice"));
    let unused = with(RULE) + "[[tunnel]]\nname = \"u\"\nconf = \"u.conf\"\n";
    assert!(parse(&unused).unwrap_err().contains("tunnel u: in no rule"));
    let unused = with(RULE) + "[[list]]\nname = \"b\"\nsources = [\"b.lst\"]\n";
    assert!(parse(&unused).unwrap_err().contains("list b: in no rule"));
    let same = with(RULE) + "[[tunnel]]\nname = \"u\"\nconf = \"t.conf\"\n";
    assert!(parse(&same).unwrap_err().contains("used twice"));
    let outside = with(RULE).replace("t.conf", "../t.conf");
    assert!(parse(&outside).is_err());
    assert!(parse(&(with(RULE) + "[[tunnel]]\nname = \"u\"\n")).is_err());
}

#[test]
fn a_bad_name_is_quoted() {
    let s = with(RULE).replace("name = \"a\"", "name = \"a\\nb\"");
    assert!(parse(&s).unwrap_err().contains("list name \"a\\nb\": letters"));
}
