//! The settings: the lists and where each takes its entries from, the
//! tunnels, and the rules that send lists into tunnels.
//!
//! A list is one or more sources, read in order and merged: a file beside
//! the settings, or a URL fetched from time to time. A tunnel is an
//! awg-quick file beside the settings. A rule takes lists into its tunnels,
//! the first while it carries and the rest in reserve, when its condition
//! holds; a name in the lists of two rules goes to the one written first.

use vstd::prelude::*;
use vstd::string::*;

use crate::degraded::{GRACE, SECOND};
use crate::lists::is_word;
use crate::text::{after_of, among, chars_of, is_space, quote, same, split_of, starts_of};

verus! {

/// The settings as they are written.
#[derive(Debug)]
pub struct RawSettings {
    pub watch: Option<RawWatch>,
    pub lists: Vec<RawList>,
    pub tunnels: Vec<RawTunnel>,
    pub rules: Vec<RawRule>,
}

/// What the watchdog is told; every key has a default.
#[derive(Debug)]
pub struct RawWatch {
    /// Seconds a degraded tunnel is left alone; 0 - for as long as it
    /// takes.
    pub degraded_grace: Option<u64>,
}

#[derive(Debug)]
pub struct RawList {
    pub name: String,
    pub sources: Vec<String>,
}

#[derive(Debug)]
pub struct RawTunnel {
    pub name: String,
    pub conf: String,
}

#[derive(Debug)]
pub struct RawRule {
    pub name: String,
    pub when: String,
    pub lists: Vec<String>,
    pub tunnels: Vec<String>,
}

#[derive(Debug)]
pub enum Source {
    /// A path relative to the directory of the settings, never out of it:
    /// the installed settings find their files beside them.
    File(String),
    Url(String),
}

#[derive(Debug)]
pub struct List {
    pub name: String,
    pub sources: Vec<Source>,
}

#[derive(Debug)]
pub struct Tunnel {
    pub name: String,
    /// Beside the settings, as a file source.
    pub conf: String,
}

/// When a rule is in force, by the country of the direct address.
#[derive(Debug)]
pub enum When {
    Always,
    /// In this country, a code of two capital letters.
    In(String),
    /// Anywhere but in this country.
    Out(String),
}

#[derive(Debug)]
pub struct Rule {
    pub name: String,
    pub when: When,
    /// Names of lists.
    pub lists: Vec<String>,
    /// Indices into the tunnels of the settings, in the order of priority.
    pub tunnels: Vec<usize>,
}

/// No default: zero `degraded_grace` means patience without end, which is
/// not what an empty value should stand for.
#[derive(Debug)]
pub struct Settings {
    pub lists: Vec<List>,
    pub tunnels: Vec<Tunnel>,
    pub rules: Vec<Rule>,
    /// How long a tunnel that the peer still answers through, while no
    /// probe gets past it, is left alone, in nanoseconds; zero - for as
    /// long as it takes.
    pub degraded_grace: u128,
}

// ---------------------------------------------------------------------
// The same as mathematical values.
// ---------------------------------------------------------------------

pub type Text = Seq<char>;

pub struct WrittenList {
    pub name: Text,
    pub sources: Seq<Text>,
}

pub struct WrittenTunnel {
    pub name: Text,
    pub conf: Text,
}

pub struct WrittenRule {
    pub name: Text,
    pub when: Text,
    pub lists: Seq<Text>,
    pub tunnels: Seq<Text>,
}

pub struct Written {
    pub grace: Option<u64>,
    pub lists: Seq<WrittenList>,
    pub tunnels: Seq<WrittenTunnel>,
    pub rules: Seq<WrittenRule>,
}

pub enum Origin {
    File(Text),
    Url(Text),
}

pub struct Feed {
    pub name: Text,
    pub sources: Seq<Origin>,
}

pub enum Condition {
    Always,
    In(Text),
    Out(Text),
}

pub struct Routing {
    pub name: Text,
    pub when: Condition,
    pub lists: Seq<Text>,
    pub tunnels: Seq<int>,
}

pub struct Plan {
    pub lists: Seq<Feed>,
    pub tunnels: Seq<WrittenTunnel>,
    pub rules: Seq<Routing>,
    pub grace: int,
}

impl RawList {
    pub open spec fn view(&self) -> WrittenList {
        WrittenList { name: self.name@, sources: crate::text::seen(self.sources@) }
    }
}

impl RawTunnel {
    pub open spec fn view(&self) -> WrittenTunnel {
        WrittenTunnel { name: self.name@, conf: self.conf@ }
    }
}

impl RawRule {
    pub open spec fn view(&self) -> WrittenRule {
        WrittenRule {
            name: self.name@,
            when: self.when@,
            lists: crate::text::seen(self.lists@),
            tunnels: crate::text::seen(self.tunnels@),
        }
    }
}

impl RawSettings {
    pub open spec fn view(&self) -> Written {
        Written {
            grace: match self.watch {
                Some(w) => w.degraded_grace,
                None => None,
            },
            lists: self.lists@.map_values(|l: RawList| l@),
            tunnels: self.tunnels@.map_values(|t: RawTunnel| t@),
            rules: self.rules@.map_values(|r: RawRule| r@),
        }
    }
}

impl Source {
    pub open spec fn view(&self) -> Origin {
        match self {
            Source::File(p) => Origin::File(p@),
            Source::Url(u) => Origin::Url(u@),
        }
    }

    /// The path or the URL.
    pub open spec fn shown(&self) -> Text {
        match self {
            Source::File(p) => p@,
            Source::Url(u) => u@,
        }
    }

    pub fn to_string(&self) -> (r: String)
        ensures
            r@ == self.shown(),
    {
        match self {
            Source::File(p) => p.clone(),
            Source::Url(u) => u.clone(),
        }
    }
}

impl List {
    pub open spec fn view(&self) -> Feed {
        Feed { name: self.name@, sources: self.sources@.map_values(|s: Source| s@) }
    }
}

impl Tunnel {
    pub open spec fn view(&self) -> WrittenTunnel {
        WrittenTunnel { name: self.name@, conf: self.conf@ }
    }
}

impl Rule {
    pub open spec fn view(&self) -> Routing {
        Routing {
            name: self.name@,
            when: self.when@,
            lists: crate::text::seen(self.lists@),
            tunnels: self.tunnels@.map_values(|i: usize| i as int),
        }
    }
}

impl Settings {
    pub open spec fn view(&self) -> Plan {
        Plan {
            lists: self.lists@.map_values(|l: List| l@),
            tunnels: self.tunnels@.map_values(|t: Tunnel| t@),
            rules: self.rules@.map_values(|r: Rule| r@),
            grace: self.degraded_grace as int,
        }
    }
}

// ---------------------------------------------------------------------
// Conditions.
// ---------------------------------------------------------------------

/// Two capital letters.
pub open spec fn country_code(s: Text) -> bool {
    s.len() == 2 && crate::text::capital(s[0]) && crate::text::capital(s[1])
}

pub open spec fn condition(s: Text) -> Option<Condition> {
    if s == "always"@ {
        Some(Condition::Always)
    } else {
        match crate::text::after(s, "!"@) {
            Some(c) => if country_code(c) {
                Some(Condition::Out(c))
            } else {
                None
            },
            None => if country_code(s) {
                Some(Condition::In(s))
            } else {
                None
            },
        }
    }
}

fn is_country_code(s: &str) -> (r: bool)
    ensures
        r == country_code(s@),
{
    let v = chars_of(s);
    v.len() == 2 && 'A' <= v[0] && v[0] <= 'Z' && 'A' <= v[1] && v[1] <= 'Z'
}

impl Condition {
    pub open spec fn holds(self, country: Text) -> bool {
        match self {
            Condition::Always => true,
            Condition::In(c) => c == country,
            Condition::Out(c) => c != country,
        }
    }

    pub open spec fn shown(self) -> Text {
        match self {
            Condition::Always => "always"@,
            Condition::In(c) => c,
            Condition::Out(c) => "!"@ + c,
        }
    }
}

impl When {
    pub open spec fn view(&self) -> Condition {
        match self {
            When::Always => Condition::Always,
            When::In(c) => Condition::In(c@),
            When::Out(c) => Condition::Out(c@),
        }
    }

    pub fn parse(text: &str) -> (r: Option<Self>)
        ensures
            match r {
                Some(w) => condition(text@) == Some(w@),
                None => condition(text@) is None,
            },
    {
        if same(text, "always") {
            return Some(When::Always);
        }
        match after_of(text, "!") {
            Some(c) => if is_country_code(c.as_str()) {
                Some(When::Out(c))
            } else {
                None
            },
            None => if is_country_code(text) {
                Some(When::In(text.to_owned()))
            } else {
                None
            },
        }
    }

    pub fn holds(&self, country: &str) -> (r: bool)
        ensures
            r == self@.holds(country@),
    {
        match self {
            When::Always => true,
            When::In(c) => same(c.as_str(), country),
            When::Out(c) => !same(c.as_str(), country),
        }
    }

    pub fn to_string(&self) -> (r: String)
        ensures
            r@ == self@.shown(),
    {
        match self {
            When::Always => "always".to_owned(),
            When::In(c) => c.clone(),
            When::Out(c) => {
                let mut s = "!".to_owned();
                s.append(c.as_str());
                s
            },
        }
    }
}

// ---------------------------------------------------------------------
// Paths and sources.
// ---------------------------------------------------------------------

/// The components of a path: what stands between slashes, but for nothing
/// and for single dots.
pub open spec fn components(pieces: Seq<Text>) -> Seq<Text>
    decreases pieces.len(),
{
    if pieces.len() == 0 {
        seq![]
    } else {
        let rest = components(pieces.drop_last());
        if pieces.last().len() == 0 || pieces.last() == "."@ {
            rest
        } else {
            rest.push(pieces.last())
        }
    }
}

pub open spec fn path(s: Text) -> Seq<Text> {
    components(crate::text::split(s, '/'))
}

/// A path that cannot lead out of the directory it starts from: it begins
/// with neither a slash nor a dot of its own, and never goes up.
pub open spec fn below(s: Text) -> bool {
    let p = crate::text::split(s, '/');
    &&& p[0].len() > 0
    &&& p[0] != "."@
    &&& !p.contains(".."@)
}

fn is_below(s: &str) -> (r: bool)
    ensures
        r == below(s@),
{
    let p = split_of(s, '/');
    proof {
        assert(crate::text::pieces(s@, crate::text::one('/')).len() >= 1);
        assert(crate::text::seen(p@)[0] == p@[0]@);
    }
    !p[0].as_str().is_empty() && !same(p[0].as_str(), ".") && !among(&p, "..")
}

fn path_of(s: &str) -> (r: Vec<String>)
    ensures
        crate::text::seen(r@) == path(s@),
{
    let p = split_of(s, '/');
    let ghost all = crate::text::seen(p@);
    let mut r: Vec<String> = Vec::new();
    let mut i: usize = 0;
    proof {
        assert(all.take(0) =~= seq![]);
        assert(crate::text::seen(r@) =~= seq![]);
    }
    while i < p.len()
        invariant
            i <= p@.len(),
            all == crate::text::seen(p@),
            crate::text::seen(r@) == components(all.take(i as int)),
        decreases p@.len() - i,
    {
        if !p[i].as_str().is_empty() && !same(p[i].as_str(), ".") {
            let s = p[i].clone();
            proof {
                crate::text::lemma_seen_push(r@, s);
            }
            r.push(s);
        }
        i += 1;
        proof {
            let now = all.take(i as int);
            assert(now.drop_last() =~= all.take(i - 1));
            assert(now.last() == p@[i - 1]@);
        }
    }
    proof {
        assert(all.take(i as int) =~= all);
    }
    r
}

/// The same path, however it is written.
pub fn same_path(a: &str, b: &str) -> (r: bool)
    ensures
        r == (path(a@) == path(b@)),
{
    let p = path_of(a);
    let q = path_of(b);
    let ghost x = crate::text::seen(p@);
    let ghost y = crate::text::seen(q@);
    if p.len() != q.len() {
        proof {
            assert(x.len() != y.len());
        }
        return false;
    }
    let mut i: usize = 0;
    while i < p.len()
        invariant
            i <= p@.len(),
            p@.len() == q@.len(),
            x == crate::text::seen(p@),
            y == crate::text::seen(q@),
            x == path(a@),
            y == path(b@),
            forall|j: int| 0 <= j < i ==> x[j] == y[j],
        decreases p@.len() - i,
    {
        if !same(p[i].as_str(), q[i].as_str()) {
            proof {
                assert(x[i as int] != y[i as int]);
            }
            return false;
        }
        i += 1;
    }
    proof {
        assert(x =~= y);
    }
    true
}

pub open spec fn url(s: Text) -> bool {
    crate::text::starts(s, "https://"@) || crate::text::starts(s, "http://"@)
}

pub open spec fn spaced(s: Text) -> bool {
    exists|i: int| 0 <= i < s.len() && crate::text::space(#[trigger] s[i])
}

fn has_space(s: &str) -> (r: bool)
    ensures
        r == spaced(s@),
{
    let v = chars_of(s);
    let mut i: usize = 0;
    while i < v.len()
        invariant
            i <= v@.len(),
            v@ == s@,
            forall|j: int| 0 <= j < i ==> !crate::text::space(#[trigger] v@[j]),
        decreases v@.len() - i,
    {
        if is_space(v[i]) {
            return true;
        }
        i += 1;
    }
    false
}

pub open spec fn file_fault(s: Text) -> Option<Text> {
    if below(s) {
        None
    } else {
        Some("a file is a path below the settings directory"@)
    }
}

/// What is wrong with a source.
pub open spec fn source_fault(s: Text) -> Option<Text> {
    if url(s) {
        if spaced(s) {
            Some("a URL has no spaces"@)
        } else {
            None
        }
    } else {
        file_fault(s)
    }
}

pub open spec fn origin(s: Text) -> Origin {
    if url(s) {
        Origin::Url(s)
    } else {
        Origin::File(s)
    }
}

pub fn source(text: &str) -> (r: Result<Source, &'static str>)
    ensures
        match r {
            Ok(s) => source_fault(text@) is None && s@ == origin(text@),
            Err(e) => source_fault(text@) == Some(e@),
        },
{
    if starts_of(text, "https://") || starts_of(text, "http://") {
        if has_space(text) {
            return Err("a URL has no spaces");
        }
        return Ok(Source::Url(text.to_owned()));
    }
    match file(text) {
        Ok(p) => Ok(Source::File(p)),
        Err(e) => Err(e),
    }
}

pub fn file(text: &str) -> (r: Result<String, &'static str>)
    ensures
        match r {
            Ok(p) => file_fault(text@) is None && p@ == text@,
            Err(e) => file_fault(text@) == Some(e@),
        },
{
    if !is_below(text) {
        return Err("a file is a path below the settings directory");
    }
    Ok(text.to_owned())
}

// ---------------------------------------------------------------------
// What is wrong with the settings.
// ---------------------------------------------------------------------

/// The first fault of `f` from `from` on.
pub open spec fn first_fault(f: spec_fn(int) -> Option<Text>, from: int, n: int) -> Option<Text>
    decreases n - from,
{
    if from >= n {
        None
    } else if f(from) is Some {
        f(from)
    } else {
        first_fault(f, from + 1, n)
    }
}

proof fn lemma_first_fault(f: spec_fn(int) -> Option<Text>, from: int, at: int, n: int)
    requires
        from <= at < n,
        forall|j: int| from <= j < at ==> (#[trigger] f(j)) is None,
        f(at) is Some,
    ensures
        first_fault(f, from, n) == f(at),
    decreases at - from,
{
    if from < at {
        lemma_first_fault(f, from + 1, at, n);
    }
}

proof fn lemma_no_fault(f: spec_fn(int) -> Option<Text>, from: int, n: int)
    ensures
        (forall|j: int| from <= j < n ==> (#[trigger] f(j)) is None) <==> first_fault(f, from, n) is None,
    decreases n - from,
{
    if from < n {
        lemma_no_fault(f, from + 1, n);
        if f(from) is None {
            assert forall|j: int| from <= j < n && first_fault(
                f,
                from,
                n,
            ) is None implies (#[trigger] f(j)) is None by {}
        }
    }
}

pub open spec fn good_name(s: Text) -> bool {
    &&& 0 < s.len() <= 64
    &&& forall|i: int| 0 <= i < s.len() ==> crate::lists::word_char(#[trigger] s[i])
}

/// A name goes into the state file and the journal as one word, and is
/// given once.
pub open spec fn name_fault(kind: Text, name: Text, before: Seq<Text>) -> Option<Text> {
    if !good_name(name) {
        Some(kind + " name "@ + crate::text::quoted(name) + ": letters, digits, _ and - only"@)
    } else if before.contains(name) {
        Some(kind + " "@ + name + ": named twice"@)
    } else {
        None
    }
}

fn name(kind: &str, given: &str, seen: &mut Vec<String>) -> (r: Result<(), String>)
    ensures
        match r {
            Ok(()) => name_fault(kind@, given@, crate::text::seen(old(seen)@)) is None
                && crate::text::seen(final(seen)@) == crate::text::seen(old(seen)@).push(given@),
            Err(e) => name_fault(kind@, given@, crate::text::seen(old(seen)@)) == Some(e@)
                && final(seen)@ == old(seen)@,
        },
{
    let n = chars_of(given).len();
    if n == 0 || n > 64 || !is_word(given) {
        let mut e = kind.to_owned();
        e.append(" name ");
        e.append(quote(given).as_str());
        e.append(": letters, digits, _ and - only");
        return Err(e);
    }
    if among(seen, given) {
        let mut e = kind.to_owned();
        e.append(" ");
        e.append(given);
        e.append(": named twice");
        return Err(e);
    }
    let s = given.to_owned();
    proof {
        crate::text::lemma_seen_push(seen@, s);
    }
    seen.push(s);
    Ok(())
}

pub open spec fn list_names(l: Seq<WrittenList>) -> Seq<Text> {
    l.map_values(|l: WrittenList| l.name)
}

pub open spec fn tunnel_names(t: Seq<WrittenTunnel>) -> Seq<Text> {
    t.map_values(|t: WrittenTunnel| t.name)
}

pub open spec fn rule_names(r: Seq<WrittenRule>) -> Seq<Text> {
    r.map_values(|r: WrittenRule| r.name)
}

pub open spec fn source_faults(l: WrittenList, j: int) -> Option<Text> {
    match source_fault(l.sources[j]) {
        Some(e) => Some("list "@ + l.name + ": "@ + l.sources[j] + ": "@ + e),
        None => None,
    }
}

pub open spec fn list_fault(l: Seq<WrittenList>, i: int) -> Option<Text> {
    match name_fault("list"@, l[i].name, list_names(l.take(i))) {
        Some(e) => Some(e),
        None => if l[i].sources.len() == 0 {
            Some("list "@ + l[i].name + ": no sources"@)
        } else {
            first_fault(|j: int| source_faults(l[i], j), 0, l[i].sources.len() as int)
        },
    }
}

/// Two tunnels with one key: the server keeps one of them.
pub open spec fn conf_used(t: Seq<WrittenTunnel>, i: int) -> bool {
    exists|j: int| 0 <= j < i && path(#[trigger] t[j].conf) == path(t[i].conf)
}

pub open spec fn tunnel_fault(t: Seq<WrittenTunnel>, i: int) -> Option<Text> {
    match name_fault("tunnel"@, t[i].name, tunnel_names(t.take(i))) {
        Some(e) => Some(e),
        None => match file_fault(t[i].conf) {
            Some(e) => Some("tunnel "@ + t[i].name + ": "@ + t[i].conf + ": "@ + e),
            None => if conf_used(t, i) {
                Some("tunnel "@ + t[i].name + ": "@ + t[i].conf + " used twice"@)
            } else {
                None
            },
        },
    }
}

/// Every name once, and each of the known ones.
pub open spec fn ref_fault(
    rule: Text,
    kind: Text,
    names: Seq<Text>,
    known: Seq<Text>,
    j: int,
) -> Option<Text> {
    if !known.contains(names[j]) {
        Some("rule "@ + rule + ": no "@ + kind + " "@ + names[j])
    } else if names.take(j).contains(names[j]) {
        Some("rule "@ + rule + ": "@ + kind + " "@ + names[j] + " twice"@)
    } else {
        None
    }
}

pub open spec fn refs_fault(
    rule: Text,
    kind: Text,
    names: Seq<Text>,
    known: Seq<Text>,
) -> Option<Text> {
    if names.len() == 0 {
        Some("rule "@ + rule + ": no "@ + kind + "s"@)
    } else {
        first_fault(|j: int| ref_fault(rule, kind, names, known, j), 0, names.len() as int)
    }
}

fn refs(rule: &str, kind: &str, names: &Vec<String>, known: &Vec<String>) -> (r: Result<(), String>)
    ensures
        match r {
            Ok(()) => refs_fault(
                rule@,
                kind@,
                crate::text::seen(names@),
                crate::text::seen(known@),
            ) is None,
            Err(e) => refs_fault(
                rule@,
                kind@,
                crate::text::seen(names@),
                crate::text::seen(known@),
            ) == Some(e@),
        },
{
    if names.len() == 0 {
        let mut e = "rule ".to_owned();
        e.append(rule);
        e.append(": no ");
        e.append(kind);
        e.append("s");
        return Err(e);
    }
    let ghost all = crate::text::seen(names@);
    let ghost f = |j: int| ref_fault(rule@, kind@, all, crate::text::seen(known@), j);
    let mut seen: Vec<String> = Vec::new();
    let mut i: usize = 0;
    proof {
        assert(crate::text::seen(seen@) =~= all.take(0));
    }
    while i < names.len()
        invariant
            i <= names@.len(),
            all == crate::text::seen(names@),
            f == (|j: int| ref_fault(rule@, kind@, all, crate::text::seen(known@), j)),
            refs_fault(rule@, kind@, all, crate::text::seen(known@)) == first_fault(
                f,
                0,
                all.len() as int,
            ),
            crate::text::seen(seen@) == all.take(i as int),
            forall|j: int| 0 <= j < i ==> (#[trigger] f(j)) is None,
        decreases names@.len() - i,
    {
        let n = names[i].as_str();
        proof {
            assert(all[i as int] == n@);
        }
        if !among(known, n) {
            let mut e = "rule ".to_owned();
            e.append(rule);
            e.append(": no ");
            e.append(kind);
            e.append(" ");
            e.append(n);
            proof {
                lemma_first_fault(f, 0, i as int, all.len() as int);
            }
            return Err(e);
        }
        if among(&seen, n) {
            let mut e = "rule ".to_owned();
            e.append(rule);
            e.append(": ");
            e.append(kind);
            e.append(" ");
            e.append(n);
            e.append(" twice");
            proof {
                lemma_first_fault(f, 0, i as int, all.len() as int);
            }
            return Err(e);
        }
        let s = names[i].clone();
        proof {
            crate::text::lemma_seen_push(seen@, s);
            assert(all.take(i + 1) =~= all.take(i as int).push(all[i as int]));
        }
        seen.push(s);
        i += 1;
    }
    proof {
        lemma_no_fault(f, 0, all.len() as int);
    }
    Ok(())
}

pub open spec fn rule_fault(w: Written, i: int) -> Option<Text> {
    let r = w.rules[i];
    match name_fault("rule"@, r.name, rule_names(w.rules.take(i))) {
        Some(e) => Some(e),
        None => if condition(r.when) is None {
            Some(
                "rule "@ + r.name + ": when "@ + crate::text::quoted(r.when)
                    + ": \"always\", a country code such as \"RU\", or \"!RU\""@,
            )
        } else {
            match refs_fault(r.name, "list"@, r.lists, list_names(w.lists)) {
                Some(e) => Some(e),
                None => refs_fault(r.name, "tunnel"@, r.tunnels, tunnel_names(w.tunnels)),
            }
        },
    }
}

/// Some rule takes the list.
pub open spec fn list_used(w: Written, name: Text) -> bool {
    exists|i: int| 0 <= i < w.rules.len() && (#[trigger] w.rules[i]).lists.contains(name)
}

/// Some rule takes the tunnel.
pub open spec fn tunnel_used(w: Written, name: Text) -> bool {
    exists|i: int| 0 <= i < w.rules.len() && (#[trigger] w.rules[i]).tunnels.contains(name)
}

/// What no rule takes would be fetched, or kept up, for nothing.
pub open spec fn unused_list(w: Written, i: int) -> Option<Text> {
    if list_used(w, w.lists[i].name) {
        None
    } else {
        Some("list "@ + w.lists[i].name + ": in no rule"@)
    }
}

pub open spec fn unused_tunnel(w: Written, i: int) -> Option<Text> {
    if tunnel_used(w, w.tunnels[i].name) {
        None
    } else {
        Some("tunnel "@ + w.tunnels[i].name + ": in no rule"@)
    }
}

pub open spec fn lists_fault(l: Seq<WrittenList>) -> Option<Text> {
    first_fault(|i: int| list_fault(l, i), 0, l.len() as int)
}

pub open spec fn tunnels_fault(t: Seq<WrittenTunnel>) -> Option<Text> {
    first_fault(|i: int| tunnel_fault(t, i), 0, t.len() as int)
}

pub open spec fn rules_fault(w: Written) -> Option<Text> {
    first_fault(|i: int| rule_fault(w, i), 0, w.rules.len() as int)
}

pub open spec fn unused_lists(w: Written) -> Option<Text> {
    first_fault(|i: int| unused_list(w, i), 0, w.lists.len() as int)
}

pub open spec fn unused_tunnels(w: Written) -> Option<Text> {
    first_fault(|i: int| unused_tunnel(w, i), 0, w.tunnels.len() as int)
}

/// What is wrong with the settings, the first thing there is.
pub open spec fn fault(w: Written) -> Option<Text> {
    if w.lists.len() == 0 {
        Some("no [[list]]"@)
    } else if w.tunnels.len() == 0 {
        Some("no [[tunnel]]"@)
    } else if w.rules.len() == 0 {
        Some("no [[rule]]"@)
    } else if lists_fault(w.lists) is Some {
        lists_fault(w.lists)
    } else if tunnels_fault(w.tunnels) is Some {
        tunnels_fault(w.tunnels)
    } else if rules_fault(w) is Some {
        rules_fault(w)
    } else if unused_lists(w) is Some {
        unused_lists(w)
    } else {
        unused_tunnels(w)
    }
}

// ---------------------------------------------------------------------
// What they come to.
// ---------------------------------------------------------------------

pub open spec fn feed(l: WrittenList) -> Feed {
    Feed { name: l.name, sources: l.sources.map_values(|s: Text| origin(s)) }
}

pub open spec fn routing(r: WrittenRule, known: Seq<Text>) -> Routing {
    Routing {
        name: r.name,
        when: condition(r.when)->0,
        lists: r.lists,
        tunnels: r.tunnels.map_values(|t: Text| known.index_of(t)),
    }
}

pub open spec fn plan(w: Written) -> Plan {
    Plan {
        lists: w.lists.map_values(|l: WrittenList| feed(l)),
        tunnels: w.tunnels,
        rules: w.rules.map_values(|r: WrittenRule| routing(r, tunnel_names(w.tunnels))),
        grace: match w.grace {
            Some(s) => s * SECOND,
            None => GRACE as int,
        },
    }
}


fn sources_of(l: &RawList) -> (r: Result<Vec<Source>, String>)
    ensures
        match r {
            Ok(v) => first_fault(
                |j: int| source_faults(l@, j),
                0,
                l@.sources.len() as int,
            ) is None && v@.map_values(|s: Source| s@) == feed(l@).sources,
            Err(e) => first_fault(|j: int| source_faults(l@, j), 0, l@.sources.len() as int)
                == Some(e@),
        },
{
    let mut sources: Vec<Source> = Vec::new();
    let ghost f = |j: int| source_faults(l@, j);
    let mut i: usize = 0;
    while i < l.sources.len()
        invariant
            i <= l.sources@.len(),
            f == (|j: int| source_faults(l@, j)),
            forall|j: int| 0 <= j < i ==> (#[trigger] f(j)) is None,
            sources@.len() == i,
            forall|j: int| 0 <= j < i ==> (#[trigger] sources@[j])@ == feed(l@).sources[j],
        decreases l.sources@.len() - i,
    {
        proof {
            assert(l@.sources[i as int] == l.sources@[i as int]@);
        }
        match source(l.sources[i].as_str()) {
            Ok(s) => {
                sources.push(s);
            },
            Err(why) => {
                let mut e = "list ".to_owned();
                e.append(l.name.as_str());
                e.append(": ");
                e.append(l.sources[i].as_str());
                e.append(": ");
                e.append(why);
                proof {
                    lemma_first_fault(f, 0, i as int, l@.sources.len() as int);
                }
                return Err(e);
            },
        }
        i += 1;
    }
    proof {
        lemma_no_fault(f, 0, l@.sources.len() as int);
        assert(sources@.map_values(|s: Source| s@) =~= feed(l@).sources);
    }
    Ok(sources)
}

fn lists_of(raw: &Vec<RawList>) -> (r: Result<Vec<List>, String>)
    ensures
        match r {
            Ok(v) => lists_fault(raw@.map_values(|l: RawList| l@)) is None && v@.map_values(
                |l: List| l@,
            ) == raw@.map_values(|l: RawList| l@).map_values(|l: WrittenList| feed(l)),
            Err(e) => lists_fault(raw@.map_values(|l: RawList| l@)) == Some(e@),
        },
{
    let ghost w = raw@.map_values(|l: RawList| l@);
    let ghost f = |i: int| list_fault(w, i);
    let mut seen: Vec<String> = Vec::new();
    let mut lists: Vec<List> = Vec::new();
    let mut i: usize = 0;
    proof {
        assert(crate::text::seen(seen@) =~= list_names(w.take(0)));
    }
    while i < raw.len()
        invariant
            i <= raw@.len(),
            w == raw@.map_values(|l: RawList| l@),
            f == (|i: int| list_fault(w, i)),
            forall|j: int| 0 <= j < i ==> (#[trigger] f(j)) is None,
            crate::text::seen(seen@) == list_names(w.take(i as int)),
            lists@.len() == i,
            forall|j: int| 0 <= j < i ==> (#[trigger] lists@[j])@ == feed(w[j]),
        decreases raw@.len() - i,
    {
        let l = &raw[i];
        proof {
            assert(w[i as int] == l@);
        }
        if let Err(e) = name("list", l.name.as_str(), &mut seen) {
            proof {
                lemma_first_fault(f, 0, i as int, w.len() as int);
            }
            return Err(e);
        }
        if l.sources.len() == 0 {
            let mut e = "list ".to_owned();
            e.append(l.name.as_str());
            e.append(": no sources");
            proof {
                lemma_first_fault(f, 0, i as int, w.len() as int);
            }
            return Err(e);
        }
        match sources_of(l) {
            Ok(sources) => {
                lists.push(List { name: l.name.clone(), sources });
            },
            Err(e) => {
                proof {
                    lemma_first_fault(f, 0, i as int, w.len() as int);
                }
                return Err(e);
            },
        }
        i += 1;
        proof {
            assert(list_names(w.take(i as int)) =~= list_names(w.take(i - 1)).push(w[i - 1].name));
        }
    }
    proof {
        lemma_no_fault(f, 0, w.len() as int);
        assert(lists@.map_values(|l: List| l@) =~= w.map_values(|l: WrittenList| feed(l)));
    }
    Ok(lists)
}

fn tunnels_of(raw: &Vec<RawTunnel>) -> (r: Result<Vec<Tunnel>, String>)
    ensures
        match r {
            Ok(v) => tunnels_fault(raw@.map_values(|t: RawTunnel| t@)) is None && v@.map_values(
                |t: Tunnel| t@,
            ) == raw@.map_values(|t: RawTunnel| t@),
            Err(e) => tunnels_fault(raw@.map_values(|t: RawTunnel| t@)) == Some(e@),
        },
{
    let ghost w = raw@.map_values(|t: RawTunnel| t@);
    let ghost f = |i: int| tunnel_fault(w, i);
    let mut seen: Vec<String> = Vec::new();
    let mut tunnels: Vec<Tunnel> = Vec::new();
    let mut i: usize = 0;
    proof {
        assert(crate::text::seen(seen@) =~= tunnel_names(w.take(0)));
    }
    while i < raw.len()
        invariant
            i <= raw@.len(),
            w == raw@.map_values(|t: RawTunnel| t@),
            f == (|i: int| tunnel_fault(w, i)),
            forall|j: int| 0 <= j < i ==> (#[trigger] f(j)) is None,
            crate::text::seen(seen@) == tunnel_names(w.take(i as int)),
            tunnels@.len() == i,
            forall|j: int| 0 <= j < i ==> (#[trigger] tunnels@[j])@ == w[j],
        decreases raw@.len() - i,
    {
        let t = &raw[i];
        proof {
            assert(w[i as int] == t@);
        }
        if let Err(e) = name("tunnel", t.name.as_str(), &mut seen) {
            proof {
                lemma_first_fault(f, 0, i as int, w.len() as int);
            }
            return Err(e);
        }
        let conf = match file(t.conf.as_str()) {
            Ok(conf) => conf,
            Err(why) => {
                let mut e = "tunnel ".to_owned();
                e.append(t.name.as_str());
                e.append(": ");
                e.append(t.conf.as_str());
                e.append(": ");
                e.append(why);
                proof {
                    lemma_first_fault(f, 0, i as int, w.len() as int);
                }
                return Err(e);
            },
        };
        if conf_taken(&tunnels, conf.as_str()) {
            let mut e = "tunnel ".to_owned();
            e.append(t.name.as_str());
            e.append(": ");
            e.append(t.conf.as_str());
            e.append(" used twice");
            proof {
                let j = choose|j: int|
                    0 <= j < tunnels@.len() && path((#[trigger] tunnels@[j])@.conf) == path(conf@);
                assert(path(w[j].conf) == path(w[i as int].conf));
                lemma_first_fault(f, 0, i as int, w.len() as int);
            }
            return Err(e);
        }
        proof {
            if conf_used(w, i as int) {
                let j = choose|j: int| 0 <= j < i && path(#[trigger] w[j].conf) == path(
                    w[i as int].conf,
                );
                assert(path(tunnels@[j]@.conf) == path(conf@));
            }
        }
        tunnels.push(Tunnel { name: t.name.clone(), conf });
        i += 1;
        proof {
            assert(tunnel_names(w.take(i as int)) =~= tunnel_names(w.take(i - 1)).push(
                w[i - 1].name,
            ));
        }
    }
    proof {
        lemma_no_fault(f, 0, w.len() as int);
        assert(tunnels@.map_values(|t: Tunnel| t@) =~= w);
    }
    Ok(tunnels)
}

fn conf_taken(tunnels: &Vec<Tunnel>, conf: &str) -> (r: bool)
    ensures
        r == exists|j: int|
            0 <= j < tunnels@.len() && path((#[trigger] tunnels@[j])@.conf) == path(conf@),
{
    let mut i: usize = 0;
    while i < tunnels.len()
        invariant
            i <= tunnels@.len(),
            forall|j: int| 0 <= j < i ==> path((#[trigger] tunnels@[j])@.conf) != path(conf@),
        decreases tunnels@.len() - i,
    {
        if same_path(tunnels[i].conf.as_str(), conf) {
            proof {
                assert(path(tunnels@[i as int]@.conf) == path(conf@));
            }
            return true;
        }
        i += 1;
    }
    false
}

/// Where each of the names stands among the known ones.
fn places(names: &Vec<String>, known: &Vec<String>) -> (r: Vec<usize>)
    requires
        crate::text::seen(known@).no_duplicates(),
        forall|j: int|
            0 <= j < names@.len() ==> crate::text::seen(known@).contains(
                #[trigger] crate::text::seen(names@)[j],
            ),
    ensures
        r@.map_values(|i: usize| i as int) == crate::text::seen(names@).map_values(
            |t: Text| crate::text::seen(known@).index_of(t),
        ),
{
    let ghost k = crate::text::seen(known@);
    let ghost n = crate::text::seen(names@);
    let mut r: Vec<usize> = Vec::new();
    let mut i: usize = 0;
    while i < names.len()
        invariant
            i <= names@.len(),
            k == crate::text::seen(known@),
            n == crate::text::seen(names@),
            k.no_duplicates(),
            forall|j: int| 0 <= j < names@.len() ==> k.contains(#[trigger] n[j]),
            r@.len() == i,
            forall|j: int| 0 <= j < i ==> #[trigger] r@[j] == k.index_of(n[j]),
        decreases names@.len() - i,
    {
        let ghost at = k.index_of(n[i as int]);
        proof {
            assert(k.contains(n[i as int]));
            assert(n[i as int] == names@[i as int]@);
            assert(0 <= at < k.len() && k[at] == n[i as int]);
        }
        let most = known.len();
        let mut j: usize = 0;
        while !same(known[j].as_str(), names[i].as_str())
            invariant
                j <= at < most,
                most == known@.len(),
                i < names@.len(),
                k == crate::text::seen(known@),
                k[at] == names@[i as int]@,
            decreases at - j,
        {
            proof {
                assert(k[j as int] == known@[j as int]@);
                assert(j != at);
            }
            j += 1;
        }
        proof {
            assert(k[j as int] == known@[j as int]@);
            assert(j == at);
        }
        r.push(j);
        i += 1;
    }
    proof {
        assert(r@.map_values(|i: usize| i as int) =~= n.map_values(|t: Text| k.index_of(t)));
    }
    r
}

proof fn lemma_names_once(w: Seq<WrittenTunnel>)
    requires
        tunnels_fault(w) is None,
    ensures
        tunnel_names(w).no_duplicates(),
{
    let f = |i: int| tunnel_fault(w, i);
    lemma_no_fault(f, 0, w.len() as int);
    let n = tunnel_names(w);
    assert forall|i: int, j: int| 0 <= i < j < n.len() implies n[i] != n[j] by {
        assert(f(j) is None);
        assert(tunnel_names(w.take(j))[i] == n[i]);
    }
}

proof fn lemma_refs_known(rule: Text, kind: Text, names: Seq<Text>, known: Seq<Text>)
    requires
        refs_fault(rule, kind, names, known) is None,
    ensures
        names.len() > 0,
        names.no_duplicates(),
        forall|j: int| 0 <= j < names.len() ==> known.contains(#[trigger] names[j]),
{
    let f = |j: int| ref_fault(rule, kind, names, known, j);
    lemma_no_fault(f, 0, names.len() as int);
    assert forall|j: int| 0 <= j < names.len() implies known.contains(#[trigger] names[j]) by {
        assert(f(j) is None);
    }
    assert forall|i: int, j: int| 0 <= i < j < names.len() implies names[i] != names[j] by {
        assert(f(j) is None);
        assert(names.take(j)[i] == names[i]);
    }
}

fn rules_of(
    raw: &Vec<RawRule>,
    lists: &Vec<String>,
    tunnels: &Vec<String>,
    Ghost(w): Ghost<Written>,
) -> (r: Result<Vec<Rule>, String>)
    requires
        w.rules == raw@.map_values(|r: RawRule| r@),
        list_names(w.lists) == crate::text::seen(lists@),
        tunnel_names(w.tunnels) == crate::text::seen(tunnels@),
        tunnels_fault(w.tunnels) is None,
    ensures
        match r {
            Ok(v) => rules_fault(w) is None && v@.map_values(|r: Rule| r@) == plan(w).rules,
            Err(e) => rules_fault(w) == Some(e@),
        },
{
    let ghost f = |i: int| rule_fault(w, i);
    let mut seen: Vec<String> = Vec::new();
    let mut rules: Vec<Rule> = Vec::new();
    let mut i: usize = 0;
    proof {
        lemma_names_once(w.tunnels);
        assert(crate::text::seen(seen@) =~= rule_names(w.rules.take(0)));
    }
    while i < raw.len()
        invariant
            i <= raw@.len(),
            w.rules == raw@.map_values(|r: RawRule| r@),
            list_names(w.lists) == crate::text::seen(lists@),
            tunnel_names(w.tunnels) == crate::text::seen(tunnels@),
            tunnel_names(w.tunnels).no_duplicates(),
            f == (|i: int| rule_fault(w, i)),
            forall|j: int| 0 <= j < i ==> (#[trigger] f(j)) is None,
            crate::text::seen(seen@) == rule_names(w.rules.take(i as int)),
            rules@.len() == i,
            forall|j: int|
                0 <= j < i ==> (#[trigger] rules@[j])@ == routing(
                    w.rules[j],
                    tunnel_names(w.tunnels),
                ),
        decreases raw@.len() - i,
    {
        let r = &raw[i];
        proof {
            assert(w.rules[i as int] == r@);
        }
        if let Err(e) = name("rule", r.name.as_str(), &mut seen) {
            proof {
                lemma_first_fault(f, 0, i as int, w.rules.len() as int);
            }
            return Err(e);
        }
        let when = match When::parse(r.when.as_str()) {
            Some(when) => when,
            None => {
                let mut e = "rule ".to_owned();
                e.append(r.name.as_str());
                e.append(": when ");
                e.append(quote(r.when.as_str()).as_str());
                e.append(": \"always\", a country code such as \"RU\", or \"!RU\"");
                proof {
                    lemma_first_fault(f, 0, i as int, w.rules.len() as int);
                }
                return Err(e);
            },
        };
        if let Err(e) = refs(r.name.as_str(), "list", &r.lists, lists) {
            proof {
                lemma_first_fault(f, 0, i as int, w.rules.len() as int);
            }
            return Err(e);
        }
        if let Err(e) = refs(r.name.as_str(), "tunnel", &r.tunnels, tunnels) {
            proof {
                lemma_first_fault(f, 0, i as int, w.rules.len() as int);
            }
            return Err(e);
        }
        proof {
            lemma_refs_known(r@.name, "tunnel"@, r@.tunnels, tunnel_names(w.tunnels));
        }
        let order = places(&r.tunnels, tunnels);
        let rule = Rule {
            name: r.name.clone(),
            when,
            lists: crate::text::copies(&r.lists),
            tunnels: order,
        };
        proof {
            assert(rule@ == routing(r@, tunnel_names(w.tunnels)));
        }
        rules.push(rule);
        i += 1;
        proof {
            assert(rule_names(w.rules.take(i as int)) =~= rule_names(w.rules.take(i - 1)).push(
                w.rules[i - 1].name,
            ));
        }
    }
    proof {
        lemma_no_fault(f, 0, w.rules.len() as int);
        assert(rules@.map_values(|r: Rule| r@) =~= plan(w).rules);
    }
    Ok(rules)
}

fn some_rule_lists(rules: &Vec<Rule>, name: &str) -> (r: bool)
    ensures
        r == exists|i: int|
            0 <= i < rules@.len() && (#[trigger] rules@[i])@.lists.contains(name@),
{
    let mut i: usize = 0;
    while i < rules.len()
        invariant
            i <= rules@.len(),
            forall|j: int| 0 <= j < i ==> !(#[trigger] rules@[j])@.lists.contains(name@),
        decreases rules@.len() - i,
    {
        if among(&rules[i].lists, name) {
            proof {
                assert(rules@[i as int]@.lists.contains(name@));
            }
            return true;
        }
        i += 1;
    }
    false
}

/// `v` has `x`.
pub fn has_index(v: &Vec<usize>, x: usize) -> (r: bool)
    ensures
        r == v@.contains(x),
{
    let mut i: usize = 0;
    while i < v.len()
        invariant
            i <= v@.len(),
            forall|j: int| 0 <= j < i ==> v@[j] != x,
        decreases v@.len() - i,
    {
        if v[i] == x {
            return true;
        }
        i += 1;
    }
    false
}

fn some_rule_takes(rules: &Vec<Rule>, tunnel: usize) -> (r: bool)
    ensures
        r == exists|i: int| 0 <= i < rules@.len() && (#[trigger] rules@[i]).tunnels@.contains(tunnel),
{
    let mut i: usize = 0;
    while i < rules.len()
        invariant
            i <= rules@.len(),
            forall|j: int| 0 <= j < i ==> !(#[trigger] rules@[j]).tunnels@.contains(tunnel),
        decreases rules@.len() - i,
    {
        if has_index(&rules[i].tunnels, tunnel) {
            return true;
        }
        i += 1;
    }
    false
}

/// A rule whose tunnels are all known has the index of a tunnel exactly
/// when it has its name.
proof fn lemma_index_is_name(rule: Rule, r: WrittenRule, known: Seq<Text>, at: usize)
    requires
        rule@ == routing(r, known),
        known.no_duplicates(),
        at < known.len(),
        forall|j: int| 0 <= j < r.tunnels.len() ==> known.contains(#[trigger] r.tunnels[j]),
    ensures
        rule.tunnels@.contains(at) <==> r.tunnels.contains(known[at as int]),
{
    let t = rule.tunnels@.map_values(|i: usize| i as int);
    assert(t == rule@.tunnels);
    assert(t.len() == r.tunnels.len());
    if rule.tunnels@.contains(at) {
        let j = choose|j: int| 0 <= j < rule.tunnels@.len() && rule.tunnels@[j] == at;
        assert(t[j] == at);
        assert(known.index_of(r.tunnels[j]) == at);
        assert(known.contains(r.tunnels[j]));
        assert(known[at as int] == r.tunnels[j]);
    }
    if r.tunnels.contains(known[at as int]) {
        let j = choose|j: int| 0 <= j < r.tunnels.len() && r.tunnels[j] == known[at as int];
        assert(known.contains(r.tunnels[j]));
        assert(known[known.index_of(r.tunnels[j])] == known[at as int]);
        assert(t[j] == known.index_of(r.tunnels[j]));
        assert(rule.tunnels@[j] == at);
    }
}

fn check_lists_used(lists: &Vec<String>, rules: &Vec<Rule>, Ghost(w): Ghost<Written>) -> (r: Result<
    (),
    String,
>)
    requires
        rules@.map_values(|r: Rule| r@) == plan(w).rules,
        list_names(w.lists) == crate::text::seen(lists@),
    ensures
        match r {
            Ok(()) => unused_lists(w) is None,
            Err(e) => unused_lists(w) == Some(e@),
        },
{
    let ghost f = |i: int| unused_list(w, i);
    let mut i: usize = 0;
    proof {
        assert(list_names(w.lists).len() == w.lists.len());
    }
    while i < lists.len()
        invariant
            i <= lists@.len(),
            lists@.len() == w.lists.len(),
            rules@.map_values(|r: Rule| r@) == plan(w).rules,
            list_names(w.lists) == crate::text::seen(lists@),
            f == (|i: int| unused_list(w, i)),
            forall|j: int| 0 <= j < i ==> (#[trigger] f(j)) is None,
        decreases lists@.len() - i,
    {
        let l = lists[i].as_str();
        let used = some_rule_lists(rules, l);
        proof {
            let v = rules@.map_values(|r: Rule| r@);
            assert(list_names(w.lists)[i as int] == w.lists[i as int].name);
            assert(crate::text::seen(lists@)[i as int] == l@);
            assert(v.len() == w.rules.len());
            assert forall|j: int| 0 <= j < w.rules.len() implies (#[trigger] rules@[j])@.lists
                == w.rules[j].lists by {
                assert(v[j] == rules@[j]@);
                assert(plan(w).rules[j].lists == w.rules[j].lists);
            }
            if list_used(w, l@) {
                let j = choose|j: int|
                    0 <= j < w.rules.len() && (#[trigger] w.rules[j]).lists.contains(l@);
                assert(rules@[j]@.lists.contains(l@));
            }
            if used {
                let j = choose|j: int|
                    0 <= j < rules@.len() && (#[trigger] rules@[j])@.lists.contains(l@);
                assert(w.rules[j].lists.contains(l@));
            }
            assert(used == list_used(w, l@));
        }
        if !used {
            let mut e = "list ".to_owned();
            e.append(l);
            e.append(": in no rule");
            proof {
                lemma_first_fault(f, 0, i as int, w.lists.len() as int);
            }
            return Err(e);
        }
        i += 1;
    }
    proof {
        lemma_no_fault(f, 0, w.lists.len() as int);
    }
    Ok(())
}

fn check_tunnels_used(
    tunnels: &Vec<String>,
    rules: &Vec<Rule>,
    Ghost(w): Ghost<Written>,
) -> (r: Result<(), String>)
    requires
        rules@.map_values(|r: Rule| r@) == plan(w).rules,
        tunnel_names(w.tunnels) == crate::text::seen(tunnels@),
        tunnels_fault(w.tunnels) is None,
        rules_fault(w) is None,
    ensures
        match r {
            Ok(()) => unused_tunnels(w) is None,
            Err(e) => unused_tunnels(w) == Some(e@),
        },
{
    let ghost f = |i: int| unused_tunnel(w, i);
    let ghost known = tunnel_names(w.tunnels);
    let mut i: usize = 0;
    proof {
        lemma_names_once(w.tunnels);
        lemma_rules_known(w);
        assert(known.len() == w.tunnels.len());
    }
    while i < tunnels.len()
        invariant
            i <= tunnels@.len(),
            tunnels@.len() == w.tunnels.len(),
            known == tunnel_names(w.tunnels),
            known.no_duplicates(),
            forall|j: int, k: int|
                0 <= j < w.rules.len() && 0 <= k < w.rules[j].tunnels.len() ==> known.contains(
                    #[trigger] w.rules[j].tunnels[k],
                ),
            rules@.map_values(|r: Rule| r@) == plan(w).rules,
            known == crate::text::seen(tunnels@),
            f == (|i: int| unused_tunnel(w, i)),
            forall|j: int| 0 <= j < i ==> (#[trigger] f(j)) is None,
        decreases tunnels@.len() - i,
    {
        let t = tunnels[i].as_str();
        let used = some_rule_takes(rules, i);
        proof {
            let v = rules@.map_values(|r: Rule| r@);
            assert(known[i as int] == w.tunnels[i as int].name);
            assert(crate::text::seen(tunnels@)[i as int] == t@);
            assert(v.len() == w.rules.len());
            assert forall|j: int| 0 <= j < w.rules.len() implies (#[trigger] rules@[j])@ == routing(
                w.rules[j],
                known,
            ) by {
                assert(v[j] == rules@[j]@);
                assert(plan(w).rules[j] == routing(w.rules[j], known));
            }
            if tunnel_used(w, t@) {
                let j = choose|j: int|
                    0 <= j < w.rules.len() && (#[trigger] w.rules[j]).tunnels.contains(t@);
                lemma_index_is_name(rules@[j], w.rules[j], known, i);
                assert(rules@[j].tunnels@.contains(i));
            }
            if used {
                let j = choose|j: int|
                    0 <= j < rules@.len() && (#[trigger] rules@[j]).tunnels@.contains(i);
                lemma_index_is_name(rules@[j], w.rules[j], known, i);
                assert(w.rules[j].tunnels.contains(t@));
            }
            assert(used == tunnel_used(w, t@));
        }
        if !used {
            let mut e = "tunnel ".to_owned();
            e.append(t);
            e.append(": in no rule");
            proof {
                lemma_first_fault(f, 0, i as int, w.tunnels.len() as int);
            }
            return Err(e);
        }
        i += 1;
    }
    proof {
        lemma_no_fault(f, 0, w.tunnels.len() as int);
    }
    Ok(())
}

proof fn lemma_rules_known(w: Written)
    requires
        rules_fault(w) is None,
    ensures
        forall|j: int, k: int|
            0 <= j < w.rules.len() && 0 <= k < w.rules[j].tunnels.len() ==> tunnel_names(
                w.tunnels,
            ).contains(#[trigger] w.rules[j].tunnels[k]),
{
    let f = |i: int| rule_fault(w, i);
    lemma_no_fault(f, 0, w.rules.len() as int);
    assert forall|j: int, k: int|
        0 <= j < w.rules.len() && 0 <= k < w.rules[j].tunnels.len() implies tunnel_names(
        w.tunnels,
    ).contains(#[trigger] w.rules[j].tunnels[k]) by {
        assert(f(j) is None);
        lemma_refs_known(
            w.rules[j].name,
            "tunnel"@,
            w.rules[j].tunnels,
            tunnel_names(w.tunnels),
        );
    }
}

fn names_of_lists(lists: &Vec<List>) -> (r: Vec<String>)
    ensures
        crate::text::seen(r@) == lists@.map_values(|l: List| l.name@),
{
    let mut r: Vec<String> = Vec::new();
    let mut i: usize = 0;
    while i < lists.len()
        invariant
            i <= lists@.len(),
            r@.len() == i,
            forall|j: int| 0 <= j < i ==> (#[trigger] r@[j])@ == lists@[j].name@,
        decreases lists@.len() - i,
    {
        r.push(lists[i].name.clone());
        i += 1;
    }
    proof {
        assert(crate::text::seen(r@) =~= lists@.map_values(|l: List| l.name@));
    }
    r
}

fn names_of_tunnels(tunnels: &Vec<Tunnel>) -> (r: Vec<String>)
    ensures
        crate::text::seen(r@) == tunnels@.map_values(|t: Tunnel| t.name@),
{
    let mut r: Vec<String> = Vec::new();
    let mut i: usize = 0;
    while i < tunnels.len()
        invariant
            i <= tunnels@.len(),
            r@.len() == i,
            forall|j: int| 0 <= j < i ==> (#[trigger] r@[j])@ == tunnels@[j].name@,
        decreases tunnels@.len() - i,
    {
        r.push(tunnels[i].name.clone());
        i += 1;
    }
    proof {
        assert(crate::text::seen(r@) =~= tunnels@.map_values(|t: Tunnel| t.name@));
    }
    r
}

/// The settings that are written, or the first thing wrong with them.
pub fn parse(raw: RawSettings) -> (r: Result<Settings, String>)
    ensures
        match r {
            Ok(s) => fault(raw@) is None && s@ == plan(raw@) && s@.sound(),
            Err(e) => fault(raw@) == Some(e@),
        },
{
    let ghost w = raw@;
    let seconds = match &raw.watch {
        Some(watch) => watch.degraded_grace,
        None => None,
    };
    let degraded_grace: u128 = match seconds {
        Some(s) => s as u128 * SECOND,
        None => GRACE,
    };
    if raw.lists.len() == 0 {
        return Err("no [[list]]".to_owned());
    }
    if raw.tunnels.len() == 0 {
        return Err("no [[tunnel]]".to_owned());
    }
    if raw.rules.len() == 0 {
        return Err("no [[rule]]".to_owned());
    }
    let lists = match lists_of(&raw.lists) {
        Ok(lists) => lists,
        Err(e) => {
            return Err(e);
        },
    };
    let tunnels = match tunnels_of(&raw.tunnels) {
        Ok(tunnels) => tunnels,
        Err(e) => {
            return Err(e);
        },
    };
    let list_names = names_of_lists(&lists);
    let tunnel_names = names_of_tunnels(&tunnels);
    proof {
        let v = lists@.map_values(|l: List| l@);
        let fed = w.lists.map_values(|l: WrittenList| feed(l));
        assert(v == fed);
        assert(v.len() == lists@.len() && fed.len() == w.lists.len());
        assert forall|i: int| 0 <= i < lists@.len() implies (#[trigger] lists@[i]).name@
            == w.lists[i].name by {
            assert(v[i] == lists@[i]@);
            assert(fed[i] == feed(w.lists[i]));
        }
        assert(crate::text::seen(list_names@) =~= crate::config::list_names(w.lists));
        let u = tunnels@.map_values(|t: Tunnel| t@);
        assert forall|i: int| 0 <= i < tunnels@.len() implies (#[trigger] tunnels@[i]).name@
            == w.tunnels[i].name by {
            assert(u[i] == tunnels@[i]@);
        }
        assert(crate::text::seen(tunnel_names@) =~= crate::config::tunnel_names(w.tunnels));
    }
    let rules = match rules_of(&raw.rules, &list_names, &tunnel_names, Ghost(w)) {
        Ok(rules) => rules,
        Err(e) => {
            return Err(e);
        },
    };
    if let Err(e) = check_lists_used(&list_names, &rules, Ghost(w)) {
        return Err(e);
    }
    if let Err(e) = check_tunnels_used(&tunnel_names, &rules, Ghost(w)) {
        return Err(e);
    }
    proof {
        lemma_accepted_settings_are_sound(w);
    }
    Ok(Settings { lists, tunnels, rules, degraded_grace })
}

/// The URLs of the sources, in order.
pub open spec fn source_urls(s: Seq<Origin>) -> Seq<Text>
    decreases s.len(),
{
    if s.len() == 0 {
        seq![]
    } else {
        match s.last() {
            Origin::Url(u) => source_urls(s.drop_last()).push(u),
            Origin::File(_) => source_urls(s.drop_last()),
        }
    }
}

/// The files of the sources, in order.
pub open spec fn source_files(s: Seq<Origin>) -> Seq<Text>
    decreases s.len(),
{
    if s.len() == 0 {
        seq![]
    } else {
        match s.last() {
            Origin::File(p) => source_files(s.drop_last()).push(p),
            Origin::Url(_) => source_files(s.drop_last()),
        }
    }
}

/// The sources of every list, in order.
pub open spec fn all_sources(l: Seq<Feed>) -> Seq<Origin>
    decreases l.len(),
{
    if l.len() == 0 {
        seq![]
    } else {
        all_sources(l.drop_last()) + l.last().sources
    }
}

impl Settings {
    /// The sources of every list, in order.
    fn sources(&self) -> (r: Vec<&Source>)
        ensures
            r@.map_values(|s: &Source| s@) == all_sources(self@.lists),
    {
        let mut r: Vec<&Source> = Vec::new();
        let ghost l = self@.lists;
        let mut i: usize = 0;
        proof {
            assert(l.take(0) =~= seq![]);
            assert(r@.map_values(|s: &Source| s@) =~= seq![]);
        }
        while i < self.lists.len()
            invariant
                i <= self.lists@.len(),
                l == self@.lists,
                r@.map_values(|s: &Source| s@) == all_sources(l.take(i as int)),
            decreases self.lists@.len() - i,
        {
            let ghost before = r@.map_values(|s: &Source| s@);
            let ghost here = self.lists@[i as int]@.sources;
            let mut j: usize = 0;
            proof {
                assert(before + here.take(0) =~= before);
            }
            while j < self.lists[i].sources.len()
                invariant
                    i < self.lists@.len(),
                    j <= self.lists@[i as int].sources@.len(),
                    here == self.lists@[i as int]@.sources,
                    r@.map_values(|s: &Source| s@) == before + here.take(j as int),
                decreases self.lists@[i as int].sources@.len() - j,
            {
                let ghost had = r@;
                r.push(&self.lists[i].sources[j]);
                j += 1;
                proof {
                    assert(r@.map_values(|s: &Source| s@) =~= had.map_values(
                        |s: &Source| s@,
                    ).push(here[j - 1]));
                    assert(here.take(j as int) =~= here.take(j - 1).push(here[j - 1]));
                    assert(before + here.take(j as int) =~= (before + here.take(j - 1)).push(
                        here[j - 1],
                    ));
                }
            }
            i += 1;
            proof {
                assert(here.take(j as int) =~= here);
                assert(l.take(i as int).drop_last() =~= l.take(i - 1));
                assert(l.take(i as int).last() == self.lists@[i - 1]@);
            }
        }
        proof {
            assert(l.take(i as int) =~= l);
        }
        r
    }

    /// The URLs of every list, in order.
    pub fn urls(&self) -> (r: Vec<String>)
        ensures
            crate::text::seen(r@) == source_urls(all_sources(self@.lists)),
    {
        let sources = self.sources();
        let ghost all = sources@.map_values(|s: &Source| s@);
        let mut r: Vec<String> = Vec::new();
        let mut i: usize = 0;
        proof {
            assert(all.take(0) =~= seq![]);
            assert(crate::text::seen(r@) =~= seq![]);
        }
        while i < sources.len()
            invariant
                i <= sources@.len(),
                all == sources@.map_values(|s: &Source| s@),
                crate::text::seen(r@) == source_urls(all.take(i as int)),
            decreases sources@.len() - i,
        {
            proof {
                assert(all.take(i + 1).drop_last() =~= all.take(i as int));
                assert(all.take(i + 1).last() == sources@[i as int]@);
            }
            if let Source::Url(u) = sources[i] {
                let s = u.clone();
                proof {
                    crate::text::lemma_seen_push(r@, s);
                }
                r.push(s);
            }
            i += 1;
        }
        proof {
            assert(all.take(i as int) =~= all);
        }
        r
    }

    /// The files of every list, in order.
    pub fn files(&self) -> (r: Vec<String>)
        ensures
            crate::text::seen(r@) == source_files(all_sources(self@.lists)),
    {
        let sources = self.sources();
        let ghost all = sources@.map_values(|s: &Source| s@);
        let mut r: Vec<String> = Vec::new();
        let mut i: usize = 0;
        proof {
            assert(all.take(0) =~= seq![]);
            assert(crate::text::seen(r@) =~= seq![]);
        }
        while i < sources.len()
            invariant
                i <= sources@.len(),
                all == sources@.map_values(|s: &Source| s@),
                crate::text::seen(r@) == source_files(all.take(i as int)),
            decreases sources@.len() - i,
        {
            proof {
                assert(all.take(i + 1).drop_last() =~= all.take(i as int));
                assert(all.take(i + 1).last() == sources@[i as int]@);
            }
            if let Source::File(p) = sources[i] {
                let s = p.clone();
                proof {
                    crate::text::lemma_seen_push(r@, s);
                }
                r.push(s);
            }
            i += 1;
        }
        proof {
            assert(all.take(i as int) =~= all);
        }
        r
    }
}

// ---------------------------------------------------------------------
// Laws.
// ---------------------------------------------------------------------

impl Plan {
    /// Every rule takes lists and tunnels that there are, each once.
    pub open spec fn rule_sound(self, r: Routing) -> bool {
        &&& good_name(r.name)
        &&& r.lists.len() > 0
        &&& r.lists.no_duplicates()
        &&& forall|j: int|
            0 <= j < r.lists.len() ==> self.lists.map_values(|l: Feed| l.name).contains(
                #[trigger] r.lists[j],
            )
        &&& r.tunnels.len() > 0
        &&& r.tunnels.no_duplicates()
        &&& forall|j: int|
            0 <= j < r.tunnels.len() ==> 0 <= #[trigger] r.tunnels[j] < self.tunnels.len()
    }

    pub open spec fn sound(self) -> bool {
        &&& self.lists.len() > 0
        &&& self.tunnels.len() > 0
        &&& self.rules.len() > 0
        &&& self.lists.map_values(|l: Feed| l.name).no_duplicates()
        &&& self.rules.map_values(|r: Routing| r.name).no_duplicates()
        &&& tunnel_names(self.tunnels).no_duplicates()
        &&& forall|i: int|
            0 <= i < self.lists.len() ==> good_name((#[trigger] self.lists[i]).name)
                && self.lists[i].sources.len() > 0
        &&& forall|i: int, j: int|
            0 <= i < self.lists.len() && 0 <= j < self.lists[i].sources.len() ==> (
            #[trigger] self.lists[i].sources[j] matches Origin::File(p) ==> below(p))
        &&& forall|i: int|
            0 <= i < self.tunnels.len() ==> good_name((#[trigger] self.tunnels[i]).name) && below(
                self.tunnels[i].conf,
            )
        &&& forall|i: int, j: int|
            0 <= i < j < self.tunnels.len() ==> path((#[trigger] self.tunnels[i]).conf) != path(
                (#[trigger] self.tunnels[j]).conf,
            )
        &&& forall|i: int| 0 <= i < self.rules.len() ==> self.rule_sound(#[trigger] self.rules[i])
        &&& forall|i: int|
            0 <= i < self.lists.len() ==> self.takes_list((#[trigger] self.lists[i]).name)
        &&& forall|i: int| 0 <= i < self.tunnels.len() ==> #[trigger] self.takes_tunnel(i)
    }

    pub open spec fn takes_list(self, name: Text) -> bool {
        exists|i: int| 0 <= i < self.rules.len() && (#[trigger] self.rules[i]).lists.contains(name)
    }

    pub open spec fn takes_tunnel(self, t: int) -> bool {
        exists|i: int| 0 <= i < self.rules.len() && (#[trigger] self.rules[i]).tunnels.contains(t)
    }
}

proof fn lemma_lists_sound(w: Written)
    requires
        lists_fault(w.lists) is None,
    ensures
        list_names(w.lists).no_duplicates(),
        forall|i: int|
            0 <= i < w.lists.len() ==> good_name((#[trigger] w.lists[i]).name)
                && w.lists[i].sources.len() > 0,
        forall|i: int, j: int|
            0 <= i < w.lists.len() && 0 <= j < w.lists[i].sources.len() ==> source_fault(
                #[trigger] w.lists[i].sources[j],
            ) is None,
{
    let l = w.lists;
    let f = |i: int| list_fault(l, i);
    lemma_no_fault(f, 0, l.len() as int);
    let n = list_names(l);
    assert forall|i: int| 0 <= i < l.len() implies good_name((#[trigger] l[i]).name)
        && l[i].sources.len() > 0 by {
        assert(f(i) is None);
    }
    assert forall|i: int, j: int| 0 <= i < j < n.len() implies n[i] != n[j] by {
        assert(f(j) is None);
        assert(list_names(l.take(j))[i] == n[i]);
    }
    assert forall|i: int, j: int| 0 <= i < l.len() && 0 <= j < l[i].sources.len() implies source_fault(
        #[trigger] l[i].sources[j],
    ) is None by {
        assert(f(i) is None);
        let g = |j: int| source_faults(l[i], j);
        lemma_no_fault(g, 0, l[i].sources.len() as int);
        assert(g(j) is None);
    }
}

proof fn lemma_tunnels_sound(t: Seq<WrittenTunnel>)
    requires
        tunnels_fault(t) is None,
    ensures
        forall|i: int|
            0 <= i < t.len() ==> good_name((#[trigger] t[i]).name) && below(t[i].conf),
        forall|i: int, j: int|
            0 <= i < j < t.len() ==> path((#[trigger] t[i]).conf) != path((#[trigger] t[j]).conf),
{
    let f = |i: int| tunnel_fault(t, i);
    lemma_no_fault(f, 0, t.len() as int);
    assert forall|i: int| 0 <= i < t.len() implies good_name((#[trigger] t[i]).name) && below(
        t[i].conf,
    ) by {
        assert(f(i) is None);
    }
    assert forall|i: int, j: int| 0 <= i < j < t.len() implies path((#[trigger] t[i]).conf) != path(
        (#[trigger] t[j]).conf,
    ) by {
        assert(f(j) is None);
        assert(!conf_used(t, j));
        assert(path(t[i].conf) == path(t[i].conf));
    }
}

proof fn lemma_rule_sound(w: Written, i: int)
    requires
        fault(w) is None,
        0 <= i < w.rules.len(),
    ensures
        plan(w).rule_sound(plan(w).rules[i]),
{
    let f = |i: int| rule_fault(w, i);
    lemma_no_fault(f, 0, w.rules.len() as int);
    assert(f(i) is None);
    let r = w.rules[i];
    let known = tunnel_names(w.tunnels);
    lemma_names_once(w.tunnels);
    lemma_refs_known(r.name, "list"@, r.lists, list_names(w.lists));
    lemma_refs_known(r.name, "tunnel"@, r.tunnels, known);
    assert(plan(w).lists.map_values(|l: Feed| l.name) =~= list_names(w.lists));
    let t = plan(w).rules[i].tunnels;
    assert forall|j: int| 0 <= j < t.len() implies 0 <= #[trigger] t[j] < w.tunnels.len()
        && known[t[j]] == r.tunnels[j] by {
        assert(known.contains(r.tunnels[j]));
    }
    assert forall|j: int, k: int| 0 <= j < k < t.len() implies t[j] != t[k] by {
        assert(known[t[j]] == r.tunnels[j] && known[t[k]] == r.tunnels[k]);
    }
}

/// What `parse` accepts holds together: names are words and given once,
/// no path leads out of the settings directory, no two tunnels share a
/// file, every rule speaks of lists and tunnels that there are, and every
/// list and every tunnel is in some rule.
pub proof fn lemma_accepted_settings_are_sound(w: Written)
    requires
        fault(w) is None,
    ensures
        plan(w).sound(),
{
    let p = plan(w);
    lemma_lists_sound(w);
    lemma_names_once(w.tunnels);
    lemma_tunnels_sound(w.tunnels);
    assert(p.lists.map_values(|l: Feed| l.name) =~= list_names(w.lists));
    assert forall|i: int| 0 <= i < p.lists.len() implies good_name((#[trigger] p.lists[i]).name)
        && p.lists[i].sources.len() > 0 by {
        assert(good_name(w.lists[i].name));
    }
    assert forall|i: int, j: int| 0 <= i < p.lists.len() && 0 <= j < p.lists[i].sources.len() implies (
    #[trigger] p.lists[i].sources[j] matches Origin::File(q) ==> below(q)) by {
        assert(source_fault(w.lists[i].sources[j]) is None);
    }
    let f = |i: int| rule_fault(w, i);
    lemma_no_fault(f, 0, w.rules.len() as int);
    let rn = p.rules.map_values(|r: Routing| r.name);
    assert forall|i: int, j: int| 0 <= i < j < rn.len() implies rn[i] != rn[j] by {
        assert(f(j) is None);
        assert(rule_names(w.rules.take(j))[i] == w.rules[i].name);
    }
    assert forall|i: int| 0 <= i < p.rules.len() implies p.rule_sound(#[trigger] p.rules[i]) by {
        lemma_rule_sound(w, i);
    }
    let g = |i: int| unused_list(w, i);
    lemma_no_fault(g, 0, w.lists.len() as int);
    assert forall|i: int| 0 <= i < p.lists.len() implies p.takes_list(
        (#[trigger] p.lists[i]).name,
    ) by {
        assert(g(i) is None);
        let j = choose|j: int|
            0 <= j < w.rules.len() && (#[trigger] w.rules[j]).lists.contains(w.lists[i].name);
        assert(p.rules[j].lists.contains(p.lists[i].name));
    }
    let h = |i: int| unused_tunnel(w, i);
    lemma_no_fault(h, 0, w.tunnels.len() as int);
    let known = tunnel_names(w.tunnels);
    assert forall|i: int| 0 <= i < p.tunnels.len() implies #[trigger] p.takes_tunnel(i) by {
        assert(h(i) is None);
        let name = w.tunnels[i].name;
        let j = choose|j: int|
            0 <= j < w.rules.len() && (#[trigger] w.rules[j]).tunnels.contains(name);
        let k = choose|k: int|
            0 <= k < w.rules[j].tunnels.len() && w.rules[j].tunnels[k] == name;
        assert(known[i] == name);
        assert(known.contains(name));
        assert(known.index_of(name) == i);
        assert(p.rules[j].tunnels[k] == i);
        assert(p.rules[j].tunnels.contains(i));
    }
}

/// A condition shown is the condition read.
pub proof fn lemma_condition_shown(c: Condition)
    requires
        c matches Condition::In(code) ==> country_code(code),
        c matches Condition::Out(code) ==> country_code(code),
    ensures
        condition(c.shown()) == Some(c),
{
    reveal_strlit("always");
    reveal_strlit("!");
    match c {
        Condition::Always => {
        },
        Condition::In(code) => {
            assert(code.take(1)[0] == code[0]);
            assert(code != "always"@);
        },
        Condition::Out(code) => {
            let s = "!"@ + code;
            assert(s.len() == 3);
            assert(s.take(1) =~= "!"@);
            assert(s.skip(1) =~= code);
            assert(s != "always"@);
        },
    }
}

/// In a country, or out of it: never both, never neither.
pub proof fn lemma_in_or_out(code: Text, country: Text)
    ensures
        Condition::In(code).holds(country) != Condition::Out(code).holds(country),
{
}

/// A condition is the word always, two capital letters, or the same with an
/// exclamation mark before them; nothing else is one. In a country it holds
/// there alone, out of it everywhere else.
pub proof fn lemma_what_a_condition_is(s: Text, here: Text)
    ensures
        condition(s) is None <==> {
            &&& s != "always"@
            &&& !(s.len() == 2 && 'A' <= s[0] <= 'Z' && 'A' <= s[1] <= 'Z')
            &&& !(s.len() == 3 && s[0] == '!' && 'A' <= s[1] <= 'Z' && 'A' <= s[2] <= 'Z')
        },
        condition(s) matches Some(c) ==> c.holds(here) == (if s.len() == 2 {
            here == s
        } else if s.len() == 3 {
            here != s.skip(1)
        } else {
            true
        }),
        condition(s) matches Some(c) ==> c.shown() == s,
{
    reveal_strlit("always");
    reveal_strlit("!");
    let mark = "!"@;
    if crate::text::starts(s, mark) {
        assert(s.take(1)[0] == s[0]);
        assert(s =~= mark + s.skip(1));
    } else if s.len() > 0 && s[0] == '!' {
        assert(s.take(1) =~= mark);
    }
}

/// A name is of one to sixty-four letters, digits, underscores and hyphens.
pub proof fn lemma_what_a_name_is(s: Text, kind: Text, before: Seq<Text>)
    ensures
        good_name(s) <==> 0 < s.len() <= 64 && forall|i: int|
            0 <= i < s.len() ==> ('a' <= #[trigger] s[i] <= 'z' || 'A' <= s[i] <= 'Z' || '0'
                <= s[i] <= '9' || s[i] == '-' || s[i] == '_'),
        !good_name(s) ==> name_fault(kind, s, before) == Some(
            kind + " name "@ + crate::text::quoted(s) + ": letters, digits, _ and - only"@,
        ),
        good_name(s) && before.contains(s) ==> name_fault(kind, s, before) == Some(
            kind + " "@ + s + ": named twice"@,
        ),
        good_name(s) && !before.contains(s) ==> name_fault(kind, s, before) is None,
{
    if good_name(s) {
        assert forall|i: int| 0 <= i < s.len() implies ('a' <= #[trigger] s[i] <= 'z' || 'A'
            <= s[i] <= 'Z' || '0' <= s[i] <= '9' || s[i] == '-' || s[i] == '_') by {
            assert(crate::lists::word_char(s[i]));
        }
    }
}

proof fn lemma_components_add(a: Seq<Text>, b: Seq<Text>)
    ensures
        components(a + b) == components(a) + components(b),
    decreases b.len(),
{
    if b.len() == 0 {
        assert(a + b =~= a);
        assert(components(a) + components(b) =~= components(a));
    } else {
        lemma_components_add(a, b.drop_last());
        assert((a + b).drop_last() =~= a + b.drop_last());
        assert((a + b).last() == b.last());
        assert(components(a + b) =~= components(a) + components(b));
    }
}

/// A path goes down from the directory it starts in: its first step is a
/// name, and no step goes up. Steps of nothing and single dots change
/// nothing of where it leads.
pub proof fn lemma_what_a_path_is(a: Text, b: Text)
    requires
        !a.contains('/'),
    ensures
        below(a) <==> a.len() > 0 && a != seq!['.'] && a != seq!['.', '.'],
        below(a + seq!['/'] + b) <==> below(a) && !crate::text::split(b, '/').contains(
            seq!['.', '.'],
        ),
        path(a) == if a.len() == 0 || a == seq!['.'] {
            Seq::<Text>::empty()
        } else {
            seq![a]
        },
        path(a + seq!['/'] + b) == path(a) + path(b),
{
    reveal_strlit(".");
    reveal_strlit("..");
    assert("."@ =~= seq!['.']);
    assert(".."@ =~= seq!['.', '.']);
    crate::text::lemma_split_one(a, '/');
    crate::text::lemma_split_cons(a, '/', b);
    let (p, q, r) = (
        crate::text::split(a, '/'),
        crate::text::split(a + seq!['/'] + b, '/'),
        crate::text::split(b, '/'),
    );
    assert(p =~= seq![a]);
    assert(q =~= seq![a] + r);
    assert(p[0] == a && q[0] == a);
    let up = ".."@;
    if r.contains(up) {
        let i = choose|i: int| 0 <= i < r.len() && r[i] == up;
        assert(q[i + 1] == up);
    }
    if q.contains(up) && a != up {
        let i = choose|i: int| 0 <= i < q.len() && q[i] == up;
        assert(r[i - 1] == up);
    }
    assert(p.drop_last() =~= seq![]);
    assert(components(p.drop_last()) =~= seq![]);
    assert(components(p) =~= if a.len() == 0 || a == seq!['.'] {
        Seq::<Text>::empty()
    } else {
        seq![a]
    });
    lemma_components_add(p, r);
}

/// A source that begins with `http://` or `https://` is a URL and has no
/// white space; any other is a file below the settings.
pub proof fn lemma_what_a_source_is(s: Text)
    ensures
        ({
            let web = s.len() >= 7 && s.take(7) == "http://"@ || s.len() >= 8 && s.take(8)
                == "https://"@;
            &&& source_fault(s) is None <==> if web {
                forall|i: int| 0 <= i < s.len() ==> !crate::text::space(#[trigger] s[i])
            } else {
                below(s)
            }
            &&& source_fault(s) matches Some(e) ==> e == if web {
                "a URL has no spaces"@
            } else {
                "a file is a path below the settings directory"@
            }
            &&& origin(s) == if web {
                Origin::Url(s)
            } else {
                Origin::File(s)
            }
        }),
{
    reveal_strlit("http://");
    reveal_strlit("https://");
}

/// Settings are accepted exactly when there is a list, a tunnel and a rule,
/// each is named by a word of its own, every list has sources and each is
/// one, the files of the tunnels are below the settings and differ, and
/// every rule has a condition, lists and tunnels that there are, each once,
/// with no list and no tunnel left without a rule.
#[verifier::rlimit(40)]
pub proof fn lemma_which_settings_are_accepted(w: Written)
    ensures
        fault(w) is None <==> {
            &&& w.lists.len() > 0 && w.tunnels.len() > 0 && w.rules.len() > 0
            &&& forall|i: int|
                0 <= i < w.lists.len() ==> good_name((#[trigger] w.lists[i]).name)
                    && w.lists[i].sources.len() > 0
            &&& forall|i: int, j: int|
                0 <= i < w.lists.len() && 0 <= j < w.lists[i].sources.len() ==> source_fault(
                    #[trigger] w.lists[i].sources[j],
                ) is None
            &&& forall|i: int, j: int|
                0 <= i < j < w.lists.len() ==> (#[trigger] w.lists[i]).name != (
                #[trigger] w.lists[j]).name
            &&& forall|i: int|
                0 <= i < w.tunnels.len() ==> good_name((#[trigger] w.tunnels[i]).name) && below(
                    w.tunnels[i].conf,
                )
            &&& forall|i: int, j: int|
                0 <= i < j < w.tunnels.len() ==> (#[trigger] w.tunnels[i]).name != (
                #[trigger] w.tunnels[j]).name && path(w.tunnels[i].conf) != path(
                    w.tunnels[j].conf,
                )
            &&& forall|i: int|
                0 <= i < w.rules.len() ==> {
                    let r = #[trigger] w.rules[i];
                    &&& good_name(r.name)
                    &&& condition(r.when) is Some
                    &&& r.lists.len() > 0
                    &&& r.lists.no_duplicates()
                    &&& r.tunnels.len() > 0
                    &&& r.tunnels.no_duplicates()
                }
            &&& forall|i: int, j: int|
                0 <= i < w.rules.len() && 0 <= j < w.rules[i].lists.len() ==> exists|k: int|
                    0 <= k < w.lists.len() && (#[trigger] w.lists[k]).name
                        == #[trigger] w.rules[i].lists[j]
            &&& forall|i: int, j: int|
                0 <= i < w.rules.len() && 0 <= j < w.rules[i].tunnels.len() ==> exists|k: int|
                    0 <= k < w.tunnels.len() && (#[trigger] w.tunnels[k]).name
                        == #[trigger] w.rules[i].tunnels[j]
            &&& forall|i: int, j: int|
                0 <= i < j < w.rules.len() ==> (#[trigger] w.rules[i]).name != (
                #[trigger] w.rules[j]).name
            &&& forall|k: int|
                0 <= k < w.lists.len() ==> exists|i: int|
                    0 <= i < w.rules.len() && (#[trigger] w.rules[i]).lists.contains(
                        (#[trigger] w.lists[k]).name,
                    )
            &&& forall|k: int|
                0 <= k < w.tunnels.len() ==> exists|i: int|
                    0 <= i < w.rules.len() && (#[trigger] w.rules[i]).tunnels.contains(
                        (#[trigger] w.tunnels[k]).name,
                    )
        },
{
    lemma_which_lists(w.lists);
    lemma_which_tunnels(w.tunnels);
    lemma_which_rules(w);
    let g = |i: int| unused_list(w, i);
    let h = |i: int| unused_tunnel(w, i);
    lemma_no_fault(g, 0, w.lists.len() as int);
    lemma_no_fault(h, 0, w.tunnels.len() as int);
    if unused_lists(w) is None {
        assert forall|k: int| 0 <= k < w.lists.len() implies exists|i: int|
            0 <= i < w.rules.len() && (#[trigger] w.rules[i]).lists.contains(
                (#[trigger] w.lists[k]).name,
            ) by {
            assert(g(k) is None);
        }
    }
    if unused_tunnels(w) is None {
        assert forall|k: int| 0 <= k < w.tunnels.len() implies exists|i: int|
            0 <= i < w.rules.len() && (#[trigger] w.rules[i]).tunnels.contains(
                (#[trigger] w.tunnels[k]).name,
            ) by {
            assert(h(k) is None);
        }
    }
}

proof fn lemma_which_lists(l: Seq<WrittenList>)
    ensures
        lists_fault(l) is None <==> {
            &&& forall|i: int|
                0 <= i < l.len() ==> good_name((#[trigger] l[i]).name) && l[i].sources.len() > 0
            &&& forall|i: int, j: int|
                0 <= i < l.len() && 0 <= j < l[i].sources.len() ==> source_fault(
                    #[trigger] l[i].sources[j],
                ) is None
            &&& forall|i: int, j: int|
                0 <= i < j < l.len() ==> (#[trigger] l[i]).name != (#[trigger] l[j]).name
        },
{
    let f = |i: int| list_fault(l, i);
    lemma_no_fault(f, 0, l.len() as int);
    assert forall|i: int| 0 <= i < l.len() implies ((#[trigger] list_fault(l, i)) is None <==> {
        &&& good_name(l[i].name)
        &&& l[i].sources.len() > 0
        &&& forall|j: int|
            0 <= j < l[i].sources.len() ==> source_fault(#[trigger] l[i].sources[j]) is None
        &&& forall|k: int| 0 <= k < i ==> (#[trigger] l[k]).name != l[i].name
    }) by {
        let g = |j: int| source_faults(l[i], j);
        lemma_no_fault(g, 0, l[i].sources.len() as int);
        let b = list_names(l.take(i));
        assert(b.contains(l[i].name) <==> exists|k: int| 0 <= k < i && (#[trigger] l[k]).name
            == l[i].name) by {
            if b.contains(l[i].name) {
                let k = choose|k: int| 0 <= k < b.len() && b[k] == l[i].name;
                assert(l[k].name == l[i].name);
            }
            if exists|k: int| 0 <= k < i && (#[trigger] l[k]).name == l[i].name {
                let k = choose|k: int| 0 <= k < i && (#[trigger] l[k]).name == l[i].name;
                assert(b[k] == l[i].name);
            }
        }
        if list_fault(l, i) is None {
            assert forall|j: int| 0 <= j < l[i].sources.len() implies source_fault(
                #[trigger] l[i].sources[j],
            ) is None by {
                assert(g(j) is None);
            }
        }
    }
    if lists_fault(l) is None {
        assert forall|i: int| 0 <= i < l.len() implies (#[trigger] list_fault(l, i)) is None by {
            assert(f(i) is None);
        }
        assert forall|i: int| 0 <= i < l.len() implies good_name((#[trigger] l[i]).name)
            && l[i].sources.len() > 0 by {
            assert(list_fault(l, i) is None);
        }
        assert forall|i: int, j: int|
            0 <= i < l.len() && 0 <= j < l[i].sources.len() implies source_fault(
            #[trigger] l[i].sources[j],
        ) is None by {
            assert(list_fault(l, i) is None);
        }
        assert forall|i: int, j: int| 0 <= i < j < l.len() implies (#[trigger] l[i]).name != (
        #[trigger] l[j]).name by {
            assert(list_fault(l, j) is None);
        }
    }
}

proof fn lemma_which_tunnels(t: Seq<WrittenTunnel>)
    ensures
        tunnels_fault(t) is None <==> {
            &&& forall|i: int|
                0 <= i < t.len() ==> good_name((#[trigger] t[i]).name) && below(t[i].conf)
            &&& forall|i: int, j: int|
                0 <= i < j < t.len() ==> (#[trigger] t[i]).name != (#[trigger] t[j]).name && path(
                    t[i].conf,
                ) != path(t[j].conf)
        },
{
    let f = |i: int| tunnel_fault(t, i);
    lemma_no_fault(f, 0, t.len() as int);
    assert forall|i: int| 0 <= i < t.len() implies ((#[trigger] tunnel_fault(t, i)) is None <==> {
        &&& good_name(t[i].name)
        &&& below(t[i].conf)
        &&& forall|k: int|
            0 <= k < i ==> (#[trigger] t[k]).name != t[i].name && path(t[k].conf) != path(
                t[i].conf,
            )
    }) by {
        let b = tunnel_names(t.take(i));
        assert(b.contains(t[i].name) <==> exists|k: int| 0 <= k < i && (#[trigger] t[k]).name
            == t[i].name) by {
            if b.contains(t[i].name) {
                let k = choose|k: int| 0 <= k < b.len() && b[k] == t[i].name;
                assert(t[k].name == t[i].name);
            }
            if exists|k: int| 0 <= k < i && (#[trigger] t[k]).name == t[i].name {
                let k = choose|k: int| 0 <= k < i && (#[trigger] t[k]).name == t[i].name;
                assert(b[k] == t[i].name);
            }
        }
        assert(conf_used(t, i) <==> exists|k: int|
            0 <= k < i && path((#[trigger] t[k]).conf) == path(t[i].conf)) by {
            if conf_used(t, i) {
                let k = choose|k: int| 0 <= k < i && path(#[trigger] t[k].conf) == path(t[i].conf);
                assert(path(t[k].conf) == path(t[i].conf));
            }
            if exists|k: int| 0 <= k < i && path((#[trigger] t[k]).conf) == path(t[i].conf) {
                let k = choose|k: int|
                    0 <= k < i && path((#[trigger] t[k]).conf) == path(t[i].conf);
                assert(path(t[k].conf) == path(t[i].conf));
            }
        }
    }
    if tunnels_fault(t) is None {
        assert forall|i: int| 0 <= i < t.len() implies (#[trigger] tunnel_fault(t, i)) is None by {
            assert(f(i) is None);
        }
        assert forall|i: int| 0 <= i < t.len() implies good_name((#[trigger] t[i]).name) && below(
            t[i].conf,
        ) by {
            assert(tunnel_fault(t, i) is None);
        }
        assert forall|i: int, j: int| 0 <= i < j < t.len() implies (#[trigger] t[i]).name != (
        #[trigger] t[j]).name && path(t[i].conf) != path(t[j].conf) by {
            assert(tunnel_fault(t, j) is None);
        }
    }
}

proof fn lemma_which_refs(rule: Text, kind: Text, names: Seq<Text>, known: Seq<Text>)
    ensures
        refs_fault(rule, kind, names, known) is None <==> {
            &&& names.len() > 0
            &&& names.no_duplicates()
            &&& forall|j: int| 0 <= j < names.len() ==> known.contains(#[trigger] names[j])
        },
{
    if refs_fault(rule, kind, names, known) is None {
        lemma_refs_known(rule, kind, names, known);
    }
    if names.len() > 0 && names.no_duplicates() && forall|j: int|
        0 <= j < names.len() ==> known.contains(#[trigger] names[j]) {
        let f = |j: int| ref_fault(rule, kind, names, known, j);
        lemma_no_fault(f, 0, names.len() as int);
        assert forall|j: int| 0 <= j < names.len() implies (#[trigger] f(j)) is None by {
            assert(known.contains(names[j]));
            assert(!names.take(j).contains(names[j]));
        }
    }
}

proof fn lemma_which_rules(w: Written)
    ensures
        rules_fault(w) is None <==> {
            &&& forall|i: int|
                0 <= i < w.rules.len() ==> {
                    let r = #[trigger] w.rules[i];
                    &&& good_name(r.name)
                    &&& condition(r.when) is Some
                    &&& r.lists.len() > 0
                    &&& r.lists.no_duplicates()
                    &&& r.tunnels.len() > 0
                    &&& r.tunnels.no_duplicates()
                }
            &&& forall|i: int, j: int|
                0 <= i < w.rules.len() && 0 <= j < w.rules[i].lists.len() ==> exists|k: int|
                    0 <= k < w.lists.len() && (#[trigger] w.lists[k]).name
                        == #[trigger] w.rules[i].lists[j]
            &&& forall|i: int, j: int|
                0 <= i < w.rules.len() && 0 <= j < w.rules[i].tunnels.len() ==> exists|k: int|
                    0 <= k < w.tunnels.len() && (#[trigger] w.tunnels[k]).name
                        == #[trigger] w.rules[i].tunnels[j]
            &&& forall|i: int, j: int|
                0 <= i < j < w.rules.len() ==> (#[trigger] w.rules[i]).name != (
                #[trigger] w.rules[j]).name
        },
{
    let f = |i: int| rule_fault(w, i);
    let rules = w.rules;
    let (ln, tn) = (list_names(w.lists), tunnel_names(w.tunnels));
    lemma_no_fault(f, 0, rules.len() as int);
    assert forall|n: Text| #[trigger] ln.contains(n) <==> exists|k: int|
        0 <= k < w.lists.len() && (#[trigger] w.lists[k]).name == n by {
        if ln.contains(n) {
            let k = choose|k: int| 0 <= k < ln.len() && ln[k] == n;
            assert(w.lists[k].name == n);
        }
        if exists|k: int| 0 <= k < w.lists.len() && (#[trigger] w.lists[k]).name == n {
            let k = choose|k: int| 0 <= k < w.lists.len() && (#[trigger] w.lists[k]).name == n;
            assert(ln[k] == n);
        }
    }
    assert forall|n: Text| #[trigger] tn.contains(n) <==> exists|k: int|
        0 <= k < w.tunnels.len() && (#[trigger] w.tunnels[k]).name == n by {
        if tn.contains(n) {
            let k = choose|k: int| 0 <= k < tn.len() && tn[k] == n;
            assert(w.tunnels[k].name == n);
        }
        if exists|k: int| 0 <= k < w.tunnels.len() && (#[trigger] w.tunnels[k]).name == n {
            let k = choose|k: int| 0 <= k < w.tunnels.len() && (#[trigger] w.tunnels[k]).name == n;
            assert(tn[k] == n);
        }
    }
    assert forall|i: int| 0 <= i < rules.len() implies ((#[trigger] rule_fault(w, i)) is None <==> {
        let r = rules[i];
        &&& good_name(r.name)
        &&& condition(r.when) is Some
        &&& r.lists.len() > 0
        &&& r.lists.no_duplicates()
        &&& forall|j: int| 0 <= j < r.lists.len() ==> ln.contains(#[trigger] r.lists[j])
        &&& r.tunnels.len() > 0
        &&& r.tunnels.no_duplicates()
        &&& forall|j: int| 0 <= j < r.tunnels.len() ==> tn.contains(#[trigger] r.tunnels[j])
        &&& forall|k: int| 0 <= k < i ==> (#[trigger] rules[k]).name != r.name
    }) by {
        let r = rules[i];
        let b = rule_names(rules.take(i));
        lemma_which_refs(r.name, "list"@, r.lists, ln);
        lemma_which_refs(r.name, "tunnel"@, r.tunnels, tn);
        assert(b.contains(r.name) <==> exists|k: int| 0 <= k < i && (#[trigger] rules[k]).name
            == r.name) by {
            if b.contains(r.name) {
                let k = choose|k: int| 0 <= k < b.len() && b[k] == r.name;
                assert(rules[k].name == r.name);
            }
            if exists|k: int| 0 <= k < i && (#[trigger] rules[k]).name == r.name {
                let k = choose|k: int| 0 <= k < i && (#[trigger] rules[k]).name == r.name;
                assert(b[k] == r.name);
            }
        }
    }
    if rules_fault(w) is None {
        assert forall|i: int| 0 <= i < rules.len() implies (#[trigger] rule_fault(w, i))
            is None by {
            assert(f(i) is None);
        }
        assert forall|i: int| 0 <= i < rules.len() implies {
            let r = #[trigger] w.rules[i];
            &&& good_name(r.name)
            &&& condition(r.when) is Some
            &&& r.lists.len() > 0
            &&& r.lists.no_duplicates()
            &&& r.tunnels.len() > 0
            &&& r.tunnels.no_duplicates()
        } by {
            assert(rule_fault(w, i) is None);
        }
        assert forall|i: int, j: int|
            0 <= i < rules.len() && 0 <= j < rules[i].lists.len() implies ln.contains(
            #[trigger] w.rules[i].lists[j],
        ) by {
            assert(rule_fault(w, i) is None);
        }
        assert forall|i: int, j: int|
            0 <= i < rules.len() && 0 <= j < rules[i].tunnels.len() implies tn.contains(
            #[trigger] w.rules[i].tunnels[j],
        ) by {
            assert(rule_fault(w, i) is None);
        }
        assert forall|i: int, j: int| 0 <= i < j < rules.len() implies (#[trigger] w.rules[i]).name
            != (#[trigger] w.rules[j]).name by {
            assert(rule_fault(w, j) is None);
        }
    } else if forall|i: int| 0 <= i < rules.len() ==> (#[trigger] rule_fault(w, i)) is None {
        assert(forall|i: int| 0 <= i < rules.len() ==> (#[trigger] f(i)) is None);
    }
}

/// The settings mean what they say: the lists with their sources, the
/// tunnels and the rules in the order written; the tunnels of a rule are
/// those it names, in its order; and the patience with a degraded tunnel is
/// that many seconds, or three minutes when nothing is said of it.
pub proof fn lemma_what_settings_mean(w: Written)
    requires
        fault(w) is None,
    ensures
        plan(w).lists.len() == w.lists.len(),
        plan(w).tunnels == w.tunnels,
        plan(w).rules.len() == w.rules.len(),
        plan(w).grace == match w.grace {
            Some(s) => s * 1_000_000_000,
            None => 180_000_000_000,
        },
        forall|i: int|
            0 <= i < w.lists.len() ==> (#[trigger] plan(w).lists[i]).name == w.lists[i].name
                && plan(w).lists[i].sources.len() == w.lists[i].sources.len(),
        forall|i: int, j: int|
            0 <= i < w.lists.len() && 0 <= j < w.lists[i].sources.len() ==> match (
            #[trigger] plan(w).lists[i].sources[j]) {
                Origin::Url(u) => u == w.lists[i].sources[j] && url(u),
                Origin::File(p) => p == w.lists[i].sources[j] && !url(p),
            },
        forall|i: int|
            0 <= i < w.rules.len() ==> {
                let r = #[trigger] plan(w).rules[i];
                &&& r.name == w.rules[i].name
                &&& r.lists == w.rules[i].lists
                &&& r.when.shown() == w.rules[i].when
                &&& r.tunnels.len() == w.rules[i].tunnels.len()
            },
        forall|i: int, j: int|
            0 <= i < w.rules.len() && 0 <= j < w.rules[i].tunnels.len() ==> {
                let t = #[trigger] plan(w).rules[i].tunnels[j];
                0 <= t < w.tunnels.len() && w.tunnels[t].name == w.rules[i].tunnels[j]
            },
{
    lemma_which_settings_are_accepted(w);
    let known = tunnel_names(w.tunnels);
    assert forall|i: int, j: int|
        0 <= i < w.rules.len() && 0 <= j < w.rules[i].tunnels.len() implies {
        let t = #[trigger] plan(w).rules[i].tunnels[j];
        0 <= t < w.tunnels.len() && w.tunnels[t].name == w.rules[i].tunnels[j]
    } by {
        let n = w.rules[i].tunnels[j];
        let k = choose|k: int| 0 <= k < w.tunnels.len() && (#[trigger] w.tunnels[k]).name == n;
        assert(known[k] == n);
        assert(known.contains(n));
        let t = known.index_of(n);
        assert(0 <= t < known.len() && known[t] == n);
        assert(plan(w).rules[i].tunnels[j] == t);
    }
    assert forall|i: int| 0 <= i < w.rules.len() implies {
        let r = #[trigger] plan(w).rules[i];
        &&& r.name == w.rules[i].name
        &&& r.lists == w.rules[i].lists
        &&& r.when.shown() == w.rules[i].when
        &&& r.tunnels.len() == w.rules[i].tunnels.len()
    } by {
        lemma_what_a_condition_is(w.rules[i].when, seq![]);
    }
}

/// The sources of the settings are those of the lists, one list after
/// another; the files among them and the URLs keep their order.
pub proof fn lemma_which_sources_there_are(l: Seq<Feed>, f: Feed, s: Seq<Origin>)
    ensures
        all_sources(seq![]) == Seq::<Origin>::empty(),
        all_sources(l.push(f)) == all_sources(l) + f.sources,
        source_files(s) == s.filter(|o: Origin| o is File).map_values(|o: Origin| o->File_0),
        source_urls(s) == s.filter(|o: Origin| o is Url).map_values(|o: Origin| o->Url_0),
    decreases s.len(),
{
    reveal(Seq::filter);
    assert(l.push(f).drop_last() =~= l);
    if s.len() > 0 {
        lemma_which_sources_there_are(l, f, s.drop_last());
    }
    assert(source_files(s) =~= s.filter(|o: Origin| o is File).map_values(
        |o: Origin| o->File_0,
    ));
    assert(source_urls(s) =~= s.filter(|o: Origin| o is Url).map_values(|o: Origin| o->Url_0));
}

/// What is told of settings that are refused is the first thing wrong with
/// them: that there is no list, tunnel or rule; then the first list, the
/// first tunnel and the first rule that is wrong; then the first list and
/// the first tunnel without a rule.
pub proof fn lemma_which_fault_is_told(w: Written, i: int)
    requires
        0 <= i,
    ensures
        w.lists.len() == 0 ==> fault(w) == Some("no [[list]]"@),
        w.lists.len() > 0 && w.tunnels.len() == 0 ==> fault(w) == Some("no [[tunnel]]"@),
        w.lists.len() > 0 && w.tunnels.len() > 0 && w.rules.len() == 0 ==> fault(w) == Some(
            "no [[rule]]"@,
        ),
        w.lists.len() > 0 && w.tunnels.len() > 0 && w.rules.len() > 0 ==> {
            let lists = forall|k: int|
                0 <= k < w.lists.len() ==> (#[trigger] list_fault(w.lists, k)) is None;
            let tunnels = forall|k: int|
                0 <= k < w.tunnels.len() ==> (#[trigger] tunnel_fault(w.tunnels, k)) is None;
            let rules = forall|k: int|
                0 <= k < w.rules.len() ==> (#[trigger] rule_fault(w, k)) is None;
            let fed = forall|k: int|
                0 <= k < w.lists.len() ==> (#[trigger] unused_list(w, k)) is None;
            &&& i < w.lists.len() && list_fault(w.lists, i) is Some && (forall|k: int|
                0 <= k < i ==> (#[trigger] list_fault(w.lists, k)) is None) ==> fault(w)
                == list_fault(w.lists, i)
            &&& lists && i < w.tunnels.len() && tunnel_fault(w.tunnels, i) is Some && (forall|
                k: int,
            |
                0 <= k < i ==> (#[trigger] tunnel_fault(w.tunnels, k)) is None) ==> fault(w)
                == tunnel_fault(w.tunnels, i)
            &&& lists && tunnels && i < w.rules.len() && rule_fault(w, i) is Some && (forall|k: int|
                0 <= k < i ==> (#[trigger] rule_fault(w, k)) is None) ==> fault(w) == rule_fault(
                w,
                i,
            )
            &&& lists && tunnels && rules && i < w.lists.len() && unused_list(w, i) is Some && (
            forall|k: int| 0 <= k < i ==> (#[trigger] unused_list(w, k)) is None) ==> fault(w)
                == unused_list(w, i)
            &&& lists && tunnels && rules && fed && i < w.tunnels.len() && unused_tunnel(w, i)
                is Some && (forall|k: int|
                0 <= k < i ==> (#[trigger] unused_tunnel(w, k)) is None) ==> fault(w)
                == unused_tunnel(w, i)
        },
{
    let f = |k: int| list_fault(w.lists, k);
    let g = |k: int| tunnel_fault(w.tunnels, k);
    let h = |k: int| rule_fault(w, k);
    let a = |k: int| unused_list(w, k);
    let b = |k: int| unused_tunnel(w, k);
    let (n, m, o) = (w.lists.len() as int, w.tunnels.len() as int, w.rules.len() as int);
    lemma_no_fault(f, 0, n);
    lemma_no_fault(g, 0, m);
    lemma_no_fault(h, 0, o);
    lemma_no_fault(a, 0, n);
    lemma_no_fault(b, 0, m);
    if i < n && list_fault(w.lists, i) is Some && forall|k: int|
        0 <= k < i ==> (#[trigger] list_fault(w.lists, k)) is None {
        lemma_first_fault(f, 0, i, n);
    }
    if i < m && tunnel_fault(w.tunnels, i) is Some && forall|k: int|
        0 <= k < i ==> (#[trigger] tunnel_fault(w.tunnels, k)) is None {
        lemma_first_fault(g, 0, i, m);
    }
    if i < o && rule_fault(w, i) is Some && forall|k: int|
        0 <= k < i ==> (#[trigger] rule_fault(w, k)) is None {
        lemma_first_fault(h, 0, i, o);
    }
    if i < n && unused_list(w, i) is Some && forall|k: int|
        0 <= k < i ==> (#[trigger] unused_list(w, k)) is None {
        lemma_first_fault(a, 0, i, n);
    }
    if i < m && unused_tunnel(w, i) is Some && forall|k: int|
        0 <= k < i ==> (#[trigger] unused_tunnel(w, k)) is None {
        lemma_first_fault(b, 0, i, m);
    }
}

/// What is told of a list: its name, else that it has no sources, else the
/// first source that is none, and why.
pub proof fn lemma_what_is_told_of_a_list(l: Seq<WrittenList>, i: int, j: int)
    requires
        0 <= i < l.len(),
        0 <= j,
    ensures
        ({
            let before = Seq::new(i as nat, |k: int| l[k].name);
            let name = name_fault("list"@, l[i].name, before);
            &&& name is Some ==> list_fault(l, i) == name
            &&& name is None && l[i].sources.len() == 0 ==> list_fault(l, i) == Some(
                "list "@ + l[i].name + ": no sources"@,
            )
            &&& name is None && j < l[i].sources.len() && source_fault(l[i].sources[j]) is Some && (
            forall|k: int| 0 <= k < j ==> source_fault(#[trigger] l[i].sources[k]) is None)
                ==> list_fault(l, i) == Some(
                "list "@ + l[i].name + ": "@ + l[i].sources[j] + ": "@ + source_fault(
                    l[i].sources[j],
                )->0,
            )
        }),
{
    assert(list_names(l.take(i)) =~= Seq::new(i as nat, |k: int| l[k].name));
    let f = |k: int| source_faults(l[i], k);
    let n = l[i].sources.len() as int;
    if j < n && source_fault(l[i].sources[j]) is Some && forall|k: int|
        0 <= k < j ==> source_fault(#[trigger] l[i].sources[k]) is None {
        assert forall|k: int| 0 <= k < j implies (#[trigger] f(k)) is None by {
            assert(source_fault(l[i].sources[k]) is None);
        }
        lemma_first_fault(f, 0, j, n);
    }
}

/// What is told of a tunnel: its name, else that its file is not below the
/// settings, else that an earlier tunnel has the file.
pub proof fn lemma_what_is_told_of_a_tunnel(t: Seq<WrittenTunnel>, i: int)
    requires
        0 <= i < t.len(),
    ensures
        ({
            let before = Seq::new(i as nat, |k: int| t[k].name);
            let name = name_fault("tunnel"@, t[i].name, before);
            let used = exists|k: int| 0 <= k < i && path((#[trigger] t[k]).conf) == path(t[i].conf);
            let head = "tunnel "@ + t[i].name + ": "@ + t[i].conf;
            &&& name is Some ==> tunnel_fault(t, i) == name
            &&& name is None && !below(t[i].conf) ==> tunnel_fault(t, i) == Some(
                head + ": "@ + "a file is a path below the settings directory"@,
            )
            &&& name is None && below(t[i].conf) && used ==> tunnel_fault(t, i) == Some(
                head + " used twice"@,
            )
            &&& name is None && below(t[i].conf) && !used ==> tunnel_fault(t, i) is None
        }),
{
    assert(tunnel_names(t.take(i)) =~= Seq::new(i as nat, |k: int| t[k].name));
    if exists|k: int| 0 <= k < i && path((#[trigger] t[k]).conf) == path(t[i].conf) {
        let k = choose|k: int| 0 <= k < i && path((#[trigger] t[k]).conf) == path(t[i].conf);
        assert(path(t[k].conf) == path(t[i].conf));
    }
    if conf_used(t, i) {
        let k = choose|k: int| 0 <= k < i && path(#[trigger] t[k].conf) == path(t[i].conf);
        assert(path((t[k]).conf) == path(t[i].conf));
    }
}

/// What is told of the names in a rule: that there are none, else the first
/// that there is not, or that came before.
pub proof fn lemma_what_is_told_of_names(
    rule: Text,
    kind: Text,
    names: Seq<Text>,
    known: Seq<Text>,
    j: int,
)
    requires
        0 <= j,
    ensures
        names.len() == 0 ==> refs_fault(rule, kind, names, known) == Some(
            "rule "@ + rule + ": no "@ + kind + "s"@,
        ),
        j < names.len() && (forall|k: int|
            0 <= k < j ==> known.contains(#[trigger] names[k]) && !names.take(k).contains(
                names[k],
            )) ==> {
            &&& !known.contains(names[j]) ==> refs_fault(rule, kind, names, known) == Some(
                "rule "@ + rule + ": no "@ + kind + " "@ + names[j],
            )
            &&& known.contains(names[j]) && names.take(j).contains(names[j]) ==> refs_fault(
                rule,
                kind,
                names,
                known,
            ) == Some("rule "@ + rule + ": "@ + kind + " "@ + names[j] + " twice"@)
        },
{
    let f = |k: int| ref_fault(rule, kind, names, known, k);
    if j < names.len() && (forall|k: int|
        0 <= k < j ==> known.contains(#[trigger] names[k]) && !names.take(k).contains(names[k]))
        && f(j) is Some {
        assert forall|k: int| 0 <= k < j implies (#[trigger] f(k)) is None by {
            assert(known.contains(names[k]));
        }
        lemma_first_fault(f, 0, j, names.len() as int);
    }
}

/// What is told of a rule: its name, else its condition, else its lists,
/// else its tunnels; and of a list or a tunnel that is in no rule, that.
pub proof fn lemma_what_is_told_of_a_rule(w: Written, i: int, l: int, t: int)
    requires
        0 <= i < w.rules.len(),
        0 <= l < w.lists.len(),
        0 <= t < w.tunnels.len(),
    ensures
        ({
            let r = w.rules[i];
            let name = name_fault(
                "rule"@,
                r.name,
                Seq::new(i as nat, |k: int| w.rules[k].name),
            );
            let lists = refs_fault(
                r.name,
                "list"@,
                r.lists,
                Seq::new(w.lists.len(), |k: int| w.lists[k].name),
            );
            let tunnels = refs_fault(
                r.name,
                "tunnel"@,
                r.tunnels,
                Seq::new(w.tunnels.len(), |k: int| w.tunnels[k].name),
            );
            let when = condition(r.when);
            &&& name is Some ==> rule_fault(w, i) == name
            &&& name is None && when is None ==> rule_fault(w, i) == Some(
                "rule "@ + r.name + ": when "@ + crate::text::quoted(r.when)
                    + ": \"always\", a country code such as \"RU\", or \"!RU\""@,
            )
            &&& name is None && when is Some && lists is Some ==> rule_fault(w, i) == lists
            &&& name is None && when is Some && lists is None ==> rule_fault(w, i) == tunnels
        }),
        unused_list(w, l) == if (exists|k: int|
            0 <= k < w.rules.len() && (#[trigger] w.rules[k]).lists.contains(w.lists[l].name)) {
            None
        } else {
            Some("list "@ + w.lists[l].name + ": in no rule"@)
        },
        unused_tunnel(w, t) == if (exists|k: int|
            0 <= k < w.rules.len() && (#[trigger] w.rules[k]).tunnels.contains(
                w.tunnels[t].name,
            )) {
            None
        } else {
            Some("tunnel "@ + w.tunnels[t].name + ": in no rule"@)
        },
{
    assert(rule_names(w.rules.take(i)) =~= Seq::new(i as nat, |k: int| w.rules[k].name));
    assert(list_names(w.lists) =~= Seq::new(w.lists.len(), |k: int| w.lists[k].name));
    assert(tunnel_names(w.tunnels) =~= Seq::new(w.tunnels.len(), |k: int| w.tunnels[k].name));
}

} // verus!
