//! The country of the direct address: asked of several services at once,
//! past the tunnels, bound to the physical interface. The code most of the
//! answers agree on is the country; with no majority, there is none.
//!
//! A service the router takes into its own tunnel (a fake address), or
//! whose address the lists hold, is passed over: its answer would be the
//! country of an exit, or pf would hold it back.

use vstd::prelude::*;
use vstd::string::*;

use crate::addr::Ipv4Addr;
use crate::dns::{decode, has_fakeip, ipv4_answers};
use crate::text::{after_of, chars_of, join_of, lines_of, same, split_of, trim_of};

verus! {

/// Services that answer with the country of the address that asks.
pub fn services() -> (r: Vec<String>)
    ensures
        crate::text::seen(r@) == service_list(),
{
    let mut r: Vec<String> = Vec::new();
    r.push("https://1.1.1.1/cdn-cgi/trace".to_owned());
    r.push("https://ipinfo.io/country".to_owned());
    r.push("https://ifconfig.co/country-iso".to_owned());
    proof {
        assert(crate::text::seen(r@) =~= service_list());
    }
    r
}

pub open spec fn service_list() -> Seq<Seq<char>> {
    seq![
        "https://1.1.1.1/cdn-cgi/trace"@,
        "https://ipinfo.io/country"@,
        "https://ifconfig.co/country-iso"@,
    ]
}

// ---------------------------------------------------------------------
// One service.
// ---------------------------------------------------------------------

/// The host of a URL.
pub open spec fn url_host(url: Seq<char>) -> Option<Seq<char>> {
    match crate::text::after(url, "https://"@) {
        Some(rest) => Some(crate::text::split(rest, '/')[0]),
        None => None,
    }
}

pub fn host_of(url: &str) -> (r: Option<String>)
    ensures
        match r {
            Some(h) => url_host(url@) == Some(h@),
            None => url_host(url@) is None,
        },
{
    match after_of(url, "https://") {
        Some(rest) => {
            let p = split_of(rest.as_str(), '/');
            proof {
                assert(crate::text::pieces(rest@, crate::text::one('/')).len() >= 1);
                assert(crate::text::seen(p@)[0] == p@[0]@);
            }
            Some(p[0].clone())
        },
        None => None,
    }
}

/// The address of a service by the answer of the network DNS: the first,
/// unless one of them is a fake.
pub fn service_address(answer: &[u8]) -> (r: Result<Ipv4Addr, String>)
    ensures
        match crate::dns::decoded(answer@) {
            Err(e) => r matches Err(f) && f@ == e,
            Ok(m) => if crate::dns::faked(m.answers) {
                r matches Err(e) && e@ == "fakeip"@
            } else if crate::dns::addresses(m.answers).len() == 0 {
                r matches Err(e) && e@ == "no address"@
            } else {
                r == Ok::<Ipv4Addr, String>(crate::dns::addresses(m.answers)[0])
            },
        },
{
    let m = match decode(answer) {
        Ok(m) => m,
        Err(e) => {
            return Err(e);
        },
    };
    if has_fakeip(&m) {
        return Err("fakeip".to_owned());
    }
    let ips = ipv4_answers(&m);
    if ips.len() == 0 {
        return Err("no address".to_owned());
    }
    Ok(ips[0])
}

/// The arguments of curl for a service at `ip`: through the physical
/// interface, and to that address when the host is a name.
pub open spec fn ask_args(
    url: Seq<char>,
    host: Seq<char>,
    ip: Ipv4Addr,
    iface: Seq<char>,
) -> Seq<Seq<char>> {
    seq!["-s"@, "-f"@, "-m"@, "5"@, "--interface"@, iface] + (if crate::addr::address(
        host,
    ) is Some {
        seq![url]
    } else {
        seq!["--resolve"@, host + ":443:"@ + ip.shown(), url]
    })
}

/// How to ask a service at `ip`; refused when pf may hold the address back.
pub fn asking(url: &str, host: &str, ip: Ipv4Addr, iface: &str, held: bool) -> (r: Result<
    Vec<String>,
    String,
>)
    ensures
        match r {
            Ok(v) => !held && crate::text::seen(v@) == ask_args(url@, host@, ip, iface@),
            Err(e) => held && e@ == ip.shown() + " listed"@,
        },
{
    if held {
        let mut e = ip.to_string();
        e.append(" listed");
        return Err(e);
    }
    let mut v: Vec<String> = Vec::new();
    v.push("-s".to_owned());
    v.push("-f".to_owned());
    v.push("-m".to_owned());
    v.push("5".to_owned());
    v.push("--interface".to_owned());
    v.push(iface.to_owned());
    if Ipv4Addr::parse(host).is_none() {
        let mut to = host.to_owned();
        to.append(":443:");
        to.append(ip.to_string().as_str());
        v.push("--resolve".to_owned());
        v.push(to);
    }
    v.push(url.to_owned());
    proof {
        assert(crate::text::seen(v@) =~= ask_args(url@, host@, ip, iface@));
    }
    Ok(v)
}

/// The code a line holds: two capital letters alone, or after `loc=` as in
/// the trace of Cloudflare.
pub open spec fn line_code(line: Seq<char>) -> Option<Seq<char>> {
    let v = crate::text::trim(line);
    let v = match crate::text::after(v, "loc="@) {
        Some(rest) => rest,
        None => v,
    };
    if crate::config::country_code(v) {
        Some(v)
    } else {
        None
    }
}

/// The code of the first line that holds one.
pub open spec fn first_code(lines: Seq<Seq<char>>) -> Option<Seq<char>>
    decreases lines.len(),
{
    if lines.len() == 0 {
        None
    } else if line_code(lines[0]) is Some {
        line_code(lines[0])
    } else {
        first_code(lines.skip(1))
    }
}

pub open spec fn body_code(body: Seq<char>) -> Option<Seq<char>> {
    first_code(crate::text::lines(body))
}

/// Two capital letters on a line of their own, or after `loc=` as in the
/// trace of Cloudflare.
pub fn code(body: &str) -> (r: Option<String>)
    ensures
        match r {
            Some(c) => body_code(body@) == Some(c@),
            None => body_code(body@) is None,
        },
{
    let lines = lines_of(body);
    let ghost all = crate::text::seen(lines@);
    let mut i: usize = 0;
    proof {
        assert(all.skip(0) =~= all);
    }
    while i < lines.len()
        invariant
            i <= lines@.len(),
            all == crate::text::seen(lines@),
            first_code(all.skip(i as int)) == body_code(body@),
        decreases lines@.len() - i,
    {
        proof {
            assert(all.skip(i as int)[0] == lines@[i as int]@);
            assert(all.skip(i as int).skip(1) =~= all.skip(i + 1));
        }
        let line = trim_of(lines[i].as_str());
        let v = match after_of(line.as_str(), "loc=") {
            Some(rest) => rest,
            None => line,
        };
        let c = chars_of(v.as_str());
        if c.len() == 2 && 'A' <= c[0] && c[0] <= 'Z' && 'A' <= c[1] && c[1] <= 'Z' {
            return Some(v);
        }
        i += 1;
    }
    None
}

// ---------------------------------------------------------------------
// All of them.
// ---------------------------------------------------------------------

/// The codes among the answers, in order.
pub open spec fn codes(answers: Seq<Result<String, String>>) -> Seq<Seq<char>>
    decreases answers.len(),
{
    if answers.len() == 0 {
        seq![]
    } else {
        match answers.last() {
            Ok(c) => codes(answers.drop_last()).push(c@),
            Err(_) => codes(answers.drop_last()),
        }
    }
}

/// How many of the codes are `c`.
pub open spec fn votes(codes: Seq<Seq<char>>, c: Seq<char>) -> nat
    decreases codes.len(),
{
    if codes.len() == 0 {
        0
    } else {
        votes(codes.drop_last(), c) + (if codes.last() == c {
            1nat
        } else {
            0nat
        })
    }
}

/// More than half of the codes are `c`.
pub open spec fn carries(codes: Seq<Seq<char>>, c: Seq<char>) -> bool {
    votes(codes, c) * 2 > codes.len()
}

fn codes_of(answers: &Vec<Result<String, String>>) -> (r: Vec<String>)
    ensures
        crate::text::seen(r@) == codes(answers@),
{
    let mut r: Vec<String> = Vec::new();
    let mut i: usize = 0;
    proof {
        assert(answers@.take(0) =~= seq![]);
        assert(crate::text::seen(r@) =~= seq![]);
    }
    while i < answers.len()
        invariant
            i <= answers@.len(),
            crate::text::seen(r@) == codes(answers@.take(i as int)),
        decreases answers@.len() - i,
    {
        proof {
            assert(answers@.take(i + 1).drop_last() =~= answers@.take(i as int));
        }
        if let Ok(c) = &answers[i] {
            let s = c.clone();
            proof {
                crate::text::lemma_seen_push(r@, s);
            }
            r.push(s);
        }
        i += 1;
    }
    proof {
        assert(answers@.take(i as int) =~= answers@);
    }
    r
}

fn votes_of(codes: &Vec<String>, c: &str) -> (r: usize)
    ensures
        r == votes(crate::text::seen(codes@), c@),
        r <= codes@.len(),
{
    let ghost all = crate::text::seen(codes@);
    let mut n: usize = 0;
    let mut i: usize = 0;
    proof {
        assert(all.take(0) =~= seq![]);
    }
    while i < codes.len()
        invariant
            i <= codes@.len(),
            all == crate::text::seen(codes@),
            n == votes(all.take(i as int), c@),
            n <= i,
        decreases codes@.len() - i,
    {
        proof {
            assert(all.take(i + 1).drop_last() =~= all.take(i as int));
            assert(all.take(i + 1).last() == codes@[i as int]@);
        }
        if same(codes[i].as_str(), c) {
            n += 1;
        }
        i += 1;
    }
    proof {
        assert(all.take(i as int) =~= all);
    }
    n
}

/// The code more than half of the answers that came give.
pub fn majority(answers: &Vec<Result<String, String>>) -> (r: Option<String>)
    ensures
        match r {
            Some(c) => carries(codes(answers@), c@),
            None => forall|c: Seq<char>| !carries(codes(answers@), c),
        },
{
    let codes = codes_of(answers);
    let ghost all = crate::text::seen(codes@);
    let mut i: usize = 0;
    while i < codes.len()
        invariant
            i <= codes@.len(),
            all == crate::text::seen(codes@),
            all == crate::geo::codes(answers@),
            forall|j: int| 0 <= j < i ==> !carries(all, #[trigger] all[j]),
        decreases codes@.len() - i,
    {
        let n = votes_of(&codes, codes[i].as_str());
        proof {
            assert(all[i as int] == codes@[i as int]@);
        }
        if n > codes.len() - n {
            return Some(codes[i].clone());
        }
        i += 1;
    }
    proof {
        assert forall|c: Seq<char>| !carries(all, c) by {
            if !all.contains(c) {
                lemma_no_votes(all, c);
            } else {
                let j = choose|j: int| 0 <= j < all.len() && all[j] == c;
                assert(!carries(all, all[j]));
            }
        }
    }
    None
}

proof fn lemma_no_votes(codes: Seq<Seq<char>>, c: Seq<char>)
    requires
        !codes.contains(c),
    ensures
        votes(codes, c) == 0,
    decreases codes.len(),
{
    if codes.len() > 0 {
        let rest = codes.drop_last();
        assert(codes[codes.len() - 1] != c);
        assert(!rest.contains(c)) by {
            if rest.contains(c) {
                let j = choose|j: int| 0 <= j < rest.len() && rest[j] == c;
                assert(codes[j] == c);
            }
        }
        lemma_no_votes(rest, c);
    }
}

proof fn lemma_votes_share(codes: Seq<Seq<char>>, a: Seq<char>, b: Seq<char>)
    requires
        a != b,
    ensures
        votes(codes, a) + votes(codes, b) <= codes.len(),
    decreases codes.len(),
{
    if codes.len() > 0 {
        lemma_votes_share(codes.drop_last(), a, b);
    }
}

/// There is at most one country: no two codes have more than half of the
/// answers each.
pub proof fn lemma_one_country(codes: Seq<Seq<char>>, a: Seq<char>, b: Seq<char>)
    requires
        carries(codes, a),
        carries(codes, b),
    ensures
        a == b,
{
    if a != b {
        lemma_votes_share(codes, a, b);
    }
}

proof fn lemma_codes_without(answers: Seq<Result<String, String>>, j: int, c: Seq<char>)
    requires
        0 <= j < answers.len(),
    ensures
        votes(codes(answers), c) == votes(codes(answers.remove(j)), c) + (if answers[j] matches Ok(
            s,
        ) && s@ == c {
            1nat
        } else {
            0nat
        }),
        codes(answers).len() == codes(answers.remove(j)).len() + (if answers[j] is Ok {
            1nat
        } else {
            0nat
        }),
    decreases answers.len(),
{
    let rest = answers.drop_last();
    let without = answers.remove(j);
    match answers.last() {
        Ok(s) => {
            assert(codes(answers).drop_last() =~= codes(rest));
        },
        Err(_) => {},
    }
    if j == answers.len() - 1 {
        assert(without =~= rest);
    } else {
        lemma_codes_without(rest, j, c);
        assert(without.drop_last() =~= rest.remove(j));
        assert(without.last() == answers.last());
        match answers.last() {
            Ok(s) => {
                assert(codes(without).drop_last() =~= codes(rest.remove(j)));
            },
            Err(_) => {},
        }
    }
}

proof fn lemma_codes_in_any_order(
    a: Seq<Result<String, String>>,
    b: Seq<Result<String, String>>,
    c: Seq<char>,
)
    requires
        a.to_multiset() == b.to_multiset(),
    ensures
        votes(codes(a), c) == votes(codes(b), c),
        codes(a).len() == codes(b).len(),
    decreases a.len(),
{
    a.to_multiset_ensures();
    b.to_multiset_ensures();
    assert(a.len() == b.len());
    if a.len() > 0 {
        let x = a.last();
        let k = a.len() - 1;
        assert(a[k] == x);
        assert(a.contains(x));
        assert(b.to_multiset().count(x) > 0);
        assert(b.contains(x));
        let j = choose|j: int| 0 <= j < b.len() && b[j] == x;
        assert(a.remove(k).to_multiset() =~= a.to_multiset().remove(a[k]));
        assert(b.remove(j).to_multiset() =~= b.to_multiset().remove(b[j]));
        lemma_codes_in_any_order(a.remove(k), b.remove(j), c);
        lemma_codes_without(a, k, c);
        lemma_codes_without(b, j, c);
    }
}

/// The order in which the services answer does not count.
pub proof fn lemma_majority_in_any_order(
    a: Seq<Result<String, String>>,
    b: Seq<Result<String, String>>,
    c: Seq<char>,
)
    requires
        a.to_multiset() == b.to_multiset(),
    ensures
        carries(codes(a), c) == carries(codes(b), c),
{
    lemma_codes_in_any_order(a, b, c);
}

/// The country, if the answers agree, and what each service said.
#[derive(Debug)]
pub struct Asked {
    pub country: Option<String>,
    pub shown: String,
}

/// What a service said, after its host.
pub open spec fn said(url: Seq<char>, r: Result<String, String>) -> Seq<char> {
    let host = match url_host(url) {
        Some(h) => h,
        None => url,
    };
    match r {
        Ok(code) => host + "="@ + code@,
        Err(e) => host + "=("@ + e@ + ")"@,
    }
}

/// The country by what the services said, one answer for each.
pub fn country(urls: &Vec<String>, answers: &Vec<Result<String, String>>) -> (r: Asked)
    requires
        urls@.len() == answers@.len(),
    ensures
        match r.country {
            Some(c) => carries(codes(answers@), c@),
            None => forall|c: Seq<char>| !carries(codes(answers@), c),
        },
        r.shown@ == crate::text::join(
            Seq::new(answers@.len(), |i: int| said(urls@[i]@, answers@[i])),
            " "@,
        ),
{
    let mut shown: Vec<String> = Vec::new();
    let mut i: usize = 0;
    while i < answers.len()
        invariant
            i <= answers@.len(),
            urls@.len() == answers@.len(),
            shown@.len() == i,
            forall|j: int| 0 <= j < i ==> (#[trigger] shown@[j])@ == said(urls@[j]@, answers@[j]),
        decreases answers@.len() - i,
    {
        let mut s = match host_of(urls[i].as_str()) {
            Some(h) => h,
            None => urls[i].clone(),
        };
        match &answers[i] {
            Ok(code) => {
                s.append("=");
                s.append(code.as_str());
            },
            Err(e) => {
                s.append("=(");
                s.append(e.as_str());
                s.append(")");
            },
        }
        shown.push(s);
        i += 1;
    }
    proof {
        assert(crate::text::seen(shown@) =~= Seq::new(
            answers@.len(),
            |i: int| said(urls@[i]@, answers@[i]),
        ));
    }
    Asked { country: majority(answers), shown: join_of(&shown, " ") }
}

// ---------------------------------------------------------------------
// Laws.
// ---------------------------------------------------------------------

/// The host of an address of the web is what stands between `https://` and
/// the next slash; another text has none.
pub proof fn lemma_what_a_host_is(host: Seq<char>, rest: Seq<char>)
    requires
        !host.contains('/'),
    ensures
        url_host("https://"@ + host) == Some(host),
        url_host("https://"@ + (host + seq!['/'] + rest)) == Some(host),
        !crate::text::starts(rest, "https://"@) ==> url_host(rest) is None,
{
    let p = "https://"@;
    crate::text::lemma_split_one(host, '/');
    crate::text::lemma_split_cons(host, '/', rest);
    let (a, b) = (p + host, p + (host + seq!['/'] + rest));
    assert(a.take(p.len() as int) =~= p);
    assert(b.take(p.len() as int) =~= p);
    assert(a.skip(p.len() as int) =~= host);
    assert(b.skip(p.len() as int) =~= host + seq!['/'] + rest);
    assert(crate::text::split(host, '/')[0] == host);
    assert(crate::text::split(host + seq!['/'] + rest, '/')[0] == host);
}

/// A line holds a code when it is two capital letters, alone or after
/// `loc=`, with white space round them at most.
pub proof fn lemma_what_a_code_is(line: Seq<char>)
    ensures
        ({
            let v = crate::text::trim(line);
            let w = if v.len() >= 4 && v[0] == 'l' && v[1] == 'o' && v[2] == 'c' && v[3] == '=' {
                v.skip(4)
            } else {
                v
            };
            line_code(line) == if w.len() == 2 && 'A' <= w[0] <= 'Z' && 'A' <= w[1] <= 'Z' {
                Some(w)
            } else {
                None
            }
        }),
{
    reveal_strlit("loc=");
    let v = crate::text::trim(line);
    let p = "loc="@;
    if crate::text::starts(v, p) {
        let t = v.take(4);
        assert(t[0] == v[0] && t[1] == v[1] && t[2] == v[2] && t[3] == v[3]);
    } else if v.len() >= 4 && v[0] == 'l' && v[1] == 'o' && v[2] == 'c' && v[3] == '=' {
        assert(v.take(4) =~= p);
    }
}

/// The code of a page is that of the first line that holds one.
pub proof fn lemma_the_first_code(lines: Seq<Seq<char>>, i: int)
    requires
        0 <= i <= lines.len(),
        forall|j: int| 0 <= j < i ==> line_code(#[trigger] lines[j]) is None,
        i < lines.len() ==> line_code(lines[i]) is Some,
    ensures
        first_code(lines) == if i < lines.len() {
            line_code(lines[i])
        } else {
            None
        },
    decreases i,
{
    if i > 0 {
        let r = lines.skip(1);
        assert(line_code(lines[0]) is None);
        assert forall|j: int| 0 <= j < i - 1 implies line_code(#[trigger] r[j]) is None by {
            assert(r[j] == lines[j + 1]);
        }
        lemma_the_first_code(r, i - 1);
    }
}

/// The codes are those of the services that gave one, in order, and a
/// country has as many votes as it has among them.
pub proof fn lemma_the_votes(answers: Seq<Result<String, String>>, all: Seq<Seq<char>>, c: Seq<char>)
    ensures
        codes(answers) == answers.filter(|r: Result<String, String>| r is Ok).map_values(
            |r: Result<String, String>| r->Ok_0@,
        ),
        votes(all, c) == all.filter(|x: Seq<char>| x == c).len(),
        carries(all, c) <==> all.filter(|x: Seq<char>| x == c).len() > all.len()
            - all.filter(|x: Seq<char>| x == c).len(),
    decreases answers.len() + all.len(),
{
    reveal(Seq::filter);
    let p = |r: Result<String, String>| r is Ok;
    let f = |r: Result<String, String>| r->Ok_0@;
    if answers.len() > 0 {
        lemma_the_votes(answers.drop_last(), seq![], c);
    }
    assert(codes(answers) =~= answers.filter(p).map_values(f));
    if all.len() > 0 {
        lemma_the_votes(seq![], all.drop_last(), c);
    }
}

/// A service is asked past the tunnels, for five seconds at most, and by
/// the address that was found for its name.
pub proof fn lemma_how_a_service_is_asked(
    url: Seq<char>,
    host: Seq<char>,
    ip: Ipv4Addr,
    iface: Seq<char>,
)
    ensures
        crate::addr::address(host) is Some ==> ask_args(url, host, ip, iface) == seq![
            "-s"@,
            "-f"@,
            "-m"@,
            "5"@,
            "--interface"@,
            iface,
            url,
        ],
        crate::addr::address(host) is None ==> ask_args(url, host, ip, iface) == seq![
            "-s"@,
            "-f"@,
            "-m"@,
            "5"@,
            "--interface"@,
            iface,
            "--resolve"@,
            host + ":443:"@ + ip.shown(),
            url,
        ],
{
    assert(seq!["-s"@, "-f"@, "-m"@, "5"@, "--interface"@, iface] + seq![url] =~= seq![
        "-s"@,
        "-f"@,
        "-m"@,
        "5"@,
        "--interface"@,
        iface,
        url,
    ]);
    assert(seq!["-s"@, "-f"@, "-m"@, "5"@, "--interface"@, iface] + seq![
        "--resolve"@,
        host + ":443:"@ + ip.shown(),
        url,
    ] =~= seq![
        "-s"@,
        "-f"@,
        "-m"@,
        "5"@,
        "--interface"@,
        iface,
        "--resolve"@,
        host + ":443:"@ + ip.shown(),
        url,
    ]);
}

/// What a service said is shown after its host, an error in brackets.
pub proof fn lemma_how_an_answer_is_shown(
    url: Seq<char>,
    code: String,
    e: String,
)
    ensures
        ({
            let host = if url_host(url) is Some {
                url_host(url)->0
            } else {
                url
            };
            &&& said(url, Ok(code)) == host + "="@ + code@
            &&& said(url, Err(e)) == host + "=("@ + e@ + ")"@
        }),
{
}

/// Three services are asked, and the code of a page is that of its first
/// line with one.
pub proof fn lemma_who_is_asked(body: Seq<char>)
    ensures
        service_list() == seq![
            "https://1.1.1.1/cdn-cgi/trace"@,
            "https://ipinfo.io/country"@,
            "https://ifconfig.co/country-iso"@,
        ],
        body_code(body) == first_code(crate::text::lines(body)),
{
}

} // verus!
