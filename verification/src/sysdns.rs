//! The DNS of the Mac: every network service is set to the resolver, and
//! what each had is kept in a file next to the state until a stop puts it
//! back. A crash leaves both, and the next start keeps the file it finds.

use vstd::prelude::*;
use vstd::string::*;

use crate::addr::Ipv4Addr;
use crate::ipv6;
use crate::text::{
    after_of, among, around_of, copies, join_of, lines_of, page_of, same, words_of,
};

verus! {

/// A service and the servers it had; none means those from DHCP.
#[derive(Debug)]
pub struct Entry {
    pub service: String,
    pub servers: Vec<String>,
}

/// An entry as a mathematical value.
#[verifier::ext_equal]
pub struct Had {
    pub service: Seq<char>,
    pub servers: Seq<Seq<char>>,
}

impl Entry {
    pub open spec fn view(&self) -> Had {
        Had { service: self.service@, servers: crate::text::seen(self.servers@) }
    }
}

pub open spec fn all_had(v: Seq<Entry>) -> Seq<Had> {
    v.map_values(|e: Entry| e@)
}

// ---------------------------------------------------------------------
// Addresses.
// ---------------------------------------------------------------------

/// An address of either kind.
pub open spec fn ip(s: Seq<char>) -> bool {
    crate::addr::address(s) is Some || crate::ipv6::ipv6(s) is Some
}

/// `IpAddr::from_str` takes the text.
pub fn is_ip(s: &str) -> (r: bool)
    ensures
        r == ip(s@),
{
    Ipv4Addr::parse(s).is_some() || ipv6::parse(s).is_some()
}

// ---------------------------------------------------------------------
// What the tools print, and the file.
// ---------------------------------------------------------------------

/// A service on a line, without the asterisk of a disabled one.
pub open spec fn service_line(line: Seq<char>) -> Seq<char> {
    match crate::text::after(line, "*"@) {
        Some(rest) => rest,
        None => line,
    }
}

pub open spec fn service_lines(lines: Seq<Seq<char>>) -> Seq<Seq<char>>
    decreases lines.len(),
{
    if lines.len() == 0 {
        seq![]
    } else {
        let rest = service_lines(lines.drop_last());
        if service_line(lines.last()).len() == 0 {
            rest
        } else {
            rest.push(service_line(lines.last()))
        }
    }
}

/// The services of a listing: every line but the first.
pub open spec fn listed_services(out: Seq<char>) -> Seq<Seq<char>> {
    let lines = crate::text::lines(out);
    if lines.len() == 0 {
        seq![]
    } else {
        service_lines(lines.skip(1))
    }
}

/// Services as `-listallnetworkservices` prints them: the first line
/// explains the asterisk that marks a disabled one.
pub fn parse_services(out: &str) -> (r: Vec<String>)
    ensures
        crate::text::seen(r@) == listed_services(out@),
{
    let lines = lines_of(out);
    let ghost all = crate::text::seen(lines@);
    let mut r: Vec<String> = Vec::new();
    proof {
        assert(crate::text::seen(r@) =~= seq![]);
    }
    if lines.len() == 0 {
        return r;
    }
    let ghost rest = all.skip(1);
    let mut i: usize = 1;
    proof {
        assert(rest.take(0) =~= seq![]);
    }
    while i < lines.len()
        invariant
            1 <= i <= lines@.len(),
            all == crate::text::seen(lines@),
            rest == all.skip(1),
            crate::text::seen(r@) == service_lines(rest.take(i - 1)),
        decreases lines@.len() - i,
    {
        proof {
            assert(rest.take(i as int).drop_last() =~= rest.take(i - 1));
            assert(rest.take(i as int).last() == lines@[i as int]@);
        }
        let s = match after_of(lines[i].as_str(), "*") {
            Some(rest) => rest,
            None => lines[i].clone(),
        };
        if !s.as_str().is_empty() {
            proof {
                crate::text::lemma_seen_push(r@, s);
            }
            r.push(s);
        }
        i += 1;
    }
    proof {
        assert(rest.take(i - 1) =~= rest);
    }
    r
}

pub open spec fn ip_words(words: Seq<Seq<char>>) -> Seq<Seq<char>>
    decreases words.len(),
{
    if words.len() == 0 {
        seq![]
    } else if ip(words.last()) {
        ip_words(words.drop_last()).push(words.last())
    } else {
        ip_words(words.drop_last())
    }
}

/// Addresses in what `-getdnsservers` prints; "There aren't any" has none.
pub fn parse_servers(out: &str) -> (r: Vec<String>)
    ensures
        crate::text::seen(r@) == ip_words(crate::text::words(out@)),
{
    let words = words_of(out);
    let ghost all = crate::text::seen(words@);
    let mut r: Vec<String> = Vec::new();
    let mut i: usize = 0;
    proof {
        assert(all.take(0) =~= seq![]);
        assert(crate::text::seen(r@) =~= seq![]);
    }
    while i < words.len()
        invariant
            i <= words@.len(),
            all == crate::text::seen(words@),
            crate::text::seen(r@) == ip_words(all.take(i as int)),
        decreases words@.len() - i,
    {
        proof {
            assert(all.take(i + 1).drop_last() =~= all.take(i as int));
            assert(all.take(i + 1).last() == words@[i as int]@);
        }
        if is_ip(words[i].as_str()) {
            let s = words[i].clone();
            proof {
                crate::text::lemma_seen_push(r@, s);
            }
            r.push(s);
        }
        i += 1;
    }
    proof {
        assert(all.take(i as int) =~= all);
    }
    r
}

/// An entry on a line: the service, a tab, and its servers.
pub open spec fn saved_line(line: Seq<char>) -> Option<Had> {
    match crate::text::around(line, '\t') {
        Some((service, servers)) => Some(
            Had { service, servers: crate::text::words(servers) },
        ),
        None => None,
    }
}

pub open spec fn saved_lines(lines: Seq<Seq<char>>) -> Seq<Had>
    decreases lines.len(),
{
    if lines.len() == 0 {
        seq![]
    } else {
        match saved_line(lines.last()) {
            Some(h) => saved_lines(lines.drop_last()).push(h),
            None => saved_lines(lines.drop_last()),
        }
    }
}

pub fn parse_saved(text: &str) -> (r: Vec<Entry>)
    ensures
        all_had(r@) == saved_lines(crate::text::lines(text@)),
{
    let lines = lines_of(text);
    let ghost all = crate::text::seen(lines@);
    let mut r: Vec<Entry> = Vec::new();
    let mut i: usize = 0;
    proof {
        assert(all.take(0) =~= seq![]);
        assert(all_had(r@) =~= seq![]);
    }
    while i < lines.len()
        invariant
            i <= lines@.len(),
            all == crate::text::seen(lines@),
            all_had(r@) == saved_lines(all.take(i as int)),
        decreases lines@.len() - i,
    {
        proof {
            assert(all.take(i + 1).drop_last() =~= all.take(i as int));
            assert(all.take(i + 1).last() == lines@[i as int]@);
        }
        if let Some((service, servers)) = around_of(lines[i].as_str(), '\t') {
            let ghost before = r@;
            let e = Entry { service, servers: words_of(servers.as_str()) };
            r.push(e);
            proof {
                assert(all_had(r@) =~= all_had(before).push(e@));
            }
        }
        i += 1;
    }
    proof {
        assert(all.take(i as int) =~= all);
    }
    r
}

pub open spec fn saved_text(h: Had) -> Seq<char> {
    h.service + "\t"@ + crate::text::join(h.servers, " "@)
}

pub fn format_saved(entries: &Vec<Entry>) -> (r: String)
    ensures
        r@ == crate::text::paged(all_had(entries@).map_values(|h: Had| saved_text(h))),
{
    let mut lines: Vec<String> = Vec::new();
    let mut i: usize = 0;
    while i < entries.len()
        invariant
            i <= entries@.len(),
            lines@.len() == i,
            forall|j: int| 0 <= j < i ==> (#[trigger] lines@[j])@ == saved_text(entries@[j]@),
        decreases entries@.len() - i,
    {
        let mut s = entries[i].service.clone();
        s.append("\t");
        s.append(join_of(&entries[i].servers, " ").as_str());
        lines.push(s);
        i += 1;
    }
    proof {
        assert(crate::text::seen(lines@) =~= all_had(entries@).map_values(
            |h: Had| saved_text(h),
        ));
    }
    page_of(&lines)
}

/// The arguments that set the servers of a service.
pub open spec fn set_list(service: Seq<char>, servers: Seq<Seq<char>>) -> Seq<Seq<char>> {
    seq!["-setdnsservers"@, service] + (if servers.len() == 0 {
        seq!["Empty"@]
    } else {
        servers
    })
}

pub fn set_args(service: &str, servers: &Vec<String>) -> (r: Vec<String>)
    ensures
        crate::text::seen(r@) == set_list(service@, crate::text::seen(servers@)),
{
    let mut v: Vec<String> = Vec::new();
    v.push("-setdnsservers".to_owned());
    v.push(service.to_owned());
    if servers.len() == 0 {
        v.push("Empty".to_owned());
        proof {
            assert(crate::text::seen(v@) =~= set_list(service@, crate::text::seen(servers@)));
        }
        return v;
    }
    let ghost head = crate::text::seen(v@);
    let ghost all = crate::text::seen(servers@);
    let mut i: usize = 0;
    proof {
        assert(head + all.take(0) =~= head);
        assert(head =~= seq!["-setdnsservers"@, service@]);
    }
    while i < servers.len()
        invariant
            i <= servers@.len(),
            all == crate::text::seen(servers@),
            crate::text::seen(v@) == head + all.take(i as int),
        decreases servers@.len() - i,
    {
        let s = servers[i].clone();
        proof {
            crate::text::lemma_seen_push(v@, s);
        }
        v.push(s);
        i += 1;
        proof {
            assert(head + all.take(i as int) =~= (head + all.take(i - 1)).push(all[i - 1]));
        }
    }
    proof {
        assert(all.take(i as int) =~= all);
    }
    v
}

// ---------------------------------------------------------------------
// Taking over.
// ---------------------------------------------------------------------

/// A service and the servers it has now, or why they could not be read.
#[derive(Debug)]
pub struct Found {
    pub service: String,
    pub servers: Result<Vec<String>, String>,
}

/// What taking over comes to before anything is set: what to keep in the
/// file and whether that is new, the services to set, and the first error.
#[derive(Debug)]
pub struct Takeover {
    pub saved: Vec<Entry>,
    pub changed: bool,
    pub todo: Vec<String>,
    pub first: Option<String>,
}

/// The same as a mathematical value.
#[verifier::ext_equal]
pub struct Taken {
    pub saved: Seq<Had>,
    pub changed: bool,
    pub todo: Seq<Seq<char>>,
    pub first: Option<Seq<char>>,
}

impl Takeover {
    pub open spec fn view(&self) -> Taken {
        Taken {
            saved: all_had(self.saved@),
            changed: self.changed,
            todo: crate::text::seen(self.todo@),
            first: match self.first {
                Some(e) => Some(e@),
                None => None,
            },
        }
    }
}

/// The servers without the resolver's own address: put back, that would
/// leave the Mac without names.
pub open spec fn without_local(servers: Seq<Seq<char>>) -> Seq<Seq<char>>
    decreases servers.len(),
{
    if servers.len() == 0 {
        seq![]
    } else if servers.last() == "127.0.0.1"@ {
        without_local(servers.drop_last())
    } else {
        without_local(servers.drop_last()).push(servers.last())
    }
}

pub open spec fn has_service(saved: Seq<Had>, service: Seq<char>) -> bool {
    exists|i: int| 0 <= i < saved.len() && (#[trigger] saved[i]).service == service
}

impl Taken {
    /// A service read: kept if the file lacks it, set unless it is already.
    pub open spec fn with(self, service: Seq<char>, servers: Result<Seq<Seq<char>>, Seq<char>>) -> Self {
        match servers {
            Err(e) => Taken {
                first: match self.first {
                    Some(f) => Some(f),
                    None => Some(e),
                },
                ..self
            },
            Ok(now) => {
                let keep = !has_service(self.saved, service);
                Taken {
                    saved: if keep {
                        self.saved.push(Had { service, servers: without_local(now) })
                    } else {
                        self.saved
                    },
                    changed: self.changed || keep,
                    todo: if now == seq!["127.0.0.1"@] {
                        self.todo
                    } else {
                        self.todo.push(service)
                    },
                    first: self.first,
                }
            },
        }
    }

    pub open spec fn with_all(
        self,
        found: Seq<(Seq<char>, Result<Seq<Seq<char>>, Seq<char>>)>,
    ) -> Self
        decreases found.len(),
    {
        if found.len() == 0 {
            self
        } else {
            self.with_all(found.drop_last()).with(found.last().0, found.last().1)
        }
    }

    pub open spec fn start(saved: Seq<Had>) -> Self {
        Taken { saved, changed: false, todo: seq![], first: None }
    }
}

impl Found {
    pub open spec fn view(&self) -> (Seq<char>, Result<Seq<Seq<char>>, Seq<char>>) {
        (
            self.service@,
            match self.servers {
                Ok(v) => Ok(crate::text::seen(v@)),
                Err(e) => Err(e@),
            },
        )
    }
}

fn kept(servers: &Vec<String>) -> (r: Vec<String>)
    ensures
        crate::text::seen(r@) == without_local(crate::text::seen(servers@)),
{
    let ghost all = crate::text::seen(servers@);
    let mut r: Vec<String> = Vec::new();
    let mut i: usize = 0;
    proof {
        assert(all.take(0) =~= seq![]);
        assert(crate::text::seen(r@) =~= seq![]);
    }
    while i < servers.len()
        invariant
            i <= servers@.len(),
            all == crate::text::seen(servers@),
            crate::text::seen(r@) == without_local(all.take(i as int)),
        decreases servers@.len() - i,
    {
        proof {
            assert(all.take(i + 1).drop_last() =~= all.take(i as int));
            assert(all.take(i + 1).last() == servers@[i as int]@);
        }
        if !same(servers[i].as_str(), "127.0.0.1") {
            let s = servers[i].clone();
            proof {
                crate::text::lemma_seen_push(r@, s);
            }
            r.push(s);
        }
        i += 1;
    }
    proof {
        assert(all.take(i as int) =~= all);
    }
    r
}

fn is_saved(saved: &Vec<Entry>, service: &str) -> (r: bool)
    ensures
        r == has_service(all_had(saved@), service@),
{
    let ghost all = all_had(saved@);
    let mut i: usize = 0;
    while i < saved.len()
        invariant
            i <= saved@.len(),
            all == all_had(saved@),
            forall|j: int| 0 <= j < i ==> (#[trigger] all[j]).service != service@,
        decreases saved@.len() - i,
    {
        proof {
            assert(all[i as int] == saved@[i as int]@);
        }
        if same(saved[i].service.as_str(), service) {
            return true;
        }
        i += 1;
    }
    false
}

fn is_local(servers: &Vec<String>) -> (r: bool)
    ensures
        r == (crate::text::seen(servers@) == seq!["127.0.0.1"@]),
{
    let ghost all = crate::text::seen(servers@);
    if servers.len() == 1 {
        let r = same(servers[0].as_str(), "127.0.0.1");
        proof {
            assert(all[0] == servers@[0]@);
            if r {
                assert(all =~= seq!["127.0.0.1"@]);
            } else {
                assert(seq!["127.0.0.1"@][0] == "127.0.0.1"@);
            }
        }
        r
    } else {
        proof {
            assert(seq!["127.0.0.1"@].len() == 1);
        }
        false
    }
}

/// What the file keeps; nothing without it.
pub open spec fn in_file(saved: Option<Vec<Entry>>) -> Seq<Had> {
    match saved {
        Some(s) => all_had(s@),
        None => seq![],
    }
}

/// Sets every service to the resolver. A service the file lacks has what
/// it had written there first, without the resolver's own address: put
/// back, that would leave the Mac without names. A service that fails is
/// skipped, not the rest: the first error is returned after them.
pub fn take_over(saved: Option<Vec<Entry>>, found: Vec<Found>) -> (r: Takeover)
    ensures
        r@ == Taken::start(in_file(saved)).with_all(found@.map_values(|f: Found| f@)),
{
    let ghost start = Taken::start(in_file(saved));
    let saved: Vec<Entry> = match saved {
        Some(s) => s,
        None => Vec::new(),
    };
    let mut t = Takeover { saved, changed: false, todo: Vec::new(), first: None };
    let ghost all = found@.map_values(|f: Found| f@);
    let mut i: usize = 0;
    proof {
        assert(all.take(0) =~= seq![]);
        assert(t@ =~= start);
    }
    while i < found.len()
        invariant
            i <= found@.len(),
            all == found@.map_values(|f: Found| f@),
            t@ == start.with_all(all.take(i as int)),
        decreases found@.len() - i,
    {
        let ghost before = t@;
        let ghost was = t;
        proof {
            assert(all.take(i + 1).drop_last() =~= all.take(i as int));
            assert(all.take(i + 1).last() == found@[i as int]@);
        }
        match &found[i].servers {
            Err(e) => {
                if t.first.is_none() {
                    t.first = Some(e.clone());
                }
            },
            Ok(now) => {
                let service = found[i].service.as_str();
                if !is_saved(&t.saved, service) {
                    let e = Entry { service: service.to_owned(), servers: kept(now) };
                    t.saved.push(e);
                    t.changed = true;
                    proof {
                        assert(all_had(t.saved@) =~= all_had(was.saved@).push(e@));
                    }
                }
                if !is_local(now) {
                    let s = service.to_owned();
                    proof {
                        crate::text::lemma_seen_push(t.todo@, s);
                    }
                    t.todo.push(s);
                }
            },
        }
        proof {
            assert(t@ =~= before.with(all[i as int].0, all[i as int].1));
        }
        i += 1;
    }
    proof {
        assert(all.take(i as int) =~= all);
    }
    t
}

/// How many were set.
pub open spec fn successes(results: Seq<Result<(), String>>) -> nat
    decreases results.len(),
{
    if results.len() == 0 {
        0
    } else {
        successes(results.drop_last()) + (if results.last() is Ok {
            1nat
        } else {
            0nat
        })
    }
}

/// The first of the errors.
pub open spec fn first_error(results: Seq<Result<(), String>>) -> Option<Seq<char>>
    decreases results.len(),
{
    if results.len() == 0 {
        None
    } else {
        match first_error(results.drop_last()) {
            Some(e) => Some(e),
            None => match results.last() {
                Ok(()) => None,
                Err(e) => Some(e@),
            },
        }
    }
}

/// What setting the services came to: how many were set, and the first
/// error there was, if any.
pub fn settled(first: Option<String>, results: &Vec<Result<(), String>>) -> (r: (
    usize,
    Option<String>,
))
    ensures
        r.0 == successes(results@),
        match r.1 {
            Some(e) => e@ == (match first {
                Some(f) => f@,
                None => first_error(results@)->0,
            }) && (first is Some || first_error(results@) is Some),
            None => first is None && first_error(results@) is None,
        },
{
    let mut n: usize = 0;
    let mut error: Option<String> = None;
    let mut i: usize = 0;
    proof {
        assert(results@.take(0) =~= seq![]);
    }
    while i < results.len()
        invariant
            i <= results@.len(),
            n <= i,
            n == successes(results@.take(i as int)),
            match error {
                Some(e) => first_error(results@.take(i as int)) == Some(e@),
                None => first_error(results@.take(i as int)) is None,
            },
        decreases results@.len() - i,
    {
        proof {
            assert(results@.take(i + 1).drop_last() =~= results@.take(i as int));
        }
        match &results[i] {
            Ok(()) => {
                n += 1;
            },
            Err(e) => {
                if error.is_none() {
                    error = Some(e.clone());
                }
            },
        }
        i += 1;
    }
    proof {
        assert(results@.take(i as int) =~= results@);
    }
    match first {
        Some(f) => (n, Some(f)),
        None => (n, error),
    }
}

/// The entries of services that are still there, in order.
pub open spec fn still_there(saved: Seq<Had>, present: Seq<Seq<char>>) -> Seq<Had>
    decreases saved.len(),
{
    if saved.len() == 0 {
        seq![]
    } else if present.contains(saved.last().service) {
        still_there(saved.drop_last(), present).push(saved.last())
    } else {
        still_there(saved.drop_last(), present)
    }
}

/// Puts back what the file kept, for the services still there: what to set
/// each to.
pub fn give_back(saved: &Vec<Entry>, present: &Vec<String>) -> (r: Vec<Entry>)
    ensures
        all_had(r@) == still_there(all_had(saved@), crate::text::seen(present@)),
{
    let ghost all = all_had(saved@);
    let mut r: Vec<Entry> = Vec::new();
    let mut i: usize = 0;
    proof {
        assert(all.take(0) =~= seq![]);
        assert(all_had(r@) =~= seq![]);
    }
    while i < saved.len()
        invariant
            i <= saved@.len(),
            all == all_had(saved@),
            all_had(r@) == still_there(all.take(i as int), crate::text::seen(present@)),
        decreases saved@.len() - i,
    {
        proof {
            assert(all.take(i + 1).drop_last() =~= all.take(i as int));
            assert(all.take(i + 1).last() == saved@[i as int]@);
        }
        if among(present, saved[i].service.as_str()) {
            let ghost before = r@;
            let e = Entry {
                service: saved[i].service.clone(),
                servers: copies(&saved[i].servers),
            };
            r.push(e);
            proof {
                assert(e@ == saved@[i as int]@);
                assert(all_had(r@) =~= all_had(before).push(e@));
            }
        }
        i += 1;
    }
    proof {
        assert(all.take(i as int) =~= all);
    }
    r
}

// ---------------------------------------------------------------------
// Laws.
// ---------------------------------------------------------------------

/// An entry that can be written on a line.
pub open spec fn writable(h: Had) -> bool {
    &&& !h.service.contains('\t')
    &&& !h.service.contains('\n')
    &&& forall|i: int| 0 <= i < h.servers.len() ==> crate::text::word(#[trigger] h.servers[i])
}

proof fn lemma_join_has_no_feed(v: Seq<Seq<char>>)
    requires
        forall|i: int| 0 <= i < v.len() ==> crate::text::word(#[trigger] v[i]),
    ensures
        !crate::text::join(v, " "@).contains('\n'),
        !crate::text::join(v, " "@).contains('\r'),
    decreases v.len(),
{
    reveal_strlit(" ");
    let j = crate::text::join(v, " "@);
    if v.len() == 1 {
        assert forall|i: int| 0 <= i < j.len() implies j[i] != '\n' && j[i] != '\r' by {
            assert(crate::text::word(v[0]));
        }
    } else if v.len() > 1 {
        let front = v.drop_last();
        assert forall|i: int| 0 <= i < front.len() implies crate::text::word(
            #[trigger] front[i],
        ) by {
            assert(front[i] == v[i]);
        }
        lemma_join_has_no_feed(front);
        let a = crate::text::join(front, " "@);
        let b = v.last();
        assert(crate::text::word(v[v.len() - 1]));
        assert forall|i: int| 0 <= i < j.len() implies j[i] != '\n' && j[i] != '\r' by {
            if i < a.len() {
                assert(j[i] == a[i]);
            } else if i == a.len() {
                assert(j[i] == ' ');
            } else {
                assert(j[i] == b[i - a.len() - 1]);
            }
        }
    }
}

proof fn lemma_saved_line(h: Had)
    requires
        writable(h),
    ensures
        saved_line(saved_text(h)) == Some(h),
        crate::text::liny(saved_text(h)),
{
    reveal_strlit("\t");
    let s = saved_text(h);
    let n = h.service.len();
    let j = crate::text::join(h.servers, " "@);
    assert forall|i: int| 0 <= i < n implies !crate::text::one('\t')(#[trigger] s[i]) by {
        assert(s[i] == h.service[i]);
    }
    assert(s[n as int] == '\t');
    crate::text::lemma_first_is(s, crate::text::one('\t'), n);
    assert(s.take(n as int) =~= h.service);
    assert(s.skip(n as int + 1) =~= j);
    crate::text::lemma_words_join(h.servers);
    lemma_join_has_no_feed(h.servers);
    assert forall|i: int| 0 <= i < s.len() implies s[i] != '\n' by {
        if i < n {
            assert(s[i] == h.service[i]);
        } else if i > n {
            assert(s[i] == j[i - n - 1]);
        }
    }
    assert(s.last() != '\r') by {
        if j.len() > 0 {
            assert(s.last() == j[j.len() - 1]);
        }
    }
}

proof fn lemma_saved_lines(v: Seq<Had>)
    requires
        forall|i: int| 0 <= i < v.len() ==> writable(#[trigger] v[i]),
    ensures
        saved_lines(v.map_values(|h: Had| saved_text(h))) == v,
    decreases v.len(),
{
    let t = v.map_values(|h: Had| saved_text(h));
    if v.len() > 0 {
        let front = v.drop_last();
        assert forall|i: int| 0 <= i < front.len() implies writable(#[trigger] front[i]) by {
            assert(front[i] == v[i]);
        }
        lemma_saved_lines(front);
        assert(t.drop_last() =~= front.map_values(|h: Had| saved_text(h)));
        assert(writable(v[v.len() - 1]));
        lemma_saved_line(v.last());
        assert(v =~= front.push(v.last()));
    } else {
        assert(v =~= seq![]);
    }
}

/// What is kept in the file is what is read back from it, for services and
/// servers that fit on a line.
pub proof fn lemma_saved_round_trip(v: Seq<Had>)
    requires
        forall|i: int| 0 <= i < v.len() ==> writable(#[trigger] v[i]),
    ensures
        saved_lines(
            crate::text::lines(crate::text::paged(v.map_values(|h: Had| saved_text(h)))),
        ) == v,
{
    let t = v.map_values(|h: Had| saved_text(h));
    assert forall|i: int| 0 <= i < t.len() implies crate::text::liny(#[trigger] t[i]) by {
        lemma_saved_line(v[i]);
    }
    crate::text::lemma_lines_paged(t);
    lemma_saved_lines(v);
}

/// Taking over never changes what the file already keeps: a crash leaves
/// the resolver's own address in the services, and the next start must not
/// keep that in place of what they had.
pub proof fn lemma_takeover_keeps_the_file(
    t: Taken,
    found: Seq<(Seq<char>, Result<Seq<Seq<char>>, Seq<char>>)>,
)
    ensures
        t.saved.len() <= t.with_all(found).saved.len(),
        t.with_all(found).saved.take(t.saved.len() as int) == t.saved,
        !t.with_all(found).changed ==> t.with_all(found).saved == t.saved,
    decreases found.len(),
{
    if found.len() == 0 {
        assert(t.saved.take(t.saved.len() as int) =~= t.saved);
    } else {
        lemma_takeover_keeps_the_file(t, found.drop_last());
        let u = t.with_all(found.drop_last());
        let w = t.with_all(found);
        assert(w.saved.take(t.saved.len() as int) =~= u.saved.take(t.saved.len() as int));
    }
}

proof fn lemma_without_local(servers: Seq<Seq<char>>)
    ensures
        !without_local(servers).contains("127.0.0.1"@),
    decreases servers.len(),
{
    if servers.len() > 0 {
        lemma_without_local(servers.drop_last());
        let a = without_local(servers.drop_last());
        let b = without_local(servers);
        if b.contains("127.0.0.1"@) {
            let i = choose|i: int| 0 <= i < b.len() && b[i] == "127.0.0.1"@;
            if i < a.len() {
                assert(a[i] == b[i]);
            }
        }
    }
}

/// The file never gets the resolver's own address from a take-over.
pub proof fn lemma_takeover_never_keeps_local(
    t: Taken,
    found: Seq<(Seq<char>, Result<Seq<Seq<char>>, Seq<char>>)>,
)
    requires
        forall|i: int|
            0 <= i < t.saved.len() ==> !(#[trigger] t.saved[i]).servers.contains("127.0.0.1"@),
    ensures
        forall|i: int|
            0 <= i < t.with_all(found).saved.len() ==> !(
            #[trigger] t.with_all(found).saved[i]).servers.contains("127.0.0.1"@),
    decreases found.len(),
{
    if found.len() > 0 {
        lemma_takeover_never_keeps_local(t, found.drop_last());
        if let Ok(now) = found.last().1 {
            lemma_without_local(now);
        }
    }
}

proof fn lemma_still_there(saved: Seq<Had>, present: Seq<Seq<char>>, k: int)
    requires
        0 <= k < saved.len(),
        present.contains(saved[k].service),
    ensures
        still_there(saved, present).contains(saved[k]),
    decreases saved.len(),
{
    let all = still_there(saved, present);
    if k == saved.len() - 1 {
        assert(all[all.len() - 1] == saved[k]);
    } else {
        let front = saved.drop_last();
        assert(front[k] == saved[k]);
        lemma_still_there(front, present, k);
        let a = still_there(front, present);
        let j = choose|j: int| 0 <= j < a.len() && a[j] == saved[k];
        assert(all[j] == saved[k]);
    }
}

proof fn lemma_first_read_is_kept(
    t: Taken,
    found: Seq<(Seq<char>, Result<Seq<Seq<char>>, Seq<char>>)>,
    i: int,
) -> (k: int)
    requires
        0 <= i < found.len(),
        found[i].1 is Ok,
        !has_service(t.saved, found[i].0),
        forall|j: int| 0 <= j < i ==> (#[trigger] found[j]).0 != found[i].0 || found[j].1 is Err,
    ensures
        0 <= k < t.with_all(found).saved.len(),
        t.with_all(found).saved[k] == (Had {
            service: found[i].0,
            servers: without_local(found[i].1->Ok_0),
        }),
    decreases found.len(),
{
    let front = found.drop_last();
    let u = t.with_all(front);
    if i < found.len() - 1 {
        assert(front[i] == found[i]);
        assert forall|j: int| 0 <= j < i implies (#[trigger] front[j]).0 != front[i].0
            || front[j].1 is Err by {
            assert(front[j] == found[j]);
        }
        let k = lemma_first_read_is_kept(t, front, i);
        assert(t.with_all(found).saved[k] == u.saved[k]);
        k
    } else {
        lemma_unread_is_not_kept(t, front, found[i].0);
        u.saved.len() as int
    }
}

proof fn lemma_unread_is_not_kept(
    t: Taken,
    found: Seq<(Seq<char>, Result<Seq<Seq<char>>, Seq<char>>)>,
    service: Seq<char>,
)
    requires
        !has_service(t.saved, service),
        forall|j: int|
            0 <= j < found.len() ==> (#[trigger] found[j]).0 != service || found[j].1 is Err,
    ensures
        !has_service(t.with_all(found).saved, service),
    decreases found.len(),
{
    if found.len() > 0 {
        let front = found.drop_last();
        assert forall|j: int| 0 <= j < front.len() implies (#[trigger] front[j]).0 != service
            || front[j].1 is Err by {
            assert(front[j] == found[j]);
        }
        lemma_unread_is_not_kept(t, front, service);
        let u = t.with_all(front);
        let w = t.with_all(found);
        assert(found[found.len() - 1] == found.last());
        assert forall|i: int| 0 <= i < w.saved.len() implies (#[trigger] w.saved[i]).service
            != service by {
            if i < u.saved.len() {
                assert(w.saved[i] == u.saved[i]);
            }
        }
    }
}

/// A stop puts back what a service had when it was first taken over, but
/// for the resolver's own address.
pub proof fn lemma_stop_puts_back(
    t: Taken,
    found: Seq<(Seq<char>, Result<Seq<Seq<char>>, Seq<char>>)>,
    present: Seq<Seq<char>>,
    i: int,
)
    requires
        0 <= i < found.len(),
        found[i].1 is Ok,
        !has_service(t.saved, found[i].0),
        forall|j: int| 0 <= j < i ==> (#[trigger] found[j]).0 != found[i].0 || found[j].1 is Err,
        present.contains(found[i].0),
    ensures
        still_there(t.with_all(found).saved, present).contains(
            Had { service: found[i].0, servers: without_local(found[i].1->Ok_0) },
        ),
{
    let k = lemma_first_read_is_kept(t, found, i);
    lemma_still_there(t.with_all(found).saved, present, k);
}

/// After a crash, with the services left on the resolver, a stop puts back
/// what the file of the dead daemon kept.
pub proof fn lemma_stop_after_a_crash_puts_back(
    t: Taken,
    found: Seq<(Seq<char>, Result<Seq<Seq<char>>, Seq<char>>)>,
    present: Seq<Seq<char>>,
    k: int,
)
    requires
        0 <= k < t.saved.len(),
        present.contains(t.saved[k].service),
    ensures
        still_there(t.with_all(found).saved, present).contains(t.saved[k]),
{
    lemma_takeover_keeps_the_file(t, found);
    let all = t.with_all(found).saved;
    assert(all.take(t.saved.len() as int)[k] == all[k]);
    lemma_still_there(all, present, k);
}

/// The services of a listing are those of its lines but the first, in
/// order, without the asterisk of a disabled one.
pub proof fn lemma_which_services_are_listed(lines: Seq<Seq<char>>, line: Seq<char>)
    ensures
        service_lines(seq![]) == Seq::<Seq<char>>::empty(),
        ({
            let s = if line.len() > 0 && line[0] == '*' {
                line.skip(1)
            } else {
                line
            };
            service_lines(lines.push(line)) == if s.len() == 0 {
                service_lines(lines)
            } else {
                service_lines(lines).push(s)
            }
        }),
{
    reveal_strlit("*");
    assert(lines.push(line).drop_last() =~= lines);
    if line.len() > 0 && line[0] == '*' {
        assert(line.take(1) =~= "*"@);
    } else if crate::text::starts(line, "*"@) {
        assert(line.take(1)[0] == line[0]);
    }
}

/// A listing begins with a line that is no service.
pub proof fn lemma_the_first_line_is_no_service(out: Seq<char>)
    ensures
        crate::text::lines(out).len() > 0 ==> listed_services(out) == service_lines(
            crate::text::lines(out).skip(1),
        ),
        crate::text::lines(out).len() == 0 ==> listed_services(out).len() == 0,
{
}

/// The servers are the words that are addresses, of either kind, in order.
pub proof fn lemma_which_words_are_servers(words: Seq<Seq<char>>)
    ensures
        ip_words(words) == words.filter(
            |w: Seq<char>| crate::addr::address(w) is Some || crate::ipv6::ipv6(w) is Some,
        ),
    decreases words.len(),
{
    reveal(Seq::filter);
    if words.len() > 0 {
        lemma_which_words_are_servers(words.drop_last());
    }
    assert(ip_words(words) =~= words.filter(
        |w: Seq<char>| crate::addr::address(w) is Some || crate::ipv6::ipv6(w) is Some,
    ));
}

/// What is kept of the servers of a service is all of them but the
/// resolver itself, in order.
pub proof fn lemma_which_servers_are_kept(servers: Seq<Seq<char>>)
    ensures
        without_local(servers) == servers.filter(|s: Seq<char>| s != "127.0.0.1"@),
    decreases servers.len(),
{
    reveal(Seq::filter);
    if servers.len() > 0 {
        lemma_which_servers_are_kept(servers.drop_last());
    }
    assert(without_local(servers) =~= servers.filter(|s: Seq<char>| s != "127.0.0.1"@));
}

/// A service that was read is kept unless the file has it, and set unless
/// it asks the resolver and nobody else already; one that was not read is
/// passed over, and the first such error is kept.
pub proof fn lemma_how_a_service_is_taken(t: Taken, service: Seq<char>, now: Seq<Seq<char>>, e: Seq<char>)
    ensures
        ({
            let known = exists|i: int| 0 <= i < t.saved.len() && (#[trigger] t.saved[i]).service
                == service;
            let r = t.with(service, Ok(now));
            &&& known ==> r.saved == t.saved && r.changed == t.changed
            &&& !known ==> r.saved == t.saved.push(
                (Had { service, servers: now.filter(|s: Seq<char>| s != "127.0.0.1"@) }),
            ) && r.changed
            &&& now == seq!["127.0.0.1"@] ==> r.todo == t.todo
            &&& now != seq!["127.0.0.1"@] ==> r.todo == t.todo.push(service)
            &&& r.first == t.first
        }),
        t.with(service, Err(e)) == (Taken {
            first: if t.first is Some {
                t.first
            } else {
                Some(e)
            },
            ..t
        }),
{
    lemma_which_servers_are_kept(now);
}

/// The services are taken in order.
pub proof fn lemma_services_are_taken_in_order(
    t: Taken,
    found: Seq<(Seq<char>, Result<Seq<Seq<char>>, Seq<char>>)>,
    service: Seq<char>,
    servers: Result<Seq<Seq<char>>, Seq<char>>,
)
    ensures
        t.with_all(seq![]) == t,
        t.with_all(found.push((service, servers))) == t.with_all(found).with(service, servers),
        Taken::start(seq![]).saved.len() == 0,
        !Taken::start(t.saved).changed,
        Taken::start(t.saved).saved == t.saved,
        Taken::start(t.saved).todo.len() == 0,
        Taken::start(t.saved).first is None,
{
    assert(found.push((service, servers)).drop_last() =~= found);
}

/// As many were set as setting did not fail for, and the error is the first
/// there was.
pub proof fn lemma_what_setting_came_to(results: Seq<Result<(), String>>, i: int)
    requires
        0 <= i <= results.len(),
        forall|j: int| 0 <= j < i ==> (#[trigger] results[j]) is Ok,
        i < results.len() ==> results[i] is Err,
    ensures
        successes(results) == results.filter(|r: Result<(), String>| r is Ok).len(),
        first_error(results) == if i < results.len() {
            Some((results[i]->Err_0)@)
        } else {
            None
        },
    decreases results.len(),
{
    reveal(Seq::filter);
    if results.len() > 0 {
        let r = results.drop_last();
        let k = if i < r.len() {
            i
        } else {
            r.len() as int
        };
        assert forall|j: int| 0 <= j < k implies (#[trigger] r[j]) is Ok by {
            assert(r[j] == results[j]);
        }
        if k < r.len() {
            assert(r[k] == results[k]);
        }
        lemma_what_setting_came_to(r, k);
        assert(results.last() == results[results.len() - 1]);
    }
}

/// Put back are the services of the file that are still there, in order,
/// each with what it had.
pub proof fn lemma_which_services_are_put_back(saved: Seq<Had>, present: Seq<Seq<char>>)
    ensures
        still_there(saved, present) == saved.filter(|h: Had| present.contains(h.service)),
    decreases saved.len(),
{
    reveal(Seq::filter);
    if saved.len() > 0 {
        lemma_which_services_are_put_back(saved.drop_last(), present);
    }
    assert(still_there(saved, present) =~= saved.filter(|h: Had| present.contains(h.service)));
}

/// A service is set to its servers, or to none of its own.
pub proof fn lemma_how_a_service_is_set(service: Seq<char>, servers: Seq<Seq<char>>)
    ensures
        servers.len() == 0 ==> set_list(service, servers) == seq![
            "-setdnsservers"@,
            service,
            "Empty"@,
        ],
        servers.len() > 0 ==> set_list(service, servers) == seq!["-setdnsservers"@, service]
            + servers,
{
    assert(seq!["-setdnsservers"@, service] + seq!["Empty"@] =~= seq![
        "-setdnsservers"@,
        service,
        "Empty"@,
    ]);
}

/// A line of the file is the service, a tab and its servers; without a tab
/// it says nothing.
pub proof fn lemma_what_a_saved_line_says(
    lines: Seq<Seq<char>>,
    service: Seq<char>,
    servers: Seq<char>,
)
    requires
        !service.contains('\t'),
    ensures
        saved_lines(seq![]) == Seq::<Had>::empty(),
        saved_lines(lines.push(service + seq!['\t'] + servers)) == saved_lines(lines).push(
            (Had { service, servers: crate::text::words(servers) }),
        ),
        saved_lines(lines.push(service)) == saved_lines(lines),
{
    crate::text::lemma_parted(service, '\t', servers);
    assert(lines.push(service + seq!['\t'] + servers).drop_last() =~= lines);
    assert(lines.push(service).drop_last() =~= lines);
}

} // verus!
