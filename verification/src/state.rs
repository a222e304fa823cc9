//! Host routes on disk: address, the time of its last answer and its rule,
//! one per line. Kept so that routes outlive a restart of the daemon and a
//! new tunnel interface.

use vstd::prelude::*;
use vstd::string::*;

use crate::addr::Ipv4Addr;
use crate::text::{lines_of, number_of, page_of, show, words_of};

verus! {

#[derive(Debug)]
pub struct Host {
    /// The rule whose tunnel takes the address; files of earlier versions
    /// name a list here.
    pub rule: String,
    /// Unix seconds of the last answer that carried the address.
    pub last: u64,
}

/// What is kept of a host.
pub struct Kept {
    pub rule: Seq<char>,
    pub last: u64,
}

impl Host {
    pub open spec fn view(&self) -> Kept {
        Kept { rule: self.rule@, last: self.last }
    }

    pub fn copy(&self) -> (r: Host)
        ensures
            r@ == self@,
    {
        Host { rule: self.rule.clone(), last: self.last }
    }
}

/// Addresses go up, so that none comes twice.
pub open spec fn ascending(s: Seq<(Ipv4Addr, Kept)>) -> bool {
    forall|i: int, j: int|
        0 <= i < j < s.len() ==> (#[trigger] s[i]).0.bits < (#[trigger] s[j]).0.bits
}

/// `ip` is among the addresses.
pub open spec fn listed(s: Seq<(Ipv4Addr, Kept)>, ip: Ipv4Addr) -> bool {
    exists|i: int| 0 <= i < s.len() && (#[trigger] s[i]).0 == ip
}

/// The addresses with what is kept of each.
pub open spec fn table(s: Seq<(Ipv4Addr, Kept)>) -> Map<Ipv4Addr, Kept> {
    Map::new(
        |ip: Ipv4Addr| listed(s, ip),
        |ip: Ipv4Addr| s[choose|i: int| 0 <= i < s.len() && (#[trigger] s[i]).0 == ip].1,
    )
}

pub proof fn lemma_table_at(s: Seq<(Ipv4Addr, Kept)>, i: int)
    requires
        ascending(s),
        0 <= i < s.len(),
    ensures
        table(s).dom().contains(s[i].0),
        table(s)[s[i].0] == s[i].1,
{
    let ip = s[i].0;
    assert(listed(s, ip));
    let j = choose|j: int| 0 <= j < s.len() && (#[trigger] s[j]).0 == ip;
    assert(i == j);
}

proof fn lemma_table_insert(s: Seq<(Ipv4Addr, Kept)>, at: int, ip: Ipv4Addr, k: Kept)
    requires
        ascending(s),
        0 <= at <= s.len(),
        forall|i: int| 0 <= i < at ==> (#[trigger] s[i]).0.bits < ip.bits,
        forall|i: int| at <= i < s.len() ==> (#[trigger] s[i]).0.bits > ip.bits,
    ensures
        ascending(s.insert(at, (ip, k))),
        table(s.insert(at, (ip, k))) =~= table(s).insert(ip, k),
{
    let t = s.insert(at, (ip, k));
    assert(t[at] == (ip, k));
    assert forall|i: int| 0 <= i < s.len() implies #[trigger] s[i] == t[if i < at {
        i
    } else {
        i + 1
    }] by {}
    assert forall|x: Ipv4Addr| listed(t, x) == (listed(s, x) || x == ip) by {
        if listed(s, x) {
            let i = choose|i: int| 0 <= i < s.len() && (#[trigger] s[i]).0 == x;
            let j = if i < at {
                i
            } else {
                i + 1
            };
            assert(t[j].0 == x);
        }
        if listed(t, x) {
            let j = choose|j: int| 0 <= j < t.len() && (#[trigger] t[j]).0 == x;
            if j < at {
                assert(s[j].0 == x);
            } else if j > at {
                assert(s[j - 1].0 == x);
            }
        }
    }
    assert forall|x: Ipv4Addr| listed(t, x) implies table(t)[x] == table(s).insert(ip, k)[x] by {
        let j = choose|j: int| 0 <= j < t.len() && (#[trigger] t[j]).0 == x;
        lemma_table_at(t, j);
        if j < at {
            lemma_table_at(s, j);
            assert(s[j] == t[j]);
        } else if j > at {
            lemma_table_at(s, j - 1);
            assert(s[j - 1] == t[j]);
        }
    }
}

proof fn lemma_table_update(s: Seq<(Ipv4Addr, Kept)>, at: int, k: Kept)
    requires
        ascending(s),
        0 <= at < s.len(),
    ensures
        ascending(s.update(at, (s[at].0, k))),
        table(s.update(at, (s[at].0, k))) =~= table(s).insert(s[at].0, k),
{
    let ip = s[at].0;
    let t = s.update(at, (ip, k));
    assert forall|i: int| 0 <= i < s.len() implies (#[trigger] t[i]).0 == s[i].0 by {}
    assert forall|x: Ipv4Addr| listed(t, x) == listed(s, x) by {
        if listed(s, x) {
            let i = choose|i: int| 0 <= i < s.len() && (#[trigger] s[i]).0 == x;
            assert(t[i].0 == x);
        }
        if listed(t, x) {
            let i = choose|i: int| 0 <= i < t.len() && (#[trigger] t[i]).0 == x;
            assert(s[i].0 == x);
        }
    }
    assert(t[at].0 == ip);
    assert(listed(t, ip));
    assert forall|x: Ipv4Addr| listed(t, x) implies table(t)[x] == table(s).insert(ip, k)[x] by {
        let j = choose|j: int| 0 <= j < t.len() && (#[trigger] t[j]).0 == x;
        lemma_table_at(t, j);
        lemma_table_at(s, j);
        if j != at {
            assert(s[j] == t[j]);
        }
    }
}

proof fn lemma_table_remove(s: Seq<(Ipv4Addr, Kept)>, at: int)
    requires
        ascending(s),
        0 <= at < s.len(),
    ensures
        ascending(s.remove(at)),
        table(s.remove(at)) =~= table(s).remove(s[at].0),
{
    let ip = s[at].0;
    let t = s.remove(at);
    assert forall|x: Ipv4Addr| listed(t, x) == (listed(s, x) && x != ip) by {
        if listed(s, x) && x != ip {
            let i = choose|i: int| 0 <= i < s.len() && (#[trigger] s[i]).0 == x;
            let j = if i < at {
                i
            } else {
                i - 1
            };
            assert(t[j].0 == x);
        }
        if listed(t, x) {
            let j = choose|j: int| 0 <= j < t.len() && (#[trigger] t[j]).0 == x;
            let i = if j < at {
                j
            } else {
                j + 1
            };
            assert(s[i].0 == x);
            assert(s[at].0 == ip);
        }
    }
    assert forall|x: Ipv4Addr| listed(t, x) implies table(t)[x] == table(s).remove(ip)[x] by {
        let j = choose|j: int| 0 <= j < t.len() && (#[trigger] t[j]).0 == x;
        lemma_table_at(t, j);
        let i = if j < at {
            j
        } else {
            j + 1
        };
        lemma_table_at(s, i);
        assert(s[i] == t[j]);
    }
}

/// Hosts by address.
#[derive(Debug)]
pub struct Hosts {
    entries: Vec<(Ipv4Addr, Host)>,
}

impl Hosts {
    /// The hosts in the order of their addresses.
    pub closed spec fn entries(&self) -> Seq<(Ipv4Addr, Kept)> {
        self.entries@.map_values(|e: (Ipv4Addr, Host)| (e.0, e.1@))
    }

    pub open spec fn wf(&self) -> bool {
        ascending(self.entries())
    }

    pub open spec fn view(&self) -> Map<Ipv4Addr, Kept> {
        table(self.entries())
    }

    pub fn new() -> (r: Self)
        ensures
            r.wf(),
            r@ == Map::<Ipv4Addr, Kept>::empty(),
            r.entries() == Seq::<(Ipv4Addr, Kept)>::empty(),
    {
        let r = Hosts { entries: Vec::new() };
        proof {
            assert(r.entries() =~= seq![]);
            assert(r@ =~= Map::empty());
        }
        r
    }

    pub fn len(&self) -> (r: usize)
        ensures
            r == self.entries().len(),
    {
        self.entries.len()
    }

    /// The host at a place in the order of the addresses.
    pub fn at(&self, i: usize) -> (r: (Ipv4Addr, &Host))
        requires
            i < self.entries().len(),
        ensures
            self.entries()[i as int] == (r.0, r.1@),
    {
        let e = &self.entries[i];
        (e.0, &e.1)
    }

    /// Where the address is, or would be.
    fn place(&self, ip: Ipv4Addr) -> (r: usize)
        requires
            self.wf(),
        ensures
            r <= self.entries().len(),
            forall|i: int| 0 <= i < r ==> (#[trigger] self.entries()[i]).0.bits < ip.bits,
            forall|i: int|
                r <= i < self.entries().len() ==> (#[trigger] self.entries()[i]).0.bits >= ip.bits,
    {
        let mut low: usize = 0;
        let mut high: usize = self.entries.len();
        while low < high
            invariant
                self.wf(),
                low <= high <= self.entries().len(),
                self.entries@.len() == self.entries().len(),
                forall|i: int| 0 <= i < low ==> (#[trigger] self.entries()[i]).0.bits < ip.bits,
                forall|i: int|
                    high <= i < self.entries().len() ==> (#[trigger] self.entries()[i]).0.bits
                        >= ip.bits,
            decreases high - low,
        {
            let mid: usize = low + (high - low) / 2;
            let ghost m = self.entries()[mid as int].0.bits;
            if self.entries[mid].0.bits < ip.bits {
                proof {
                    assert(m == self.entries@[mid as int].0.bits);
                    assert forall|i: int| 0 <= i < mid + 1 implies (
                    #[trigger] self.entries()[i]).0.bits < ip.bits by {
                        if i < mid {
                            assert(self.entries()[i].0.bits < m);
                        }
                    }
                }
                low = mid + 1;
            } else {
                proof {
                    assert(m == self.entries@[mid as int].0.bits);
                    assert forall|i: int| mid <= i < self.entries().len() implies (
                    #[trigger] self.entries()[i]).0.bits >= ip.bits by {
                        if i > mid {
                            assert(self.entries()[i].0.bits > m);
                        }
                    }
                }
                high = mid;
            }
        }
        low
    }

    pub fn get(&self, ip: Ipv4Addr) -> (r: Option<&Host>)
        requires
            self.wf(),
        ensures
            match r {
                Some(h) => self@.dom().contains(ip) && self@[ip] == h@,
                None => !self@.dom().contains(ip),
            },
    {
        let i = self.place(ip);
        if i < self.entries.len() && self.entries[i].0.bits == ip.bits {
            proof {
                lemma_table_at(self.entries(), i as int);
                assert(self.entries()[i as int] == (ip, self.entries@[i as int].1@));
            }
            Some(&self.entries[i].1)
        } else {
            proof {
                if listed(self.entries(), ip) {
                    let j = choose|j: int|
                        0 <= j < self.entries().len() && (#[trigger] self.entries()[j]).0 == ip;
                    assert(j >= i);
                    assert(self.entries()[i as int].0 == self.entries@[i as int].0);
                    assert(self.entries()[i as int].0.bits > ip.bits);
                }
            }
            None
        }
    }

    pub fn insert(&mut self, ip: Ipv4Addr, host: Host)
        requires
            old(self).wf(),
        ensures
            final(self).wf(),
            final(self)@ == old(self)@.insert(ip, host@),
    {
        let i = self.place(ip);
        let ghost before = self.entries();
        if i < self.entries.len() && self.entries[i].0.bits == ip.bits {
            proof {
                assert(before[i as int].0 == self.entries@[i as int].0);
                lemma_table_update(before, i as int, host@);
            }
            self.entries.set(i, (ip, host));
            proof {
                assert(self.entries() =~= before.update(i as int, (ip, host@)));
            }
        } else {
            proof {
                assert forall|j: int| i <= j < before.len() implies (#[trigger] before[j]).0.bits
                    > ip.bits by {
                    assert(before[i as int].0 == self.entries@[i as int].0);
                }
                lemma_table_insert(before, i as int, ip, host@);
            }
            self.entries.insert(i, (ip, host));
            proof {
                assert(self.entries() =~= before.insert(i as int, (ip, host@)));
            }
        }
    }

    /// Takes the address out; whether it was there.
    pub fn remove(&mut self, ip: Ipv4Addr) -> (r: bool)
        requires
            old(self).wf(),
        ensures
            final(self).wf(),
            final(self)@ == old(self)@.remove(ip),
            r == old(self)@.dom().contains(ip),
    {
        let i = self.place(ip);
        let ghost before = self.entries();
        if i < self.entries.len() && self.entries[i].0.bits == ip.bits {
            proof {
                assert(before[i as int].0 == self.entries@[i as int].0);
                lemma_table_at(before, i as int);
                lemma_table_remove(before, i as int);
            }
            self.entries.remove(i);
            proof {
                assert(self.entries() =~= before.remove(i as int));
            }
            true
        } else {
            proof {
                if listed(before, ip) {
                    let j = choose|j: int| 0 <= j < before.len() && (#[trigger] before[j]).0 == ip;
                    assert(before[i as int].0 == self.entries@[i as int].0);
                    assert(before[i as int].0.bits > ip.bits);
                }
                assert(self@.remove(ip) =~= self@);
            }
            false
        }
    }
}

// ---------------------------------------------------------------------
// The file.
// ---------------------------------------------------------------------

/// What a line says; `None` for a damaged one.
pub open spec fn host_line(line: Seq<char>) -> Option<(Ipv4Addr, Kept)> {
    let w = crate::text::words(line);
    if w.len() < 3 {
        None
    } else {
        match (crate::addr::address(w[0]), crate::text::number(w[1], u64::MAX as nat)) {
            (Some(ip), Some(n)) => Some((ip, Kept { rule: w[2], last: n as u64 })),
            _ => None,
        }
    }
}

/// What the lines say; of two lines for an address the later counts.
pub open spec fn host_lines(lines: Seq<Seq<char>>) -> Map<Ipv4Addr, Kept>
    decreases lines.len(),
{
    if lines.len() == 0 {
        Map::empty()
    } else {
        match host_line(lines.last()) {
            Some((ip, k)) => host_lines(lines.drop_last()).insert(ip, k),
            None => host_lines(lines.drop_last()),
        }
    }
}

fn parse_line(line: &str) -> (r: Option<(Ipv4Addr, Host)>)
    ensures
        match r {
            Some((ip, h)) => host_line(line@) == Some((ip, h@)),
            None => host_line(line@) is None,
        },
{
    let w = words_of(line);
    if w.len() < 3 {
        return None;
    }
    proof {
        let v = crate::text::seen(w@);
        assert(v[0] == w@[0]@ && v[1] == w@[1]@ && v[2] == w@[2]@);
    }
    match (Ipv4Addr::parse(w[0].as_str()), number_of(w[1].as_str(), u64::MAX)) {
        (Some(ip), Some(last)) => Some((ip, Host { rule: w[2].clone(), last })),
        _ => None,
    }
}

/// Lines that do not parse are skipped: a damaged line costs one route.
pub fn parse(text: &str) -> (r: Hosts)
    ensures
        r.wf(),
        r@ == host_lines(crate::text::lines(text@)),
{
    let lines = lines_of(text);
    let ghost all = crate::text::seen(lines@);
    let mut hosts = Hosts::new();
    let mut i: usize = 0;
    proof {
        assert(all.take(0) =~= seq![]);
    }
    while i < lines.len()
        invariant
            i <= lines@.len(),
            all == crate::text::seen(lines@),
            hosts.wf(),
            hosts@ == host_lines(all.take(i as int)),
        decreases lines@.len() - i,
    {
        proof {
            assert(all.take(i + 1).drop_last() =~= all.take(i as int));
            assert(all.take(i + 1).last() == lines@[i as int]@);
        }
        if let Some((ip, host)) = parse_line(lines[i].as_str()) {
            hosts.insert(ip, host);
        }
        i += 1;
    }
    proof {
        assert(all.take(i as int) =~= all);
    }
    hosts
}

/// The line of a host.
pub open spec fn written(e: (Ipv4Addr, Kept)) -> Seq<char> {
    e.0.shown() + " "@ + crate::text::decimal(e.1.last as nat) + " "@ + e.1.rule
}

pub open spec fn all_written(s: Seq<(Ipv4Addr, Kept)>) -> Seq<Seq<char>> {
    s.map_values(|e: (Ipv4Addr, Kept)| written(e))
}

/// One line a host, in the order of the addresses.
pub fn format(hosts: &Hosts) -> (r: String)
    ensures
        r@ == crate::text::paged(all_written(hosts.entries())),
{
    let mut lines: Vec<String> = Vec::new();
    let mut i: usize = 0;
    while i < hosts.len()
        invariant
            i <= hosts.entries().len(),
            lines@.len() == i,
            forall|j: int| 0 <= j < i ==> (#[trigger] lines@[j])@ == written(hosts.entries()[j]),
        decreases hosts.entries().len() - i,
    {
        let (ip, h) = hosts.at(i);
        let mut s = ip.to_string();
        s.append(" ");
        s.append(show(h.last as u128).as_str());
        s.append(" ");
        s.append(h.rule.as_str());
        lines.push(s);
        i += 1;
    }
    proof {
        assert(crate::text::seen(lines@) =~= all_written(hosts.entries()));
    }
    page_of(&lines)
}

// ---------------------------------------------------------------------
// Laws.
// ---------------------------------------------------------------------

proof fn lemma_shown_is_a_word(ip: Ipv4Addr)
    ensures
        crate::text::word(ip.shown()),
{
    reveal_strlit(".");
    let s = ip.shown();
    crate::text::lemma_decimal(ip.octet(0));
    crate::text::lemma_decimal(ip.octet(1));
    crate::text::lemma_decimal(ip.octet(2));
    crate::text::lemma_decimal(ip.octet(3));
    let (a, b, c, d) = (
        crate::text::decimal(ip.octet(0)),
        crate::text::decimal(ip.octet(1)),
        crate::text::decimal(ip.octet(2)),
        crate::text::decimal(ip.octet(3)),
    );
    lemma_no_space_add(a, "."@);
    lemma_no_space_add(a + "."@, b);
    lemma_no_space_add(a + "."@ + b, "."@);
    lemma_no_space_add(a + "."@ + b + "."@, c);
    lemma_no_space_add(a + "."@ + b + "."@ + c, "."@);
    lemma_no_space_add(a + "."@ + b + "."@ + c + "."@, d);
}

proof fn lemma_no_space_add(a: Seq<char>, b: Seq<char>)
    requires
        forall|i: int| 0 <= i < a.len() ==> !crate::text::space(#[trigger] a[i]),
        forall|i: int| 0 <= i < b.len() ==> !crate::text::space(#[trigger] b[i]),
    ensures
        forall|i: int| 0 <= i < (a + b).len() ==> !crate::text::space(#[trigger] (a + b)[i]),
{
    assert forall|i: int| 0 <= i < (a + b).len() implies !crate::text::space(
        #[trigger] (a + b)[i],
    ) by {
        if i < a.len() {
            assert((a + b)[i] == a[i]);
        } else {
            assert((a + b)[i] == b[i - a.len()]);
        }
    }
}

proof fn lemma_written_reads(e: (Ipv4Addr, Kept))
    requires
        crate::text::word(e.1.rule),
    ensures
        host_line(written(e)) == Some(e),
        crate::text::liny(written(e)),
{
    reveal_strlit(" ");
    let (a, b, c) = (e.0.shown(), crate::text::decimal(e.1.last as nat), e.1.rule);
    let s = written(e);
    assert(" "@ =~= seq![' ']);
    lemma_shown_is_a_word(e.0);
    crate::text::lemma_decimal(e.1.last as nat);
    assert(crate::text::word(b));
    crate::text::lemma_words_one(a);
    crate::text::lemma_words_one(b);
    crate::text::lemma_words_one(c);
    crate::text::lemma_words_add(a, ' ', b);
    crate::text::lemma_words_add(a + " "@ + b, ' ', c);
    let w = crate::text::words(s);
    assert(w =~= seq![a, b, c]);
    assert(w[0] == a && w[1] == b && w[2] == c);
    crate::addr::lemma_address_shown(e.0);
    crate::text::lemma_number_decimal(e.1.last as nat, u64::MAX as nat);
    assert forall|i: int| 0 <= i < s.len() implies s[i] != '\n' by {
        if i < a.len() {
            assert(s[i] == a[i]);
        } else if i == a.len() {
            assert(s[i] == ' ');
        } else if i < a.len() + 1 + b.len() {
            assert(s[i] == b[i - a.len() - 1]);
        } else if i == a.len() + 1 + b.len() {
            assert(s[i] == ' ');
        } else {
            assert(s[i] == c[i - a.len() - b.len() - 2]);
        }
    }
    assert(s.last() == c[c.len() - 1]);
    assert(!crate::text::space(c[c.len() - 1]));
}

proof fn lemma_lines_read(s: Seq<(Ipv4Addr, Kept)>)
    requires
        ascending(s),
        forall|i: int| 0 <= i < s.len() ==> crate::text::word((#[trigger] s[i]).1.rule),
    ensures
        host_lines(all_written(s)) == table(s),
    decreases s.len(),
{
    let v = all_written(s);
    if s.len() == 0 {
        assert(table(s) =~= Map::empty());
    } else {
        let t = s.drop_last();
        let n = s.len() - 1;
        assert forall|i: int| 0 <= i < t.len() implies crate::text::word(
            (#[trigger] t[i]).1.rule,
        ) by {
            assert(t[i] == s[i]);
        }
        lemma_lines_read(t);
        assert(v.drop_last() =~= all_written(t));
        assert(v.last() == written(s[n]));
        lemma_written_reads(s[n]);
        lemma_table_insert(t, n, s[n].0, s[n].1);
        assert(t.insert(n, s[n]) =~= s);
    }
}

/// Hosts written are the hosts read back, whatever they are, as long as
/// each rule is one word.
pub proof fn lemma_hosts_round_trip(s: Seq<(Ipv4Addr, Kept)>)
    requires
        ascending(s),
        forall|i: int| 0 <= i < s.len() ==> crate::text::word((#[trigger] s[i]).1.rule),
    ensures
        host_lines(crate::text::lines(crate::text::paged(all_written(s)))) == table(s),
{
    let v = all_written(s);
    assert forall|i: int| 0 <= i < v.len() implies crate::text::liny(#[trigger] v[i]) by {
        lemma_written_reads(s[i]);
    }
    crate::text::lemma_lines_paged(v);
    lemma_lines_read(s);
}

/// A damaged line costs nothing but itself.
pub proof fn lemma_damaged_line_is_skipped(
    before: Seq<Seq<char>>,
    line: Seq<char>,
    after: Seq<Seq<char>>,
)
    requires
        host_line(line) is None,
    ensures
        host_lines(before + seq![line] + after) == host_lines(before + after),
    decreases after.len(),
{
    let s = before + seq![line] + after;
    if after.len() == 0 {
        assert(s.drop_last() =~= before);
        assert(before + after =~= before);
        assert(s.last() == line);
    } else {
        lemma_damaged_line_is_skipped(before, line, after.drop_last());
        assert(s.drop_last() =~= before + seq![line] + after.drop_last());
        assert((before + after).drop_last() =~= before + after.drop_last());
        assert(s.last() == after.last() && (before + after).last() == after.last());
    }
}

/// A line has the address, the time and the rule, in this order; what
/// stands behind them is passed over, and a line with less is damaged.
pub proof fn lemma_what_a_line_says(line: Seq<char>)
    ensures
        ({
            let w = crate::text::words(line);
            host_line(line) == if w.len() >= 3 && crate::addr::address(w[0]) is Some
                && crate::text::number(w[1], 18_446_744_073_709_551_615) is Some {
                Some(
                    (
                        crate::addr::address(w[0])->0,
                        Kept {
                            rule: w[2],
                            last: crate::text::number(w[1], 18_446_744_073_709_551_615)->0 as u64,
                        },
                    ),
                )
            } else {
                None
            }
        }),
{
}

/// Of two lines for an address the later counts, and a line says nothing of
/// another address.
pub proof fn lemma_the_later_line_counts(lines: Seq<Seq<char>>, line: Seq<char>, ip: Ipv4Addr)
    ensures
        host_lines(seq![]) == Map::<Ipv4Addr, Kept>::empty(),
        host_line(line) matches Some((a, k)) ==> {
            let m = host_lines(lines.push(line));
            &&& m.dom().contains(a)
            &&& m[a] == k
            &&& ip != a ==> (m.dom().contains(ip) <==> host_lines(lines).dom().contains(ip))
            &&& ip != a && m.dom().contains(ip) ==> m[ip] == host_lines(lines)[ip]
        },
        host_line(line) is None ==> host_lines(lines.push(line)) == host_lines(lines),
{
    assert(lines.push(line).drop_last() =~= lines);
}

/// A host is written as its address, the time and the rule, with a space
/// between.
pub proof fn lemma_how_a_host_is_written(ip: Ipv4Addr, k: Kept)
    ensures
        written((ip, k)) == ip.shown() + " "@ + crate::text::decimal(k.last as nat) + " "@ + k.rule,
{
}

} // verus!
