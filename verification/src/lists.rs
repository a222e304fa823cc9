//! Domain and subnet lists.
//!
//! A list is a text, one entry per line: a domain suffix or an IPv4 address
//! or CIDR. Empty lines and lines starting with `#` are skipped.
//! `*.example.com` and `.example.com` mean the suffix `example.com`.

use vstd::prelude::*;
use vstd::string::*;

pub use crate::addr::{Ipv4Addr, Subnet};
use crate::text::{
    after_of, among, around_last_of, around_of, chars_of, lines_of, lower_of, same, stands_before,
};
use crate::text::{split_of, starts_of, strip_end_of, trim_of, Edge};

verus! {

/// Lower case, without the trailing root dot.
pub open spec fn normal(name: Seq<char>) -> Seq<char> {
    crate::text::lower(crate::text::strip_end(name, crate::text::one('.')))
}

pub fn normalize(name: &str) -> (r: String)
    ensures
        r@ == normal(name@),
{
    let bare = strip_end_of(name, Edge::Dot);
    lower_of(bare.as_str())
}

/// A letter, a digit, a hyphen or an underscore.
pub open spec fn word_char(c: char) -> bool {
    crate::text::small(c) || crate::text::capital(c) || crate::text::digit(c) || c == '-' || c
        == '_'
}

pub open spec fn label(s: Seq<char>) -> bool {
    &&& 0 < s.len() <= 63
    &&& forall|i: int| 0 <= i < s.len() ==> word_char(#[trigger] s[i])
}

pub open spec fn domain(s: Seq<char>) -> bool {
    &&& 0 < s.len() <= 253
    &&& forall|i: int|
        0 <= i < crate::text::split(s, '.').len() ==> label(
            #[trigger] crate::text::split(s, '.')[i],
        )
}

/// Every character of `s` is one of a word.
pub fn is_word(s: &str) -> (r: bool)
    ensures
        r == (forall|i: int| 0 <= i < s@.len() ==> word_char(#[trigger] s@[i])),
{
    let v = chars_of(s);
    let mut i: usize = 0;
    while i < v.len()
        invariant
            i <= v@.len(),
            v@ == s@,
            forall|j: int| 0 <= j < i ==> word_char(#[trigger] v@[j]),
        decreases v@.len() - i,
    {
        let c = v[i];
        if !(('a' <= c && c <= 'z') || ('A' <= c && c <= 'Z') || ('0' <= c && c <= '9') || c == '-'
            || c == '_') {
            return false;
        }
        i += 1;
    }
    true
}

fn is_label(s: &str) -> (r: bool)
    ensures
        r == label(s@),
{
    let n = chars_of(s).len();
    n > 0 && n <= 63 && is_word(s)
}

fn is_domain(name: &str) -> (r: bool)
    ensures
        r == domain(name@),
{
    let n = chars_of(name).len();
    if n == 0 || n > 253 {
        return false;
    }
    let p = split_of(name, '.');
    let ghost q = crate::text::split(name@, '.');
    let mut i: usize = 0;
    while i < p.len()
        invariant
            i <= p@.len(),
            q == crate::text::split(name@, '.'),
            crate::text::seen(p@) == q,
            forall|j: int| 0 <= j < i ==> label(#[trigger] q[j]),
        decreases p@.len() - i,
    {
        proof {
            assert(q[i as int] == p@[i as int]@);
        }
        if !is_label(p[i].as_str()) {
            return false;
        }
        i += 1;
    }
    true
}

// ---------------------------------------------------------------------
// What a line of a list says.
// ---------------------------------------------------------------------

pub enum Entry {
    Nothing,
    Net(Subnet),
    Suffix(Seq<char>),
    Bad(Seq<char>),
}

/// Without the `*.` or the dot that may stand before a suffix.
pub open spec fn bare(line: Seq<char>) -> Seq<char> {
    match crate::text::after(line, "*."@) {
        Some(rest) => rest,
        None => match crate::text::after(line, "."@) {
            Some(rest) => rest,
            None => line,
        },
    }
}

pub open spec fn entry(raw: Seq<char>) -> Entry {
    let line = crate::text::trim(raw);
    if line.len() == 0 || crate::text::starts(line, "#"@) {
        Entry::Nothing
    } else {
        match crate::addr::subnet(line) {
            Some(s) => Entry::Net(s),
            None => if domain(normal(bare(line))) {
                Entry::Suffix(normal(bare(line)))
            } else {
                Entry::Bad(line)
            },
        }
    }
}

/// `s` with `x` in it, at its end if it was not.
pub open spec fn joined(s: Seq<Seq<char>>, x: Seq<char>) -> Seq<Seq<char>> {
    if s.contains(x) {
        s
    } else {
        s.push(x)
    }
}

/// `s` with all of `more` in it.
pub open spec fn merged(s: Seq<Seq<char>>, more: Seq<Seq<char>>) -> Seq<Seq<char>>
    decreases more.len(),
{
    if more.len() == 0 {
        s
    } else {
        joined(merged(s, more.drop_last()), more.last())
    }
}

// ---------------------------------------------------------------------
// The lists.
// ---------------------------------------------------------------------

/// What a set of lists says: suffix to the names of the lists that have it,
/// the subnets with the list of each, the lines refused, and the names of
/// the lists in the order added.
#[verifier::ext_equal]
pub struct Contents {
    pub suffixes: Map<Seq<char>, Seq<Seq<char>>>,
    pub subnets: Seq<(Subnet, Seq<char>)>,
    pub rejected: Seq<Seq<char>>,
    pub names: Seq<Seq<char>>,
}

impl Contents {
    pub open spec fn empty() -> Self {
        Contents {
            suffixes: Map::empty(),
            subnets: seq![],
            rejected: seq![],
            names: seq![],
        }
    }

    /// The lists that have exactly this suffix.
    pub open spec fn having(self, d: Seq<char>) -> Seq<Seq<char>> {
        if self.suffixes.dom().contains(d) {
            self.suffixes[d]
        } else {
            seq![]
        }
    }

    pub open spec fn with_line(self, name: Seq<char>, raw: Seq<char>) -> Self {
        match entry(raw) {
            Entry::Nothing => self,
            Entry::Net(s) => Contents { subnets: self.subnets.push((s, name)), ..self },
            Entry::Suffix(d) => Contents {
                suffixes: self.suffixes.insert(d, joined(self.having(d), name)),
                ..self
            },
            Entry::Bad(line) => Contents {
                rejected: self.rejected.push(name + ": "@ + line),
                ..self
            },
        }
    }

    pub open spec fn with_lines(self, name: Seq<char>, raw: Seq<Seq<char>>) -> Self
        decreases raw.len(),
    {
        if raw.len() == 0 {
            self
        } else {
            self.with_lines(name, raw.drop_last()).with_line(name, raw.last())
        }
    }

    pub open spec fn with(self, name: Seq<char>, text: Seq<char>) -> Self {
        Contents { names: joined(self.names, name), ..self }.with_lines(
            name,
            crate::text::lines(text),
        )
    }

    /// The lists whose suffixes cover `name` or a parent of it, after
    /// `found`.
    pub open spec fn covering(self, name: Seq<char>, found: Seq<Seq<char>>) -> Seq<Seq<char>>
        decreases name.len(),
    {
        let more = merged(found, self.having(name));
        match crate::text::around(name, '.') {
            Some((_, parent)) => if parent.len() < name.len() {
                self.covering(parent, more)
            } else {
                more
            },
            None => more,
        }
    }

    pub open spec fn matching(self, name: Seq<char>) -> Seq<Seq<char>> {
        self.covering(normal(name), seq![])
    }
}

/// `name`, its parent domain, the parent of that, and so on to the top.
pub open spec fn lineage(name: Seq<char>) -> Seq<Seq<char>>
    decreases name.len(),
{
    match crate::text::around(name, '.') {
        Some((_, parent)) => if parent.len() < name.len() {
            seq![name] + lineage(parent)
        } else {
            seq![name]
        },
        None => seq![name],
    }
}

#[derive(Debug)]
struct Known {
    domain: String,
    lists: Vec<String>,
}

spec fn domains(v: Seq<Known>) -> Seq<Seq<char>> {
    v.map_values(|k: Known| k.domain@)
}

spec fn known(v: Seq<Known>) -> Map<Seq<char>, Seq<Seq<char>>> {
    Map::new(
        |d: Seq<char>| domains(v).contains(d),
        |d: Seq<char>| crate::text::seen(v[domains(v).index_of(d)].lists@),
    )
}

spec fn nets(v: Seq<(Subnet, String)>) -> Seq<(Subnet, Seq<char>)> {
    v.map_values(|e: (Subnet, String)| (e.0, e.1@))
}

#[derive(Debug)]
pub struct Lists {
    suffixes: Vec<Known>,
    subnets: Vec<(Subnet, String)>,
    /// Lines that are neither a domain nor an address, as "list: line".
    pub rejected: Vec<String>,
    /// The lists added, in order.
    names: Vec<String>,
}

proof fn lemma_known_at(v: Seq<Known>, i: int)
    requires
        domains(v).no_duplicates(),
        0 <= i < v.len(),
    ensures
        known(v).dom().contains(v[i].domain@),
        known(v)[v[i].domain@] == crate::text::seen(v[i].lists@),
{
    assert(domains(v)[i] == v[i].domain@);
    assert(domains(v).contains(v[i].domain@));
    let j = domains(v).index_of(v[i].domain@);
    assert(domains(v)[j] == v[i].domain@);
    assert(i == j);
}

/// The suffixes in their order, each once.
spec fn ordered(v: Seq<Known>) -> bool {
    forall|i: int, j: int|
        0 <= i < j < v.len() ==> crate::text::precedes(
            (#[trigger] v[i]).domain@,
            (#[trigger] v[j]).domain@,
        )
}

proof fn lemma_ordered(v: Seq<Known>)
    requires
        ordered(v),
    ensures
        domains(v).no_duplicates(),
{
    assert forall|i: int, j: int| 0 <= i < j < v.len() implies domains(v)[i] != domains(v)[j] by {
        crate::text::lemma_precedes_one_way(v[i].domain@, v[j].domain@);
    }
}

proof fn lemma_known_insert(v: Seq<Known>, at: int, k: Known)
    requires
        ordered(v),
        0 <= at <= v.len(),
        forall|i: int| 0 <= i < at ==> crate::text::precedes((#[trigger] v[i]).domain@, k.domain@),
        forall|i: int|
            at <= i < v.len() ==> crate::text::precedes(k.domain@, (#[trigger] v[i]).domain@),
    ensures
        ordered(v.insert(at, k)),
        known(v.insert(at, k)) =~= known(v).insert(k.domain@, crate::text::seen(k.lists@)),
        !domains(v).contains(k.domain@),
{
    let w = v.insert(at, k);
    assert forall|i: int, j: int| 0 <= i < j < w.len() implies crate::text::precedes(
        (#[trigger] w[i]).domain@,
        (#[trigger] w[j]).domain@,
    ) by {
        if i < at {
            assert(w[i] == v[i]);
        } else if i > at {
            assert(w[i] == v[i - 1]);
        }
        if j < at {
            assert(w[j] == v[j]);
        } else if j > at {
            assert(w[j] == v[j - 1]);
        }
    }
    lemma_ordered(v);
    lemma_ordered(w);
    assert forall|i: int| 0 <= i < v.len() implies domains(v)[i] != k.domain@ by {
        crate::text::lemma_precedes_one_way(v[i].domain@, k.domain@);
    }
    assert(domains(w)[at] == k.domain@);
    assert forall|d: Seq<char>| domains(w).contains(d) implies (domains(v).contains(d) || d
        == k.domain@) by {
        let i = choose|i: int| 0 <= i < domains(w).len() && domains(w)[i] == d;
        if i < at {
            assert(domains(v)[i] == d);
        } else if i > at {
            assert(domains(v)[i - 1] == d);
        }
    }
    assert forall|d: Seq<char>| domains(v).contains(d) implies domains(w).contains(d) by {
        let i = choose|i: int| 0 <= i < domains(v).len() && domains(v)[i] == d;
        if i < at {
            assert(domains(w)[i] == d);
        } else {
            assert(domains(w)[i + 1] == d);
        }
    }
    assert forall|d: Seq<char>| #[trigger] known(w).dom().contains(d) implies known(w)[d] == known(
        v,
    ).insert(k.domain@, crate::text::seen(k.lists@))[d] by {
        let i = choose|i: int| 0 <= i < domains(w).len() && domains(w)[i] == d;
        lemma_known_at(w, i);
        if i < at {
            lemma_known_at(v, i);
        } else if i > at {
            assert(w[i] == v[i - 1]);
            lemma_known_at(v, i - 1);
        }
    }
}

proof fn lemma_known_update(v: Seq<Known>, i: int, k: Known)
    requires
        domains(v).no_duplicates(),
        0 <= i < v.len(),
        k.domain@ == v[i].domain@,
    ensures
        domains(v.update(i, k)) == domains(v),
        known(v.update(i, k)) =~= known(v).insert(k.domain@, crate::text::seen(k.lists@)),
{
    let w = v.update(i, k);
    assert(domains(w) =~= domains(v));
    assert(domains(v)[i] == k.domain@);
    assert forall|d: Seq<char>| #[trigger] known(w).dom().contains(d) implies known(w)[d] == known(
        v,
    ).insert(k.domain@, crate::text::seen(k.lists@))[d] by {
        let j = choose|j: int| 0 <= j < domains(w).len() && domains(w)[j] == d;
        lemma_known_at(w, j);
        lemma_known_at(v, j);
        assert(domains(w)[j] == w[j].domain@);
        assert(domains(w)[i] == w[i].domain@);
    }
}

proof fn lemma_known_len(v: Seq<Known>)
    requires
        domains(v).no_duplicates(),
    ensures
        known(v).dom().finite(),
        known(v).len() == v.len(),
{
    domains(v).unique_seq_to_set();
    assert(known(v).dom() =~= domains(v).to_set());
}

/// The list a file of a directory is: one that ends in `.lst`, named by
/// what stands before that.
pub open spec fn stem(file: Seq<char>) -> Option<Seq<char>> {
    match crate::text::around_last(file, '.') {
        Some((a, b)) => if a.len() > 0 && b == "lst"@ {
            Some(a)
        } else {
            None
        },
        None => None,
    }
}

/// The name of the list in a file, if it is one.
pub fn list_name(file: &str) -> (r: Option<String>)
    ensures
        match r {
            Some(n) => stem(file@) == Some(n@),
            None => stem(file@) is None,
        },
{
    match around_last_of(file, '.') {
        Some((a, b)) => if !a.as_str().is_empty() && same(b.as_str(), "lst") {
            Some(a)
        } else {
            None
        },
        None => None,
    }
}

impl Lists {
    pub closed spec fn wf(&self) -> bool {
        ordered(self.suffixes@)
    }

    pub closed spec fn view(&self) -> Contents {
        Contents {
            suffixes: known(self.suffixes@),
            subnets: nets(self.subnets@),
            rejected: crate::text::seen(self.rejected@),
            names: crate::text::seen(self.names@),
        }
    }

    /// Every subnet of the lists is one that was read.
    pub open spec fn sound(&self) -> bool {
        &&& self.wf()
        &&& forall|i: int|
            0 <= i < self@.subnets.len() ==> (#[trigger] self@.subnets[i]).0.canonical()
    }

    pub fn new() -> (r: Self)
        ensures
            r.sound(),
            r@ == Contents::empty(),
    {
        let r = Lists {
            suffixes: Vec::new(),
            subnets: Vec::new(),
            rejected: Vec::new(),
            names: Vec::new(),
        };
        proof {
            assert(r@ =~= Contents::empty());
        }
        r
    }

    /// Whether the suffix is there, and where it stands or would stand.
    fn place(&self, d: &str) -> (r: (bool, usize))
        requires
            self.wf(),
        ensures
            r.1 <= self.suffixes@.len(),
            r.0 ==> r.1 < self.suffixes@.len() && self.suffixes@[r.1 as int].domain@ == d@,
            !r.0 ==> {
                &&& forall|i: int|
                    0 <= i < r.1 ==> crate::text::precedes(
                        (#[trigger] self.suffixes@[i]).domain@,
                        d@,
                    )
                &&& forall|i: int|
                    r.1 <= i < self.suffixes@.len() ==> crate::text::precedes(
                        d@,
                        (#[trigger] self.suffixes@[i]).domain@,
                    )
                &&& !domains(self.suffixes@).contains(d@)
            },
    {
        let mut low: usize = 0;
        let mut high: usize = self.suffixes.len();
        while low < high
            invariant
                self.wf(),
                low <= high <= self.suffixes@.len(),
                forall|i: int|
                    0 <= i < low ==> crate::text::precedes(
                        (#[trigger] self.suffixes@[i]).domain@,
                        d@,
                    ),
                forall|i: int|
                    high <= i < self.suffixes@.len() ==> crate::text::precedes(
                        d@,
                        (#[trigger] self.suffixes@[i]).domain@,
                    ),
            decreases high - low,
        {
            let mid: usize = low + (high - low) / 2;
            let there = self.suffixes[mid].domain.as_str();
            let ghost m = self.suffixes@[mid as int].domain@;
            if stands_before(there, d) {
                proof {
                    assert forall|i: int| 0 <= i < mid + 1 implies crate::text::precedes(
                        (#[trigger] self.suffixes@[i]).domain@,
                        d@,
                    ) by {
                        if i < mid {
                            crate::text::lemma_precedes_on(self.suffixes@[i].domain@, m, d@);
                        }
                    }
                }
                low = mid + 1;
            } else if stands_before(d, there) {
                proof {
                    assert forall|i: int| mid <= i < self.suffixes@.len() implies
                        crate::text::precedes(d@, (#[trigger] self.suffixes@[i]).domain@) by {
                        if i > mid {
                            crate::text::lemma_precedes_on(d@, m, self.suffixes@[i].domain@);
                        }
                    }
                }
                high = mid;
            } else {
                proof {
                    crate::text::lemma_precedes_one_way(m, d@);
                }
                return (true, mid);
            }
        }
        proof {
            assert forall|i: int| 0 <= i < domains(self.suffixes@).len() implies domains(
                self.suffixes@,
            )[i] != d@ by {
                assert(domains(self.suffixes@)[i] == self.suffixes@[i].domain@);
                crate::text::lemma_precedes_one_way(self.suffixes@[i].domain@, d@);
            }
        }
        (false, low)
    }

    fn note(&mut self, name: &str, d: String)
        requires
            old(self).sound(),
        ensures
            final(self).sound(),
            final(self)@ == (Contents {
                suffixes: old(self)@.suffixes.insert(d@, joined(old(self)@.having(d@), name@)),
                ..old(self)@
            }),
    {
        let (there, i) = self.place(d.as_str());
        let ghost before = self.suffixes@;
        proof {
            lemma_ordered(before);
        }
        if there {
            proof {
                lemma_known_at(before, i as int);
            }
            if among(&self.suffixes[i].lists, name) {
                proof {
                    assert(self@.suffixes.insert(d@, self@.having(d@)) =~= self@.suffixes);
                }
                return;
            }
            let mut k = Known { domain: d, lists: Vec::new() };
            let mut j: usize = 0;
            while j < self.suffixes[i as usize].lists.len()
                invariant
                    i < self.suffixes@.len(),
                    j <= self.suffixes@[i as int].lists@.len(),
                    crate::text::seen(k.lists@) =~= crate::text::seen(
                        self.suffixes@[i as int].lists@,
                    ).take(j as int),
                    k.domain@ == d@,
                decreases self.suffixes@[i as int].lists@.len() - j,
            {
                let s = self.suffixes[i].lists[j].clone();
                proof {
                    crate::text::lemma_seen_push(k.lists@, s);
                }
                k.lists.push(s);
                j += 1;
            }
            proof {
                assert(crate::text::seen(before[i as int].lists@).take(j as int)
                    =~= crate::text::seen(before[i as int].lists@));
            }
            let s = name.to_owned();
            proof {
                crate::text::lemma_seen_push(k.lists@, s);
            }
            k.lists.push(s);
            proof {
                lemma_known_update(before, i as int, k);
            }
            self.suffixes.set(i, k);
            proof {
                assert forall|a: int, b: int| 0 <= a < b < self.suffixes@.len() implies
                    crate::text::precedes(
                    (#[trigger] self.suffixes@[a]).domain@,
                    (#[trigger] self.suffixes@[b]).domain@,
                ) by {
                    assert(before[a].domain@ == self.suffixes@[a].domain@);
                    assert(before[b].domain@ == self.suffixes@[b].domain@);
                }
            }
        } else {
            let mut v: Vec<String> = Vec::new();
            let s = name.to_owned();
            v.push(s);
            let k = Known { domain: d, lists: v };
            proof {
                assert(crate::text::seen(v@) =~= Seq::<Seq<char>>::empty().push(name@));
                lemma_known_insert(before, i as int, k);
            }
            self.suffixes.insert(i, k);
        }
        proof {
            assert(self@ =~= (Contents {
                suffixes: old(self)@.suffixes.insert(d@, joined(old(self)@.having(d@), name@)),
                ..old(self)@
            }));
        }
    }

    fn add_line(&mut self, name: &str, raw: &str)
        requires
            old(self).sound(),
        ensures
            final(self).sound(),
            final(self)@ == old(self)@.with_line(name@, raw@),
    {
        let line = trim_of(raw);
        if line.as_str().is_empty() || starts_of(line.as_str(), "#") {
            return;
        }
        if let Some(s) = Subnet::parse(line.as_str()) {
            let n = name.to_owned();
            self.subnets.push((s, n));
            proof {
                assert(self@.subnets =~= old(self)@.subnets.push((s, name@)));
            }
            return;
        }
        let rest = match after_of(line.as_str(), "*.") {
            Some(rest) => rest,
            None => match after_of(line.as_str(), ".") {
                Some(rest) => rest,
                None => line.clone(),
            },
        };
        let d = normalize(rest.as_str());
        if is_domain(d.as_str()) {
            self.note(name, d);
        } else {
            let mut why = name.to_owned();
            why.append(": ");
            why.append(line.as_str());
            proof {
                crate::text::lemma_seen_push(self.rejected@, why);
            }
            self.rejected.push(why);
            proof {
                assert(self@.subnets == old(self)@.subnets);
            }
        }
    }

    /// Adds the entries of a list; one added before keeps what it has.
    pub fn add(&mut self, name: &str, text: &str)
        requires
            old(self).sound(),
        ensures
            final(self).sound(),
            final(self)@ == old(self)@.with(name@, text@),
    {
        if !among(&self.names, name) {
            let n = name.to_owned();
            proof {
                crate::text::lemma_seen_push(self.names@, n);
            }
            self.names.push(n);
        }
        proof {
            assert(self@.subnets == old(self)@.subnets);
        }
        let ghost start = self@;
        let raw = lines_of(text);
        let mut i: usize = 0;
        proof {
            assert(crate::text::seen(raw@).take(0) =~= seq![]);
        }
        while i < raw.len()
            invariant
                i <= raw@.len(),
                self.sound(),
                self@ == start.with_lines(name@, crate::text::seen(raw@).take(i as int)),
            decreases raw@.len() - i,
        {
            self.add_line(name, raw[i].as_str());
            i += 1;
            proof {
                let now = crate::text::seen(raw@).take(i as int);
                assert(now.drop_last() =~= crate::text::seen(raw@).take(i - 1));
                assert(now.last() == raw@[i - 1]@);
            }
        }
        proof {
            assert(crate::text::seen(raw@).take(i as int) =~= crate::text::seen(raw@));
        }
    }

    pub fn names(&self) -> (r: &Vec<String>)
        ensures
            crate::text::seen(r@) == self@.names,
    {
        &self.names
    }

    pub fn suffix_count(&self) -> (r: usize)
        requires
            self.wf(),
        ensures
            r == self@.suffixes.len(),
    {
        proof {
            lemma_ordered(self.suffixes@);
            lemma_known_len(self.suffixes@);
        }
        self.suffixes.len()
    }

    /// How many entries there are; a number that must fit.
    pub fn entry_count(&self) -> (r: usize)
        requires
            self.wf(),
            self@.suffixes.len() + self@.subnets.len() <= usize::MAX,
        ensures
            r == self@.suffixes.len() + self@.subnets.len(),
    {
        proof {
            lemma_ordered(self.suffixes@);
            lemma_known_len(self.suffixes@);
        }
        self.suffixes.len() + self.subnets.len()
    }

    /// The lines that are no entry, each after the name of its list.
    pub fn rejected(&self) -> (r: &Vec<String>)
        ensures
            crate::text::seen(r@) == self@.rejected,
    {
        &self.rejected
    }

    /// The subnets with the list of each, in the order added.
    pub fn subnets(&self) -> (r: &Vec<(Subnet, String)>)
        ensures
            r@.map_values(|e: (Subnet, String)| (e.0, e.1@)) == self@.subnets,
    {
        &self.subnets
    }

    /// The lists whose suffixes cover `name`: the name itself or any of
    /// its parent domains. Empty when none does.
    pub fn match_domain(&self, name: &str) -> (r: Vec<String>)
        requires
            self.wf(),
        ensures
            crate::text::seen(r@) == self@.matching(name@),
    {
        let mut found: Vec<String> = Vec::new();
        let mut rest = normalize(name);
        proof {
            assert(crate::text::seen(found@) =~= seq![]);
        }
        loop
            invariant
                self.wf(),
                self@.covering(rest@, crate::text::seen(found@)) == self@.matching(name@),
            decreases rest@.len(),
        {
            let (there, i) = self.place(rest.as_str());
            let ghost had = crate::text::seen(found@);
            if there {
                proof {
                    lemma_ordered(self.suffixes@);
                    lemma_known_at(self.suffixes@, i as int);
                }
                merge(&mut found, &self.suffixes[i].lists);
            }
            match around_of(rest.as_str(), '.') {
                Some((_, parent)) => {
                    rest = parent;
                },
                None => {
                    return found;
                },
            }
        }
    }
}

fn merge(found: &mut Vec<String>, more: &Vec<String>)
    ensures
        crate::text::seen(final(found)@) == merged(
            crate::text::seen(old(found)@),
            crate::text::seen(more@),
        ),
{
    let ghost start = crate::text::seen(found@);
    let ghost all = crate::text::seen(more@);
    let mut i: usize = 0;
    proof {
        assert(all.take(0) =~= seq![]);
    }
    while i < more.len()
        invariant
            i <= more@.len(),
            all == crate::text::seen(more@),
            crate::text::seen(found@) == merged(start, all.take(i as int)),
        decreases more@.len() - i,
    {
        if !among(found, more[i].as_str()) {
            let s = more[i].clone();
            proof {
                crate::text::lemma_seen_push(found@, s);
            }
            found.push(s);
        }
        i += 1;
        proof {
            let now = all.take(i as int);
            assert(now.drop_last() =~= all.take(i - 1));
            assert(now.last() == more@[i - 1]@);
        }
    }
    proof {
        assert(all.take(i as int) =~= all);
    }
}

// ---------------------------------------------------------------------
// Laws.
// ---------------------------------------------------------------------

proof fn lemma_merged(s: Seq<Seq<char>>, more: Seq<Seq<char>>, x: Seq<char>)
    ensures
        merged(s, more).contains(x) <==> s.contains(x) || more.contains(x),
    decreases more.len(),
{
    if more.len() > 0 {
        let m = merged(s, more.drop_last());
        lemma_merged(s, more.drop_last(), x);
        assert(more =~= more.drop_last().push(more.last()));
        lemma_push_contains(more.drop_last(), more.last(), x);
        lemma_push_contains(m, more.last(), x);
    }
}

proof fn lemma_push_contains(s: Seq<Seq<char>>, a: Seq<char>, x: Seq<char>)
    ensures
        s.push(a).contains(x) <==> s.contains(x) || a == x,
{
    let t = s.push(a);
    if s.contains(x) {
        let i = choose|i: int| 0 <= i < s.len() && s[i] == x;
        assert(t[i] == x);
    }
    assert(t[s.len() as int] == a);
    if t.contains(x) {
        let i = choose|i: int| 0 <= i < t.len() && t[i] == x;
        if i < s.len() {
            assert(s[i] == x);
        }
    }
}

proof fn lemma_covering(c: Contents, name: Seq<char>, found: Seq<Seq<char>>, x: Seq<char>)
    ensures
        c.covering(name, found).contains(x) <==> found.contains(x) || exists|i: int|
            0 <= i < lineage(name).len() && c.having(#[trigger] lineage(name)[i]).contains(x),
    decreases name.len(),
{
    let more = merged(found, c.having(name));
    lemma_merged(found, c.having(name), x);
    let l = lineage(name);
    assert(l[0] == name);
    if let Some((_, parent)) = crate::text::around(name, '.') {
        if parent.len() < name.len() {
            lemma_covering(c, parent, more, x);
            let m = lineage(parent);
            assert forall|i: int| 0 <= i < m.len() implies l[i + 1] == #[trigger] m[i] by {}
            if exists|i: int| 0 <= i < m.len() && c.having(#[trigger] m[i]).contains(x) {
                let i = choose|i: int| 0 <= i < m.len() && c.having(#[trigger] m[i]).contains(x);
                assert(l[i + 1] == m[i]);
            }
            if exists|i: int| 0 <= i < l.len() && c.having(#[trigger] l[i]).contains(x) {
                let i = choose|i: int| 0 <= i < l.len() && c.having(#[trigger] l[i]).contains(x);
                if i > 0 {
                    assert(l[i] == m[i - 1]);
                }
            }
        }
    }
}

/// A list matches a name exactly when it has the name, in lower case and
/// without the root dot, or one of its parent domains for a suffix.
pub proof fn lemma_match_is_a_suffix(c: Contents, name: Seq<char>, list: Seq<char>)
    ensures
        c.matching(name).contains(list) <==> exists|i: int|
            0 <= i < lineage(normal(name)).len() && c.having(
                #[trigger] lineage(normal(name))[i],
            ).contains(list),
{
    lemma_covering(c, normal(name), seq![], list);
}

proof fn lemma_no_list_twice(c: Contents, name: Seq<char>, found: Seq<Seq<char>>)
    requires
        found.no_duplicates(),
    ensures
        c.covering(name, found).no_duplicates(),
    decreases name.len(),
{
    lemma_merged_once(found, c.having(name));
    if let Some((_, parent)) = crate::text::around(name, '.') {
        if parent.len() < name.len() {
            lemma_no_list_twice(c, parent, merged(found, c.having(name)));
        }
    }
}

proof fn lemma_merged_once(s: Seq<Seq<char>>, more: Seq<Seq<char>>)
    requires
        s.no_duplicates(),
    ensures
        merged(s, more).no_duplicates(),
    decreases more.len(),
{
    if more.len() > 0 {
        lemma_merged_once(s, more.drop_last());
    }
}

/// A list is named once for a name, however many of its suffixes cover it.
pub proof fn lemma_match_names_a_list_once(c: Contents, name: Seq<char>)
    ensures
        c.matching(name).no_duplicates(),
{
    lemma_no_list_twice(c, normal(name), seq![]);
}

proof fn lemma_line_keeps(c: Contents, list: Seq<char>, raw: Seq<char>, d: Seq<char>, x: Seq<char>)
    requires
        c.having(d).contains(x),
    ensures
        c.with_line(list, raw).having(d).contains(x),
{
    if let Entry::Suffix(e) = entry(raw) {
        if e == d {
            lemma_push_contains(c.having(d), list, x);
        }
    }
}

proof fn lemma_lines_keep(
    c: Contents,
    list: Seq<char>,
    raw: Seq<Seq<char>>,
    d: Seq<char>,
    x: Seq<char>,
)
    requires
        c.having(d).contains(x),
    ensures
        c.with_lines(list, raw).having(d).contains(x),
    decreases raw.len(),
{
    if raw.len() > 0 {
        lemma_lines_keep(c, list, raw.drop_last(), d, x);
        lemma_line_keeps(c.with_lines(list, raw.drop_last()), list, raw.last(), d, x);
    }
}

/// Adding a list takes no name out of the lists that matched it.
pub proof fn lemma_adding_keeps_matches(
    c: Contents,
    list: Seq<char>,
    text: Seq<char>,
    name: Seq<char>,
    x: Seq<char>,
)
    requires
        c.matching(name).contains(x),
    ensures
        c.with(list, text).matching(name).contains(x),
{
    lemma_match_is_a_suffix(c, name, x);
    let l = lineage(normal(name));
    let i = choose|i: int| 0 <= i < l.len() && c.having(#[trigger] l[i]).contains(x);
    let named = Contents { names: joined(c.names, list), ..c };
    assert(named.having(l[i]) == c.having(l[i]));
    lemma_lines_keep(named, list, crate::text::lines(text), l[i], x);
    lemma_match_is_a_suffix(c.with(list, text), name, x);
}

proof fn lemma_strip_alike(s: Seq<char>, t: Seq<char>)
    requires
        s.len() == t.len(),
        forall|i: int| 0 <= i < s.len() ==> (#[trigger] s[i] == '.' <==> t[i] == '.'),
    ensures
        ({
            let n = crate::text::strip_end(s, crate::text::one('.')).len() as int;
            &&& n <= s.len()
            &&& crate::text::strip_end(s, crate::text::one('.')) == s.take(n)
            &&& crate::text::strip_end(t, crate::text::one('.')) == t.take(n)
            &&& n == 0 || s[n - 1] != '.'
        }),
    decreases s.len(),
{
    let dot = crate::text::one('.');
    if s.len() > 0 && dot(s.last()) {
        lemma_strip_alike(s.drop_last(), t.drop_last());
        let n = crate::text::strip_end(s.drop_last(), dot).len() as int;
        assert(s.drop_last().take(n) =~= s.take(n));
        assert(t.drop_last().take(n) =~= t.take(n));
    } else {
        assert(s.take(s.len() as int) =~= s);
        assert(t.take(t.len() as int) =~= t);
    }
}

/// A name is brought to its normal form once and for all, and in whatever
/// case it is written it is the same.
pub proof fn lemma_normal_once(s: Seq<char>)
    ensures
        normal(normal(s)) == normal(s),
        normal(crate::text::lower(s)) == normal(s),
        normal(crate::text::upper(s)) == normal(s),
{
    let dot = crate::text::one('.');
    let (low, up) = (crate::text::lower(s), crate::text::upper(s));
    lemma_strip_alike(s, low);
    lemma_strip_alike(s, up);
    let n = crate::text::strip_end(s, dot).len() as int;
    assert(crate::text::lower(low.take(n)) =~= crate::text::lower(s.take(n)));
    assert(crate::text::lower(up.take(n)) =~= crate::text::lower(s.take(n)));
    let r = normal(s);
    assert(r.len() == n);
    assert(crate::text::strip_end(r, dot) == r) by {
        if n > 0 {
            assert(r.last() == crate::text::lower_char(s[n - 1]));
        }
    }
    assert(crate::text::lower(r) =~= r);
}

proof fn lemma_lineage(name: Seq<char>, d: Seq<char>)
    ensures
        lineage(name).contains(d) <==> d == name || exists|k: int|
            0 <= k < name.len() && name[k] == '.' && d == #[trigger] name.skip(k + 1),
    decreases name.len(),
{
    let l = lineage(name);
    assert(l[0] == name);
    let dot = crate::text::one('.');
    crate::text::lemma_first(name, dot);
    let n = crate::text::first(name, dot) as int;
    if n < name.len() {
        let parent = name.skip(n + 1);
        let m = lineage(parent);
        lemma_lineage(parent, d);
        assert(name[n] == '.');
        assert forall|k: int| 0 <= k < parent.len() implies #[trigger] parent.skip(k + 1)
            =~= name.skip(n + 1 + k + 1) by {}
        if m.contains(d) {
            let i = choose|i: int| 0 <= i < m.len() && m[i] == d;
            assert(l[i + 1] == d);
            if d == parent {
                assert(d == name.skip(n + 1));
            } else {
                let k = choose|k: int|
                    0 <= k < parent.len() && parent[k] == '.' && d == #[trigger] parent.skip(k + 1);
                assert(name[n + 1 + k] == '.');
                assert(d == name.skip(n + 1 + k + 1));
            }
        }
        if l.contains(d) && d != name {
            let i = choose|i: int| 0 <= i < l.len() && l[i] == d;
            assert(m[i - 1] == d);
        }
        if exists|k: int| 0 <= k < name.len() && name[k] == '.' && d == #[trigger] name.skip(k + 1) {
            let k = choose|k: int|
                0 <= k < name.len() && name[k] == '.' && d == #[trigger] name.skip(k + 1);
            assert(k >= n) by {
                if k < n {
                    assert(!dot(name[k]));
                }
            }
            if k > n {
                let j = k - n - 1;
                assert(parent[j] == '.');
                assert(parent.skip(j + 1) =~= d);
            }
            assert(m.contains(d));
            let i = choose|i: int| 0 <= i < m.len() && m[i] == d;
            assert(l[i + 1] == d);
        }
    } else {
        assert forall|k: int| 0 <= k < name.len() implies name[k] != '.' by {
            assert(!dot(name[k]));
        }
    }
}

/// A list matches a name when it has the name for a suffix, or what stands
/// behind one of the dots of the name; never a suffix that begins in the
/// middle of a label.
pub proof fn lemma_match_behind_a_dot(c: Contents, name: Seq<char>, list: Seq<char>)
    ensures
        c.matching(name).contains(list) <==> {
            ||| c.suffixes.dom().contains(normal(name)) && c.suffixes[normal(name)].contains(list)
            ||| exists|k: int|
                {
                    &&& 0 <= k < normal(name).len()
                    &&& normal(name)[k] == '.'
                    &&& c.suffixes.dom().contains(#[trigger] normal(name).skip(k + 1))
                    &&& c.suffixes[normal(name).skip(k + 1)].contains(list)
                }
        },
{
    let n = normal(name);
    lemma_match_is_a_suffix(c, name, list);
    let l = lineage(n);
    if c.matching(name).contains(list) {
        let i = choose|i: int| 0 <= i < l.len() && c.having(#[trigger] l[i]).contains(list);
        assert(l.contains(l[i]));
        lemma_lineage(n, l[i]);
    }
    if c.having(n).contains(list) {
        assert(l[0] == n);
    }
    if exists|k: int|
        0 <= k < n.len() && n[k] == '.' && c.having(#[trigger] n.skip(k + 1)).contains(list) {
        let k = choose|k: int|
            0 <= k < n.len() && n[k] == '.' && c.having(#[trigger] n.skip(k + 1)).contains(list);
        lemma_lineage(n, n.skip(k + 1));
        let i = choose|i: int| 0 <= i < l.len() && l[i] == n.skip(k + 1);
        assert(c.having(l[i]).contains(list));
    }
}

proof fn lemma_merged_goes_on(s: Seq<Seq<char>>, more: Seq<Seq<char>>)
    ensures
        s.len() <= merged(s, more).len(),
        merged(s, more).take(s.len() as int) == s,
        s.len() == 0 && more.no_duplicates() ==> merged(s, more) == more,
    decreases more.len(),
{
    if more.len() > 0 {
        let rest = more.drop_last();
        lemma_merged_goes_on(s, rest);
        assert(merged(s, more).take(s.len() as int) =~= merged(s, rest).take(s.len() as int));
        if s.len() == 0 && more.no_duplicates() {
            assert(rest.no_duplicates());
            assert(!rest.contains(more.last()));
            assert(rest.push(more.last()) =~= more);
        }
    } else {
        assert(s.take(s.len() as int) =~= s);
        assert(s.len() == 0 ==> s =~= more);
    }
}

proof fn lemma_covering_goes_on(c: Contents, name: Seq<char>, found: Seq<Seq<char>>)
    ensures
        found.len() <= c.covering(name, found).len(),
        c.covering(name, found).take(found.len() as int) == found,
    decreases name.len(),
{
    let more = merged(found, c.having(name));
    lemma_merged_goes_on(found, c.having(name));
    if let Some((_, parent)) = crate::text::around(name, '.') {
        if parent.len() < name.len() {
            lemma_covering_goes_on(c, parent, more);
            assert(c.covering(parent, more).take(found.len() as int) =~= more.take(
                found.len() as int,
            ));
        }
    }
}

/// The lists that have the name itself come first, before those that have
/// only a parent of it.
pub proof fn lemma_the_name_itself_first(c: Contents, name: Seq<char>)
    requires
        c.suffixes.dom().contains(normal(name)),
        c.suffixes[normal(name)].no_duplicates(),
    ensures
        c.suffixes[normal(name)].is_prefix_of(c.matching(name)),
{
    let n = normal(name);
    let own = c.suffixes[n];
    lemma_merged_goes_on(seq![], own);
    if let Some((_, parent)) = crate::text::around(n, '.') {
        if parent.len() < n.len() {
            lemma_covering_goes_on(c, parent, own);
        }
    }
    assert(c.matching(name).take(own.len() as int) =~= own);
}

/// A name is read without the dots at its end and with small letters for
/// capital ones; nothing else of it is changed.
pub proof fn lemma_what_normal_is(s: Seq<char>)
    ensures
        normal(s).len() <= s.len(),
        forall|i: int|
            0 <= i < normal(s).len() ==> (#[trigger] normal(s)[i]) as int == (if 'A' <= s[i]
                <= 'Z' {
                s[i] as int + 32
            } else {
                s[i] as int
            }),
        forall|i: int| normal(s).len() <= i < s.len() ==> #[trigger] s[i] == '.',
        normal(s).len() > 0 ==> normal(s).last() != '.',
    decreases s.len(),
{
    let dot = crate::text::one('.');
    lemma_strip_alike(s, s);
    let n = crate::text::strip_end(s, dot).len() as int;
    assert forall|i: int| n <= i < s.len() implies #[trigger] s[i] == '.' by {
        lemma_stripped_are_dots(s, i);
    }
}

proof fn lemma_stripped_are_dots(s: Seq<char>, i: int)
    requires
        crate::text::strip_end(s, crate::text::one('.')).len() <= i < s.len(),
    ensures
        s[i] == '.',
    decreases s.len(),
{
    if i < s.len() - 1 {
        lemma_stripped_are_dots(s.drop_last(), i);
    }
}

/// A line is read without the white space round it. What is empty, or
/// begins with a number sign, is no entry; an address or a subnet is one; a
/// name is one with or without a dot, or a star and a dot, before it; all
/// else is refused, as it was written.
pub proof fn lemma_what_a_line_is(raw: Seq<char>, name: Seq<char>, c: Contents)
    ensures
        ({
            let line = crate::text::trim(raw);
            let after = c.with_line(name, raw);
            let d = normal(
                if line.len() >= 2 && line[0] == '*' && line[1] == '.' {
                    line.skip(2)
                } else if line.len() >= 1 && line[0] == '.' {
                    line.skip(1)
                } else {
                    line
                },
            );
            &&& after.names == c.names
            &&& if line.len() == 0 || line[0] == '#' {
                after == c
            } else {
                match crate::addr::subnet(line) {
                    Some(s) => {
                        &&& after.subnets == c.subnets.push((s, name))
                        &&& after.suffixes == c.suffixes
                        &&& after.rejected == c.rejected
                    },
                    None => {
                        &&& after.subnets == c.subnets
                        &&& domain(d) ==> {
                            &&& after.rejected == c.rejected
                            &&& after.suffixes.dom() == c.suffixes.dom().insert(d)
                            &&& forall|e: Seq<char>|
                                c.suffixes.dom().contains(e) && e != d ==> #[trigger]
                                after.suffixes[e] == c.suffixes[e]
                            &&& !c.suffixes.dom().contains(d) ==> after.suffixes[d] == seq![name]
                            &&& c.suffixes.dom().contains(d) ==> after.suffixes[d] == (
                            if c.suffixes[d].contains(name) {
                                c.suffixes[d]
                            } else {
                                c.suffixes[d].push(name)
                            })
                        }
                        &&& !domain(d) ==> {
                            &&& after.suffixes == c.suffixes
                            &&& after.rejected == c.rejected.push(name + seq![':', ' '] + line)
                        }
                    },
                }
            }
        }),
{
    reveal_strlit("#");
    reveal_strlit(".");
    reveal_strlit("*.");
    reveal_strlit(": ");
    let line = crate::text::trim(raw);
    assert(crate::text::starts(line, "#"@) <==> line.len() >= 1 && line[0] == '#') by {
        if line.len() >= 1 && line[0] == '#' {
            assert(line.take(1) =~= "#"@);
        }
        if crate::text::starts(line, "#"@) {
            assert(line.take(1)[0] == line[0]);
        }
    }
    assert(crate::text::starts(line, "*."@) <==> line.len() >= 2 && line[0] == '*' && line[1]
        == '.') by {
        if line.len() >= 2 && line[0] == '*' && line[1] == '.' {
            assert(line.take(2) =~= "*."@);
        }
        if crate::text::starts(line, "*."@) {
            assert(line.take(2)[0] == line[0] && line.take(2)[1] == line[1]);
        }
    }
    assert(crate::text::starts(line, "."@) <==> line.len() >= 1 && line[0] == '.') by {
        if line.len() >= 1 && line[0] == '.' {
            assert(line.take(1) =~= "."@);
        }
        if crate::text::starts(line, "."@) {
            assert(line.take(1)[0] == line[0]);
        }
    }
    assert(": "@ =~= seq![':', ' ']);
    assert(Seq::<Seq<char>>::empty().push(name) =~= seq![name]);
    let d = normal(bare(line));
    assert(c.suffixes.insert(d, joined(c.having(d), name)).dom() =~= c.suffixes.dom().insert(d));
}

/// A name of labels of letters, digits, hyphens and underscores, with dots
/// between them, is a domain; with any other character it is not.
pub proof fn lemma_what_a_domain_is(a: Seq<char>, b: Seq<char>)
    requires
        !a.contains('.'),
    ensures
        domain(a) <==> 0 < a.len() <= 63 && forall|i: int|
            0 <= i < a.len() ==> ('a' <= #[trigger] a[i] <= 'z' || 'A' <= a[i] <= 'Z' || '0'
                <= a[i] <= '9' || a[i] == '-' || a[i] == '_'),
        domain(a + seq!['.'] + b) <==> a.len() + 1 + b.len() <= 253 && domain(a) && domain(b),
{
    crate::text::lemma_split_one(a, '.');
    crate::text::lemma_split_cons(a, '.', b);
    let p = crate::text::split(a, '.');
    assert(p[0] == a);
    if 0 < a.len() <= 63 && forall|i: int| 0 <= i < a.len() ==> word_char(#[trigger] a[i]) {
        assert(label(a));
    }
    if domain(a) {
        assert(label(p[0]));
    }
    let s = a + seq!['.'] + b;
    let (q, r) = (crate::text::split(s, '.'), crate::text::split(b, '.'));
    assert(q =~= seq![a] + r);
    if domain(s) {
        assert(label(q[0]));
        assert forall|i: int| 0 <= i < r.len() implies label(#[trigger] r[i]) by {
            assert(q[i + 1] == r[i]);
        }
        assert(r.len() > 0);
        assert(b.len() > 0) by {
            assert(label(r[0]));
            if b.len() == 0 {
                crate::text::lemma_split_one(b, '.');
            }
        }
    }
    if domain(a) && domain(b) && s.len() <= 253 {
        assert forall|i: int| 0 <= i < q.len() implies label(#[trigger] q[i]) by {
            if i > 0 {
                assert(q[i] == r[i - 1]);
            }
        }
    }
}

/// Adding a list names it, once, and reads its lines one after another.
pub proof fn lemma_a_list_added(c: Contents, name: Seq<char>, text: Seq<char>, more: Seq<char>)
    ensures
        c.with(name, seq![]).names == if c.names.contains(name) {
            c.names
        } else {
            c.names.push(name)
        },
        c.with(name, seq![]).suffixes == c.suffixes,
        c.with(name, seq![]).subnets == c.subnets,
        c.with(name, seq![]).rejected == c.rejected,
        !text.contains('\n') && !(text.len() > 0 && text.last() == '\r') ==> c.with(
            name,
            text + seq!['\n'] + more,
        ) == c.with(name, seq![]).with_line(name, text).with(name, more),
{
    reveal_strlit("\n");
    let named = Contents { names: joined(c.names, name), ..c };
    assert(crate::text::lines(seq![]) =~= seq![]);
    assert(c.with(name, seq![]) == named);
    if !text.contains('\n') && !(text.len() > 0 && text.last() == '\r') {
        assert("\n"@ =~= seq!['\n']);
        crate::text::lemma_lines_cons(text, more);
        let rest = crate::text::lines(more);
        let one = named.with_line(name, text);
        lemma_lines_in_order(named, name, text, rest);
        assert(one.names == named.names);
        assert(named.names.contains(name)) by {
            lemma_push_contains(c.names, name, name);
        }
        assert(one.with(name, more) == one.with_lines(name, rest));
    }
}

proof fn lemma_lines_in_order(c: Contents, name: Seq<char>, x: Seq<char>, rest: Seq<Seq<char>>)
    ensures
        c.with_lines(name, seq![x] + rest) == c.with_line(name, x).with_lines(name, rest),
    decreases rest.len(),
{
    let all = seq![x] + rest;
    if rest.len() == 0 {
        assert(all.drop_last() =~= seq![]);
        assert(all.last() == x);
        assert(c.with_lines(name, all.drop_last()) == c);
    } else {
        lemma_lines_in_order(c, name, x, rest.drop_last());
        assert(all.drop_last() =~= seq![x] + rest.drop_last());
        assert(all.last() == rest.last());
    }
}

/// The list of a file is named by what stands before `.lst`; another file
/// is no list.
pub proof fn lemma_a_list_file(a: Seq<char>, b: Seq<char>)
    requires
        !b.contains('.'),
    ensures
        stem(a + seq!['.'] + b) == if a.len() > 0 && b == seq!['l', 's', 't'] {
            Some(a)
        } else {
            None
        },
        stem(b) is None,
{
    reveal_strlit("lst");
    assert("lst"@ =~= seq!['l', 's', 't']);
    crate::text::lemma_parted_last(a, '.', b);
}

} // verus!
