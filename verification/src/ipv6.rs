//! IPv6 addresses as texts: eight groups of sixteen bits, read in any of
//! the ways they are written and shown in the shortest.

use vstd::prelude::*;
use vstd::string::*;

use crate::addr::Ipv4Addr;
use crate::text::{chars_of, cut, join_of, split_of};

verus! {

pub open spec fn hex_digit(c: char) -> bool {
    crate::text::digit(c) || 'a' <= c <= 'f' || 'A' <= c <= 'F'
}

pub open spec fn hex_digit_value(c: char) -> nat {
    if crate::text::digit(c) {
        (c as int - '0' as int) as nat
    } else if 'a' <= c <= 'f' {
        (c as int - 'a' as int + 10) as nat
    } else {
        (c as int - 'A' as int + 10) as nat
    }
}

/// A group as it is written.
pub open spec fn group(s: Seq<char>) -> bool {
    &&& 1 <= s.len() <= 4
    &&& forall|i: int| 0 <= i < s.len() ==> hex_digit(#[trigger] s[i])
}

pub open spec fn hex_value(s: Seq<char>) -> nat
    decreases s.len(),
{
    if s.len() == 0 {
        0
    } else {
        hex_value(s.drop_last()) * 16 + hex_digit_value(s.last())
    }
}

pub open spec fn values(p: Seq<Seq<char>>) -> Seq<u16> {
    p.map_values(|s: Seq<char>| hex_value(s) as u16)
}

/// The two groups an IPv4 address makes.
pub open spec fn halves(a: Ipv4Addr) -> Seq<u16> {
    seq![(a.bits / 0x1_0000) as u16, (a.bits % 0x1_0000) as u16]
}

/// The groups the pieces make: each is one, but the last may be an IPv4
/// address, which is two.
pub open spec fn groups(p: Seq<Seq<char>>) -> Option<Seq<u16>> {
    if !(forall|i: int| 0 <= i < p.len() - 1 ==> group(#[trigger] p[i])) {
        None
    } else if group(p.last()) {
        Some(values(p))
    } else {
        match crate::addr::address(p.last()) {
            Some(a) => Some(values(p.drop_last()) + halves(a)),
            None => None,
        }
    }
}

/// The groups a part of an address makes; nothing makes none.
pub open spec fn part(s: Seq<char>) -> Option<Seq<u16>> {
    if s.len() == 0 {
        Some(seq![])
    } else {
        groups(crate::text::split(s, ':'))
    }
}

/// Where two colons first stand together; past the end without them.
pub open spec fn gap(s: Seq<char>) -> nat
    decreases s.len(),
{
    if s.len() < 2 {
        s.len()
    } else if s[0] == ':' && s[1] == ':' {
        0
    } else {
        1 + gap(s.skip(1))
    }
}

pub open spec fn zeros(n: nat) -> Seq<u16> {
    Seq::new(n, |i: int| 0u16)
}

/// The groups of the address `s` writes: eight of them, or fewer around
/// two colons, which stand for at least one zero; an IPv4 address only at
/// the very end.
pub open spec fn ipv6(s: Seq<char>) -> Option<Seq<u16>> {
    let at = gap(s) as int;
    if at < s.len() {
        let head = s.take(at);
        match (part(head), part(s.skip(at + 2))) {
            (Some(h), Some(t)) => if !head.contains('.') && h.len() + t.len() <= 7 {
                Some(h + zeros((8 - h.len() - t.len()) as nat) + t)
            } else {
                None
            },
            _ => None,
        }
    } else {
        match part(s) {
            Some(g) => if g.len() == 8 {
                Some(g)
            } else {
                None
            },
            None => None,
        }
    }
}

proof fn lemma_gap(s: Seq<char>, at: nat)
    requires
        at <= s.len(),
        at < s.len() ==> at + 1 < s.len() && s[at as int] == ':' && s[at as int + 1] == ':',
        forall|i: int| 0 <= i < at && i + 1 < s.len() ==> !(#[trigger] s[i] == ':' && s[i + 1] == ':'),
    ensures
        gap(s) == at,
    decreases s.len(),
{
    if s.len() >= 2 && at > 0 {
        assert(!(s[0] == ':' && s[1] == ':'));
        let t = s.skip(1);
        assert forall|i: int| 0 <= i < at - 1 && i + 1 < t.len() implies !(#[trigger] t[i] == ':'
            && t[i + 1] == ':') by {
            assert(t[i] == s[i + 1] && t[i + 1] == s[i + 2]);
        }
        lemma_gap(t, (at - 1) as nat);
    }
}

fn gap_of(v: &Vec<char>) -> (r: usize)
    ensures
        r == gap(v@),
        r <= v@.len(),
        r < v@.len() ==> r + 1 < v@.len(),
{
    let mut i: usize = 0;
    let n = v.len();
    while i < n
        invariant
            i <= n,
            n == v@.len(),
            forall|j: int|
                0 <= j < i && j + 1 < n ==> !(#[trigger] v@[j] == ':' && v@[j + 1] == ':'),
        decreases n - i,
    {
        if n - i > 1 && v[i] == ':' && v[i + 1] == ':' {
            proof {
                lemma_gap(v@, i as nat);
            }
            return i;
        }
        i += 1;
    }
    proof {
        lemma_gap(v@, n as nat);
    }
    n
}

fn hex_digit_of(c: char) -> (r: Option<u32>)
    ensures
        match r {
            Some(d) => hex_digit(c) && d == hex_digit_value(c) && d < 16,
            None => !hex_digit(c),
        },
{
    if '0' <= c && c <= '9' {
        Some(c as u32 - 48)
    } else if 'a' <= c && c <= 'f' {
        Some(c as u32 - 87)
    } else if 'A' <= c && c <= 'F' {
        Some(c as u32 - 55)
    } else {
        None
    }
}

/// The group a text writes, if it writes one.
fn group_of(s: &str) -> (r: Option<u16>)
    ensures
        match r {
            Some(n) => group(s@) && hex_value(s@) == n,
            None => !group(s@),
        },
{
    let v = chars_of(s);
    if v.len() == 0 || v.len() > 4 {
        return None;
    }
    let mut n: u32 = 0;
    let mut i: usize = 0;
    while i < v.len()
        invariant
            i <= v@.len() <= 4,
            v@ == s@,
            forall|j: int| 0 <= j < i ==> hex_digit(#[trigger] v@[j]),
            n == hex_value(v@.take(i as int)),
            i == 0 ==> n == 0,
            i == 1 ==> n < 0x10,
            i == 2 ==> n < 0x100,
            i == 3 ==> n < 0x1000,
            i == 4 ==> n < 0x1_0000,
        decreases v@.len() - i,
    {
        match hex_digit_of(v[i]) {
            Some(d) => {
                n = n * 16 + d;
            },
            None => {
                proof {
                    assert(!hex_digit(s@[i as int]));
                }
                return None;
            },
        }
        proof {
            assert(v@.take(i + 1).drop_last() =~= v@.take(i as int));
        }
        i += 1;
    }
    proof {
        assert(v@.take(i as int) =~= s@);
    }
    Some(n as u16)
}

/// `part`, as long as that is no more than eight groups.
fn part_of(s: &str) -> (r: Option<Vec<u16>>)
    ensures
        match r {
            Some(g) => part(s@) == Some(g@) && g@.len() <= 9,
            None => part(s@) matches Some(g) ==> g.len() > 8,
        },
{
    let mut g: Vec<u16> = Vec::new();
    if s.is_empty() {
        return Some(g);
    }
    let p = split_of(s, ':');
    let ghost q = crate::text::split(s@, ':');
    let n = p.len();
    proof {
        assert(crate::text::pieces(s@, crate::text::one(':')).len() >= 1);
    }
    if n > 8 {
        return None;
    }
    let mut i: usize = 0;
    while i < n - 1
        invariant
            i <= n - 1,
            n == p@.len(),
            n <= 8,
            q == crate::text::seen(p@),
            q == crate::text::split(s@, ':'),
            s@.len() > 0,
            forall|j: int| 0 <= j < i ==> group(#[trigger] q[j]),
            g@ == values(q.take(i as int)),
        decreases n - i,
    {
        proof {
            assert(q[i as int] == p@[i as int]@);
        }
        match group_of(p[i].as_str()) {
            Some(x) => {
                g.push(x);
            },
            None => {
                return None;
            },
        }
        proof {
            assert(g@ =~= values(q.take(i + 1)));
        }
        i += 1;
    }
    proof {
        assert(q.last() == p@[n - 1]@);
        assert(q.take(n - 1) =~= q.drop_last());
    }
    match group_of(p[n - 1].as_str()) {
        Some(x) => {
            g.push(x);
            proof {
                assert(g@ =~= values(q));
            }
            Some(g)
        },
        None => match Ipv4Addr::parse(p[n - 1].as_str()) {
            Some(a) => {
                g.push((a.bits / 0x1_0000) as u16);
                g.push((a.bits % 0x1_0000) as u16);
                proof {
                    assert(g@ =~= values(q.drop_last()) + halves(a));
                }
                Some(g)
            },
            None => None,
        },
    }
}

fn has_dot(v: &Vec<char>, to: usize) -> (r: bool)
    requires
        to <= v@.len(),
    ensures
        r == v@.take(to as int).contains('.'),
{
    let mut i: usize = 0;
    while i < to
        invariant
            i <= to <= v@.len(),
            forall|j: int| 0 <= j < i ==> v@[j] != '.',
        decreases to - i,
    {
        if v[i] == '.' {
            proof {
                assert(v@.take(to as int)[i as int] == '.');
            }
            return true;
        }
        i += 1;
    }
    false
}

fn append_all(g: &mut Vec<u16>, t: &Vec<u16>)
    ensures
        final(g)@ == old(g)@ + t@,
{
    let mut i: usize = 0;
    while i < t.len()
        invariant
            i <= t@.len(),
            g@ == old(g)@ + t@.take(i as int),
        decreases t@.len() - i,
    {
        g.push(t[i]);
        proof {
            assert(t@.take(i + 1) =~= t@.take(i as int).push(t@[i as int]));
        }
        i += 1;
    }
    proof {
        assert(t@.take(i as int) =~= t@);
    }
}

/// The groups of the address a text writes, if it writes one:
/// `Ipv6Addr::from_str`.
pub fn parse(s: &str) -> (r: Option<Vec<u16>>)
    ensures
        match r {
            Some(g) => ipv6(s@) == Some(g@) && g@.len() == 8,
            None => ipv6(s@) is None,
        },
{
    let v = chars_of(s);
    let at = gap_of(&v);
    if at < v.len() {
        if has_dot(&v, at) {
            return None;
        }
        let head = cut(&v, 0, at);
        let tail = cut(&v, at + 2, v.len());
        proof {
            assert(v@.subrange(0, at as int) =~= s@.take(at as int));
            assert(v@.subrange(at + 2, v@.len() as int) =~= s@.skip(at + 2));
        }
        match (part_of(head.as_str()), part_of(tail.as_str())) {
            (Some(h), Some(t)) => {
                if h.len() + t.len() > 7 {
                    return None;
                }
                let ghost front = h@;
                let mut g = h;
                let to: usize = 8 - t.len();
                while g.len() < to
                    invariant
                        front.len() <= g@.len() <= to,
                        g@ == front + zeros((g@.len() - front.len()) as nat),
                    decreases to - g@.len(),
                {
                    g.push(0);
                    proof {
                        assert(g@ =~= front + zeros((g@.len() - front.len()) as nat));
                    }
                }
                append_all(&mut g, &t);
                Some(g)
            },
            _ => None,
        }
    } else {
        match part_of(s) {
            Some(g) => if g.len() == 8 {
                Some(g)
            } else {
                None
            },
            None => None,
        }
    }
}

// ---------------------------------------------------------------------
// The shortest text.
// ---------------------------------------------------------------------

/// `n` in hexadecimal, without needless zeros.
pub open spec fn short_hex(n: nat) -> Seq<char>
    decreases n,
{
    if n < 16 {
        seq![crate::text::hex_char(n)]
    } else {
        short_hex(n / 16).push(crate::text::hex_char(n % 16))
    }
}

/// The groups with colons between them.
pub open spec fn colons(g: Seq<u16>) -> Seq<char> {
    crate::text::join(g.map_values(|n: u16| short_hex(n as nat)), ":"@)
}

/// How many zeros stand together from `i` on.
pub open spec fn run(g: Seq<u16>, i: int) -> nat
    decreases g.len() - i,
{
    if 0 <= i < g.len() && g[i] == 0 {
        1 + run(g, i + 1)
    } else {
        0
    }
}

/// The longest run of zeros, and the first of that length, starts at `i`,
/// and it is more than one.
pub open spec fn widest(g: Seq<u16>, i: int) -> bool {
    &&& 0 <= i < g.len()
    &&& run(g, i) > 1
    &&& forall|j: int| 0 <= j < g.len() ==> #[trigger] run(g, j) <= run(g, i)
    &&& forall|j: int| 0 <= j < i ==> #[trigger] run(g, j) < run(g, i)
}

/// An IPv4 address mapped into IPv6.
pub open spec fn mapped(g: Seq<u16>) -> bool {
    &&& forall|i: int| 0 <= i < 5 ==> #[trigger] g[i] == 0
    &&& g[5] == 0xffff
}

pub open spec fn last_32(g: Seq<u16>) -> Ipv4Addr {
    Ipv4Addr { bits: (g[6] * 0x1_0000 + g[7]) as u32 }
}

/// The address with these eight groups as it is shown: a mapped IPv4
/// address in its own way, and else two colons for the longest run of
/// zeros.
pub open spec fn shown(g: Seq<u16>) -> Seq<char> {
    if mapped(g) {
        "::ffff:"@ + last_32(g).shown()
    } else if exists|i: int| widest(g, i) {
        let i = choose|i: int| widest(g, i);
        colons(g.take(i)) + "::"@ + colons(g.skip(i + run(g, i)))
    } else {
        colons(g)
    }
}

fn show_short_hex(n: u16) -> (r: String)
    ensures
        r@ == short_hex(n as nat),
    decreases n,
{
    let mut r = if n < 16 {
        String::new()
    } else {
        show_short_hex(n / 16)
    };
    let d: u8 = (n % 16) as u8;
    if d < 10 {
        r.push((48 + d) as char);
    } else {
        r.push((87 + d) as char);
    }
    proof {
        assert(r@ =~= short_hex(n as nat));
    }
    r
}

fn show_colons(g: &Vec<u16>, from: usize, to: usize) -> (r: String)
    requires
        from <= to <= g@.len(),
    ensures
        r@ == colons(g@.subrange(from as int, to as int)),
{
    let mut v: Vec<String> = Vec::new();
    let mut i: usize = from;
    while i < to
        invariant
            from <= i <= to <= g@.len(),
            v@.len() == i - from,
            forall|j: int| 0 <= j < i - from ==> (#[trigger] v@[j])@ == short_hex(g@[from + j] as nat),
        decreases to - i,
    {
        v.push(show_short_hex(g[i]));
        i += 1;
    }
    proof {
        let s = g@.subrange(from as int, to as int);
        assert(crate::text::seen(v@) =~= s.map_values(|n: u16| short_hex(n as nat)));
    }
    join_of(&v, ":")
}

fn run_of(g: &Vec<u16>, at: usize) -> (r: usize)
    requires
        at <= g@.len(),
    ensures
        r == run(g@, at as int),
        at + r <= g@.len(),
    decreases g@.len() - at,
{
    if at < g.len() && g[at] == 0 {
        1 + run_of(g, at + 1)
    } else {
        0
    }
}

/// The address with these groups, as std shows it.
pub fn show(g: &Vec<u16>) -> (r: String)
    requires
        g@.len() == 8,
    ensures
        r@ == shown(g@),
{
    if g[0] == 0 && g[1] == 0 && g[2] == 0 && g[3] == 0 && g[4] == 0 && g[5] == 0xffff {
        let a = Ipv4Addr { bits: g[6] as u32 * 0x1_0000 + g[7] as u32 };
        let mut r = "::ffff:".to_owned();
        r.append(a.to_string().as_str());
        return r;
    }
    let mut best: usize = 0;
    let mut most: usize = run_of(g, 0);
    let mut i: usize = 1;
    while i < 8
        invariant
            1 <= i <= 8,
            best < i,
            g@.len() == 8,
            most == run(g@, best as int),
            best + most <= 8,
            forall|j: int| 0 <= j < i ==> #[trigger] run(g@, j) <= most,
            forall|j: int| 0 <= j < best ==> #[trigger] run(g@, j) < most,
        decreases 8 - i,
    {
        let n = run_of(g, i);
        if n > most {
            best = i;
            most = n;
        }
        i += 1;
    }
    if most > 1 {
        proof {
            assert(widest(g@, best as int));
            let k = choose|k: int| widest(g@, k);
            assert(run(g@, k) <= run(g@, best as int) && run(g@, best as int) <= run(g@, k));
            assert(k == best);
            assert(g@.subrange(0, best as int) =~= g@.take(best as int));
            assert(g@.subrange(best + most, 8) =~= g@.skip(best + most));
        }
        let mut r = show_colons(g, 0, best);
        r.append("::");
        r.append(show_colons(g, best + most, 8).as_str());
        r
    } else {
        proof {
            assert forall|k: int| !widest(g@, k) by {
                if widest(g@, k) {
                    assert(run(g@, k) <= most);
                }
            }
            assert(g@.subrange(0, 8) =~= g@);
        }
        show_colons(g, 0, 8)
    }
}

// ---------------------------------------------------------------------
// Laws.
// ---------------------------------------------------------------------

/// A group is of one to four hexadecimal digits, of either case, and is what
/// they write.
pub proof fn lemma_what_a_group_is(s: Seq<char>, c: char)
    ensures
        group(s) <==> 1 <= s.len() <= 4 && forall|i: int|
            0 <= i < s.len() ==> ('0' <= #[trigger] s[i] <= '9' || 'a' <= s[i] <= 'f' || 'A' <= s[i]
                <= 'F'),
        hex_value(seq![]) == 0,
        '0' <= c <= '9' ==> hex_value(s.push(c)) == hex_value(s) * 16 + (c as int - '0' as int),
        'a' <= c <= 'f' ==> hex_value(s.push(c)) == hex_value(s) * 16 + (c as int - 'a' as int
            + 10),
        'A' <= c <= 'F' ==> hex_value(s.push(c)) == hex_value(s) * 16 + (c as int - 'A' as int
            + 10),
{
    assert(s.push(c).drop_last() =~= s);
    if group(s) {
        assert forall|i: int| 0 <= i < s.len() implies ('0' <= #[trigger] s[i] <= '9' || 'a'
            <= s[i] <= 'f' || 'A' <= s[i] <= 'F') by {
            assert(hex_digit(s[i]));
        }
    }
}

/// Two colons are where they first stand together.
pub proof fn lemma_where_the_gap_is(s: Seq<char>, i: int)
    requires
        0 <= i,
        i + 1 < s.len(),
        s[i] == ':',
        s[i + 1] == ':',
        forall|j: int| 0 <= j < i ==> !(#[trigger] s[j] == ':' && s[j + 1] == ':'),
    ensures
        gap(s) == i,
    decreases i,
{
    if i > 0 {
        let r = s.skip(1);
        assert(!(s[0] == ':' && s[0int + 1] == ':'));
        assert forall|j: int| 0 <= j < i - 1 implies !(#[trigger] r[j] == ':' && r[j + 1] == ':') by {
            assert(r[j] == s[j + 1]);
            assert(!(s[j + 1] == ':' && s[j + 1 + 1] == ':'));
        }
        lemma_where_the_gap_is(r, i - 1);
    }
}

/// Two colons stand for as many zeros as are missing, one at the least;
/// what is before and behind them keeps its place.
pub proof fn lemma_what_the_gap_stands_for(s: Seq<char>)
    requires
        gap(s) < s.len(),
    ensures
        ({
            let (a, b) = (s.take(gap(s) as int), s.skip(gap(s) as int + 2));
            match ipv6(s) {
                Some(g) => {
                    let (h, t) = (part(a)->0, part(b)->0);
                    &&& part(a) is Some && part(b) is Some
                    &&& h.len() + t.len() <= 7
                    &&& g.len() == 8
                    &&& g.take(h.len() as int) == h
                    &&& g.skip(8 - t.len() as int) == t
                    &&& forall|i: int| h.len() <= i < 8 - t.len() ==> #[trigger] g[i] == 0
                },
                None => part(a) is None || part(b) is None || a.contains('.') || part(a)->0.len()
                    + part(b)->0.len() > 7,
            }
        }),
{
    let (a, b) = (s.take(gap(s) as int), s.skip(gap(s) as int + 2));
    if let Some(g) = ipv6(s) {
        let (h, t) = (part(a)->0, part(b)->0);
        assert(g.take(h.len() as int) =~= h);
        assert(g.skip(8 - t.len() as int) =~= t);
    }
}

/// Eight groups with colons between them are an address; fewer or more are
/// none.
pub proof fn lemma_eight_groups(s: Seq<char>)
    requires
        s.len() > 0,
        gap(s) >= s.len(),
        forall|i: int|
            0 <= i < crate::text::split(s, ':').len() ==> group(
                #[trigger] crate::text::split(s, ':')[i],
            ),
    ensures
        ({
            let p = crate::text::split(s, ':');
            ipv6(s) == if p.len() == 8 {
                Some(Seq::new(8, |i: int| hex_value(p[i]) as u16))
            } else {
                None
            }
        }),
{
    let p = crate::text::split(s, ':');
    assert(p.len() > 0) by {
        crate::text::lemma_first(s, crate::text::one(':'));
    }
    assert(group(p[p.len() - 1]));
    assert(values(p) =~= Seq::new(p.len(), |i: int| hex_value(p[i]) as u16));
}

} // verus!
