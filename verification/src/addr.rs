//! IPv4 addresses and subnets.

use vstd::prelude::*;
use vstd::string::*;

use crate::text::{around_of, number_of, show, split_of};

verus! {

/// An IPv4 address, its first octet in the highest bits.
#[derive(Clone, Copy, Debug, PartialEq, Eq, Hash, Structural)]
pub struct Ipv4Addr {
    pub bits: u32,
}

/// The address with these octets.
pub open spec fn octets(a: nat, b: nat, c: nat, d: nat) -> Ipv4Addr {
    Ipv4Addr { bits: (a * 0x100_0000 + b * 0x1_0000 + c * 0x100 + d) as u32 }
}

/// An octet: a decimal number up to 255 without needless zeros.
pub open spec fn octet(s: Seq<char>) -> Option<nat> {
    if crate::text::digits(s) && s.len() <= 3 && (s.len() == 1 || s[0] != '0')
        && crate::text::value(s) <= 255 {
        Some(crate::text::value(s))
    } else {
        None
    }
}

/// The address `s` writes: four octets with dots between them.
pub open spec fn address(s: Seq<char>) -> Option<Ipv4Addr> {
    let p = crate::text::split(s, '.');
    if p.len() != 4 {
        None
    } else {
        match (octet(p[0]), octet(p[1]), octet(p[2]), octet(p[3])) {
            (Some(a), Some(b), Some(c), Some(d)) => Some(octets(a, b, c, d)),
            _ => None,
        }
    }
}

fn octet_of(s: &str) -> (r: Option<u32>)
    ensures
        match r {
            Some(n) => octet(s@) == Some(n as nat) && n <= 255,
            None => octet(s@) is None,
        },
{
    let v = crate::text::chars_of(s);
    if v.len() == 0 || v.len() > 3 || v[0] == '+' || (v.len() > 1 && v[0] == '0') {
        proof {
            if v@.len() > 0 && v@[0] == '+' {
                assert(!crate::text::digit(s@[0]));
            }
        }
        return None;
    }
    match number_of(s, 255) {
        Some(n) => Some(n as u32),
        None => None,
    }
}

impl Ipv4Addr {
    pub fn new(a: u8, b: u8, c: u8, d: u8) -> (r: Self)
        ensures
            r == octets(a as nat, b as nat, c as nat, d as nat),
    {
        Ipv4Addr {
            bits: a as u32 * 0x100_0000 + b as u32 * 0x1_0000 + c as u32 * 0x100 + d as u32,
        }
    }

    pub open spec fn octet(self, i: int) -> nat {
        if i == 0 {
            (self.bits / 0x100_0000) as nat
        } else if i == 1 {
            (self.bits / 0x1_0000 % 256) as nat
        } else if i == 2 {
            (self.bits / 0x100 % 256) as nat
        } else {
            (self.bits % 256) as nat
        }
    }

    /// `octets`: the first to the last.
    pub fn octets(self) -> (r: [u8; 4])
        ensures
            forall|i: int| 0 <= i < 4 ==> #[trigger] r@[i] == self.octet(i),
    {
        [
            (self.bits / 0x100_0000) as u8,
            (self.bits / 0x1_0000 % 256) as u8,
            (self.bits / 0x100 % 256) as u8,
            (self.bits % 256) as u8,
        ]
    }

    /// The address as it is written.
    pub open spec fn shown(self) -> Seq<char> {
        crate::text::decimal(self.octet(0)) + "."@ + crate::text::decimal(self.octet(1)) + "."@
            + crate::text::decimal(self.octet(2)) + "."@ + crate::text::decimal(self.octet(3))
    }

    pub fn to_string(&self) -> (r: String)
        ensures
            r@ == self.shown(),
    {
        let o = self.octets();
        let mut s = show(o[0] as u128);
        s.append(".");
        s.append(show(o[1] as u128).as_str());
        s.append(".");
        s.append(show(o[2] as u128).as_str());
        s.append(".");
        s.append(show(o[3] as u128).as_str());
        s
    }

    /// The address a text writes, if it writes one.
    pub fn parse(s: &str) -> (r: Option<Self>)
        ensures
            r == address(s@),
    {
        let p = split_of(s, '.');
        if p.len() != 4 {
            return None;
        }
        proof {
            let q = crate::text::split(s@, '.');
            assert(q[0] == p@[0]@ && q[1] == p@[1]@ && q[2] == p@[2]@ && q[3] == p@[3]@);
        }
        let a = octet_of(p[0].as_str());
        let b = octet_of(p[1].as_str());
        let c = octet_of(p[2].as_str());
        let d = octet_of(p[3].as_str());
        match (a, b, c, d) {
            (Some(a), Some(b), Some(c), Some(d)) => Some(
                Ipv4Addr { bits: a * 0x100_0000 + b * 0x1_0000 + c * 0x100 + d },
            ),
            _ => None,
        }
    }
}

proof fn lemma_octet_decimal(n: nat)
    requires
        n <= 255,
    ensures
        octet(crate::text::decimal(n)) == Some(n),
        !crate::text::decimal(n).contains('.'),
{
    crate::text::lemma_decimal(n);
    reveal_with_fuel(crate::text::decimal, 4);
    let s = crate::text::decimal(n);
    assert(s.len() <= 3);
    assert forall|i: int| 0 <= i < s.len() implies s[i] != '.' by {
        assert(crate::text::digit(s[i]));
    }
}

proof fn lemma_octets(a: Ipv4Addr)
    ensures
        octets(a.octet(0), a.octet(1), a.octet(2), a.octet(3)) == a,
        forall|i: int| a.octet(i) <= 255,
{
}

proof fn lemma_split_shown(p: Seq<char>, q: Seq<char>, r: Seq<char>, s: Seq<char>)
    requires
        !p.contains('.'),
        !q.contains('.'),
        !r.contains('.'),
        !s.contains('.'),
    ensures
        crate::text::split(p + "."@ + q + "."@ + r + "."@ + s, '.') == seq![p, q, r, s],
{
    reveal_strlit(".");
    let dot = seq!['.'];
    assert("."@ =~= dot);
    let t2 = r + dot + s;
    let t1 = q + dot + t2;
    let t0 = p + dot + t1;
    assert(p + "."@ + q + "."@ + r + "."@ + s =~= t0);
    crate::text::lemma_split_one(s, '.');
    crate::text::lemma_split_cons(r, '.', s);
    crate::text::lemma_split_cons(q, '.', t2);
    crate::text::lemma_split_cons(p, '.', t1);
    assert(seq![p] + (seq![q] + (seq![r] + seq![s])) =~= seq![p, q, r, s]);
}

/// An address shown is the address read.
pub proof fn lemma_address_shown(a: Ipv4Addr)
    ensures
        address(a.shown()) == Some(a),
{
    lemma_octets(a);
    let (p, q, r, s) = (
        crate::text::decimal(a.octet(0)),
        crate::text::decimal(a.octet(1)),
        crate::text::decimal(a.octet(2)),
        crate::text::decimal(a.octet(3)),
    );
    lemma_octet_decimal(a.octet(0));
    lemma_octet_decimal(a.octet(1));
    lemma_octet_decimal(a.octet(2));
    lemma_octet_decimal(a.octet(3));
    lemma_split_shown(p, q, r, s);
    let all = crate::text::split(a.shown(), '.');
    assert(all[0] == p && all[1] == q && all[2] == r && all[3] == s);
}

// ---------------------------------------------------------------------
// Subnets.
// ---------------------------------------------------------------------

#[derive(Clone, Copy, Debug, PartialEq, Eq, Hash, Structural)]
pub struct Subnet {
    pub addr: Ipv4Addr,
    pub prefix: u8,
}

/// The mask with the first `prefix` bits set.
pub open spec fn mask_bits(prefix: u8) -> u32 {
    if prefix == 0 {
        0u32
    } else {
        0xffff_ffffu32 << ((32 - prefix) as u32)
    }
}

pub fn mask(prefix: u8) -> (r: u32)
    requires
        prefix <= 32,
    ensures
        r == mask_bits(prefix),
{
    if prefix == 0 {
        0
    } else {
        let by: u32 = 32 - prefix as u32;
        0xffff_ffffu32 << by
    }
}

/// The subnet `s` writes, its address cut to the prefix: an address alone,
/// or one with the length of its prefix after a slash.
pub open spec fn subnet(s: Seq<char>) -> Option<Subnet> {
    let (a, prefix) = match crate::text::around(s, '/') {
        Some((a, p)) => (a, crate::text::number(p, 255)),
        None => (s, Some(32nat)),
    };
    match (address(a), prefix) {
        (Some(addr), Some(n)) => if n <= 32 {
            Some(
                Subnet {
                    addr: Ipv4Addr { bits: addr.bits & mask_bits(n as u8) },
                    prefix: n as u8,
                },
            )
        } else {
            None
        },
        _ => None,
    }
}

impl Subnet {
    pub open spec fn wf(self) -> bool {
        self.prefix <= 32
    }

    /// No bit of the address is past the prefix.
    pub open spec fn canonical(self) -> bool {
        self.wf() && self.addr.bits & mask_bits(self.prefix) == self.addr.bits
    }

    pub open spec fn has(self, ip: Ipv4Addr) -> bool {
        ip.bits & mask_bits(self.prefix) == self.addr.bits
    }

    pub open spec fn meets(self, other: Subnet) -> bool {
        self.has(other.addr) || other.has(self.addr)
    }

    pub open spec fn of_host(addr: Ipv4Addr) -> Subnet {
        Subnet { addr, prefix: 32 }
    }

    pub open spec fn shown(self) -> Seq<char> {
        self.addr.shown() + "/"@ + crate::text::decimal(self.prefix as nat)
    }

    pub fn host(addr: Ipv4Addr) -> (r: Self)
        ensures
            r == Self::of_host(addr),
            r.canonical(),
            forall|ip: Ipv4Addr| r.has(ip) <==> ip == addr,
    {
        proof {
            lemma_host(addr);
        }
        Subnet { addr, prefix: 32 }
    }

    pub fn netmask(self) -> (r: Ipv4Addr)
        requires
            self.wf(),
        ensures
            r.bits == mask_bits(self.prefix),
    {
        Ipv4Addr { bits: mask(self.prefix) }
    }

    pub fn contains(self, ip: Ipv4Addr) -> (r: bool)
        requires
            self.wf(),
        ensures
            r == self.has(ip),
    {
        let m = mask(self.prefix);
        ip.bits & m == self.addr.bits
    }

    pub fn overlaps(self, other: Subnet) -> (r: bool)
        requires
            self.wf(),
            other.wf(),
        ensures
            r == self.meets(other),
    {
        self.contains(other.addr) || other.contains(self.addr)
    }

    pub fn parse(text: &str) -> (r: Option<Self>)
        ensures
            r == subnet(text@),
            r matches Some(s) ==> s.canonical(),
    {
        let (a, prefix) = match around_of(text, '/') {
            Some((a, p)) => (a, number_of(p.as_str(), 255)),
            None => (text.to_owned(), Some(32)),
        };
        let n: u64 = match prefix {
            Some(n) => n,
            None => {
                return None;
            },
        };
        let addr = Ipv4Addr::parse(a.as_str());
        if n > 32 {
            return None;
        }
        match addr {
            Some(addr) => {
                let m = mask(n as u8);
                proof {
                    let bits = addr.bits;
                    assert((bits & m) & m == bits & m) by (bit_vector);
                }
                Some(Subnet { addr: Ipv4Addr { bits: addr.bits & m }, prefix: n as u8 })
            },
            None => None,
        }
    }

    pub fn to_string(&self) -> (r: String)
        ensures
            r@ == self.shown(),
    {
        let mut s = self.addr.to_string();
        s.append("/");
        s.append(show(self.prefix as u128).as_str());
        s
    }
}

pub proof fn lemma_host(addr: Ipv4Addr)
    ensures
        Subnet::of_host(addr).canonical(),
        forall|ip: Ipv4Addr| Subnet::of_host(addr).has(ip) <==> ip == addr,
{
    assert(0xffff_ffffu32 << 0u32 == 0xffff_ffffu32) by (bit_vector);
    assert(forall|x: u32| x & 0xffff_ffffu32 == x) by (bit_vector);
    assert(mask_bits(32) == 0xffff_ffffu32);
}

/// Two subnets overlap exactly when some address is in both.
pub proof fn lemma_overlap(a: Subnet, b: Subnet)
    requires
        a.canonical(),
        b.canonical(),
    ensures
        a.meets(b) <==> exists|ip: Ipv4Addr| a.has(ip) && b.has(ip),
        a.meets(b) == b.meets(a),
{
    if a.has(b.addr) {
        assert(b.has(b.addr));
    }
    if b.has(a.addr) {
        assert(a.has(a.addr));
    }
    if exists|ip: Ipv4Addr| a.has(ip) && b.has(ip) {
        let ip = choose|ip: Ipv4Addr| a.has(ip) && b.has(ip);
        let (x, m, n, p, q) = (ip.bits, mask_bits(a.prefix), mask_bits(b.prefix), a.prefix, b.prefix);
        if p <= q {
            lemma_masks_nest(p, q);
            assert((x & n) & m == x & m) by (bit_vector)
                requires
                    n & m == m,
            ;
        } else {
            lemma_masks_nest(q, p);
            assert((x & m) & n == x & n) by (bit_vector)
                requires
                    m & n == n,
            ;
        }
    }
}

proof fn lemma_masks_nest(p: u8, q: u8)
    requires
        p <= q <= 32,
    ensures
        mask_bits(q) & mask_bits(p) == mask_bits(p),
{
    let m = mask_bits(q);
    if p == 0 {
        assert(m & 0u32 == 0u32) by (bit_vector);
    } else {
        let (i, j) = ((32 - p) as u32, (32 - q) as u32);
        assert((0xffff_ffffu32 << j) & (0xffff_ffffu32 << i) == 0xffff_ffffu32 << i) by (bit_vector)
            requires
                j <= i,
                i < 32,
        ;
    }
}

/// A subnet holds the addresses that begin as its own does, and no others.
pub proof fn lemma_subnet_is_a_prefix(s: Subnet, ip: Ipv4Addr)
    requires
        s.canonical(),
    ensures
        s.prefix == 0 ==> s.has(ip),
        s.prefix > 0 ==> (s.has(ip) <==> ip.bits >> ((32 - s.prefix) as u32) == s.addr.bits >> ((32
            - s.prefix) as u32)),
{
    let (x, a) = (ip.bits, s.addr.bits);
    if s.prefix == 0 {
        assert(x & 0u32 == 0u32) by (bit_vector);
        assert(a & 0u32 == 0u32) by (bit_vector);
    } else {
        let i = (32 - s.prefix) as u32;
        assert((x & (0xffff_ffffu32 << i) == a) <==> (x >> i == a >> i)) by (bit_vector)
            requires
                i < 32,
                a & (0xffff_ffffu32 << i) == a,
        ;
    }
}

/// A subnet shown is the subnet read.
pub proof fn lemma_subnet_shown(s: Subnet)
    requires
        s.canonical(),
    ensures
        subnet(s.shown()) == Some(s),
{
    reveal_strlit("/");
    reveal_strlit(".");
    let (a, p) = (s.addr.shown(), crate::text::decimal(s.prefix as nat));
    lemma_address_shown(s.addr);
    crate::text::lemma_decimal(s.addr.octet(0));
    crate::text::lemma_decimal(s.addr.octet(1));
    crate::text::lemma_decimal(s.addr.octet(2));
    crate::text::lemma_decimal(s.addr.octet(3));
    crate::text::lemma_number_decimal(s.prefix as nat, 255);
    let slash = crate::text::one('/');
    assert forall|i: int| 0 <= i < a.len() implies !slash(#[trigger] s.shown()[i]) by {
        assert(s.shown()[i] == a[i]);
        assert(crate::text::digit(a[i]) || a[i] == '.');
    }
    assert(s.shown()[a.len() as int] == '/');
    crate::text::lemma_first_is(s.shown(), slash, a.len());
    assert(s.shown().take(a.len() as int) =~= a);
    assert(s.shown().skip(a.len() as int + 1) =~= p);
}

/// An address alone is a subnet of one address, and with a slash and a
/// number up to 32 behind it as many bits of it are kept; with a greater
/// one, or without an address, there is no subnet.
pub proof fn lemma_what_a_subnet_is(a: Seq<char>, p: Seq<char>)
    requires
        !a.contains('/'),
    ensures
        subnet(a) == match address(a) {
            Some(x) => Some(Subnet { addr: x, prefix: 32 }),
            None => None,
        },
        subnet(a + seq!['/'] + p) is Some <==> address(a) is Some && crate::text::number(p, 32)
            is Some,
        subnet(a + seq!['/'] + p) matches Some(s) ==> Some(s.prefix as nat) == crate::text::number(
            p,
            32,
        ) && s.has(address(a)->0) && s.canonical(),
{
    crate::text::lemma_parted(a, '/', p);
    assert(0xffff_ffffu32 << 0u32 == 0xffff_ffffu32) by (bit_vector);
    assert(forall|x: u32| x & 0xffff_ffffu32 == x) by (bit_vector);
    assert(mask_bits(32) == 0xffff_ffffu32);
    if let Some(s) = subnet(a + seq!['/'] + p) {
        let (x, m) = (address(a)->0.bits, mask_bits(s.prefix));
        assert((x & m) & m == x & m) by (bit_vector);
    }
}

/// The first octet is the highest.
pub proof fn lemma_octets_in_order(a: Ipv4Addr)
    ensures
        a.octet(0) < 256,
        a.octet(1) < 256,
        a.octet(2) < 256,
        a.octet(3) < 256,
        a.bits == a.octet(0) * 0x100_0000 + a.octet(1) * 0x1_0000 + a.octet(2) * 0x100 + a.octet(3),
{
    lemma_octets(a);
}

/// An octet is a number up to 255 of digits alone, without a zero before
/// others.
pub proof fn lemma_what_an_octet_is(s: Seq<char>)
    ensures
        octet(s) is Some <==> {
            &&& 1 <= s.len() <= 3
            &&& forall|i: int| 0 <= i < s.len() ==> '0' <= #[trigger] s[i] <= '9'
            &&& s.len() > 1 ==> s[0] != '0'
            &&& crate::text::value(s) <= 255
        },
        octet(s) matches Some(n) ==> n == crate::text::value(s),
{
    if octet(s) is Some {
        assert forall|i: int| 0 <= i < s.len() implies '0' <= #[trigger] s[i] <= '9' by {
            assert(crate::text::digit(s[i]));
        }
    }
}

/// An address is four octets with dots between them, the first the highest,
/// and nothing else.
pub proof fn lemma_what_an_address_is(
    p: Seq<char>,
    q: Seq<char>,
    r: Seq<char>,
    s: Seq<char>,
    other: Seq<char>,
)
    requires
        !p.contains('.'),
        !q.contains('.'),
        !r.contains('.'),
        !s.contains('.'),
    ensures
        address(p + seq!['.'] + (q + seq!['.'] + (r + seq!['.'] + s))) == if octet(p) is Some
            && octet(q) is Some && octet(r) is Some && octet(s) is Some {
            Some(
                Ipv4Addr {
                    bits: (octet(p)->0 * 0x100_0000 + octet(q)->0 * 0x1_0000 + octet(r)->0 * 0x100
                        + octet(s)->0) as u32,
                },
            )
        } else {
            None
        },
        address(other) is Some ==> crate::text::split(other, '.').len() == 4,
{
    let c = r + seq!['.'] + s;
    let b = q + seq!['.'] + c;
    crate::text::lemma_split_one(s, '.');
    crate::text::lemma_split_cons(r, '.', s);
    crate::text::lemma_split_cons(q, '.', c);
    crate::text::lemma_split_cons(p, '.', b);
    let all = crate::text::split(p + seq!['.'] + b, '.');
    assert(all =~= seq![p, q, r, s]);
}

} // verus!
