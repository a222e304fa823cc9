//! Liveness probes: ICMP echo from a socket bound to an interface, TLS by
//! curl through an interface, and the byte counters of an interface.

use vstd::prelude::*;
use vstd::string::*;

use crate::addr::Ipv4Addr;
use crate::text::{lines_of, number_of, same, show, starts_of, words_of};

verus! {

/// Addresses answered from anycast close to any exit; no DNS needed.
pub fn targets() -> (r: Vec<Ipv4Addr>)
    ensures
        r@ == target_list(),
{
    let mut r: Vec<Ipv4Addr> = Vec::new();
    r.push(Ipv4Addr::new(1, 1, 1, 1));
    r.push(Ipv4Addr::new(8, 8, 8, 8));
    r.push(Ipv4Addr::new(9, 9, 9, 9));
    proof {
        assert(r@ =~= target_list());
    }
    r
}

pub open spec fn target_list() -> Seq<Ipv4Addr> {
    seq![
        crate::addr::octets(1, 1, 1, 1),
        crate::addr::octets(8, 8, 8, 8),
        crate::addr::octets(9, 9, 9, 9),
    ]
}

// ---------------------------------------------------------------------
// Counters.
// ---------------------------------------------------------------------

/// The arguments of a request for a page over TLS through `iface`, given up
/// after this many seconds.
pub open spec fn tls_list(iface: Seq<char>, secs: u32) -> Seq<Seq<char>> {
    seq![
        "-s"@,
        "-o"@,
        "/dev/null"@,
        "-m"@,
        crate::text::decimal(secs as nat) + ".0"@,
        "--interface"@,
        iface,
        "https://1.1.1.1/cdn-cgi/trace"@,
    ]
}

pub fn tls_args(iface: &str, secs: u32) -> (r: Vec<String>)
    ensures
        crate::text::seen(r@) == tls_list(iface@, secs),
{
    let mut limit = show(secs as u128);
    limit.append(".0");
    let mut v: Vec<String> = Vec::new();
    v.push("-s".to_owned());
    v.push("-o".to_owned());
    v.push("/dev/null".to_owned());
    v.push("-m".to_owned());
    v.push(limit);
    v.push("--interface".to_owned());
    v.push(iface.to_owned());
    v.push("https://1.1.1.1/cdn-cgi/trace".to_owned());
    proof {
        assert(crate::text::seen(v@) =~= tls_list(iface@, secs));
    }
    v
}

/// Packets and bytes an interface received and sent, as netstat counts them.
#[derive(Debug, Clone, Copy, PartialEq, Eq, Structural)]
pub struct Counters {
    pub rx_packets: u64,
    pub rx_bytes: u64,
    pub tx_packets: u64,
    pub tx_bytes: u64,
}

/// The number that stands `k` fields from the end.
pub open spec fn from_end(f: Seq<Seq<char>>, k: int) -> Option<u64> {
    if k <= f.len() {
        match crate::text::number(f[f.len() - k], u64::MAX as nat) {
            Some(n) => Some(n as u64),
            None => None,
        }
    } else {
        None
    }
}

/// The counters of a link row: the interface and `<Link#N>`, then the
/// counters; utun has no link address, so fields are counted from the end.
pub open spec fn link_row(line: Seq<char>, iface: Seq<char>) -> Option<Counters> {
    let f = crate::text::words(line);
    if f.len() < 3 || f[0] != iface || !crate::text::starts(f[2], "<Link#"@) {
        None
    } else {
        match (from_end(f, 7), from_end(f, 5), from_end(f, 4), from_end(f, 2)) {
            (Some(rx_packets), Some(rx_bytes), Some(tx_packets), Some(tx_bytes)) => Some(
                Counters { rx_packets, rx_bytes, tx_packets, tx_bytes },
            ),
            _ => None,
        }
    }
}

/// The first row that is one.
pub open spec fn link_rows(lines: Seq<Seq<char>>, iface: Seq<char>) -> Option<Counters>
    decreases lines.len(),
{
    if lines.len() == 0 {
        None
    } else if link_row(lines[0], iface) is Some {
        link_row(lines[0], iface)
    } else {
        link_rows(lines.skip(1), iface)
    }
}

fn back(f: &Vec<String>, k: usize) -> (r: Option<u64>)
    requires
        k > 0,
    ensures
        r == from_end(crate::text::seen(f@), k as int),
{
    if k > f.len() {
        return None;
    }
    let i: usize = f.len() - k;
    proof {
        assert(crate::text::seen(f@)[i as int] == f@[i as int]@);
    }
    number_of(f[i].as_str(), u64::MAX)
}

fn parse_row(line: &str, iface: &str) -> (r: Option<Counters>)
    ensures
        r == link_row(line@, iface@),
{
    let f = words_of(line);
    proof {
        if f@.len() >= 3 {
            assert(crate::text::seen(f@)[0] == f@[0]@);
            assert(crate::text::seen(f@)[2] == f@[2]@);
        }
    }
    if f.len() < 3 || !same(f[0].as_str(), iface) || !starts_of(f[2].as_str(), "<Link#") {
        return None;
    }
    match (back(&f, 7), back(&f, 5), back(&f, 4), back(&f, 2)) {
        (Some(rx_packets), Some(rx_bytes), Some(tx_packets), Some(tx_bytes)) => Some(
            Counters { rx_packets, rx_bytes, tx_packets, tx_bytes },
        ),
        _ => None,
    }
}

/// The counters of an interface in what `netstat -I <if> -b -n` prints.
pub fn parse_counters(out: &str, iface: &str) -> (r: Option<Counters>)
    ensures
        r == link_rows(crate::text::lines(out@), iface@),
{
    let lines = lines_of(out);
    let ghost all = crate::text::seen(lines@);
    let mut i: usize = 0;
    proof {
        assert(all.skip(0) =~= all);
    }
    while i < lines.len()
        invariant
            i <= lines@.len(),
            all == crate::text::seen(lines@),
            all == crate::text::lines(out@),
            link_rows(all.skip(i as int), iface@) == link_rows(all, iface@),
        decreases lines@.len() - i,
    {
        proof {
            assert(all.skip(i as int)[0] == lines@[i as int]@);
            assert(all.skip(i as int).skip(1) =~= all.skip(i + 1));
        }
        if let Some(c) = parse_row(lines[i].as_str(), iface) {
            return Some(c);
        }
        i += 1;
    }
    None
}

// ---------------------------------------------------------------------
// Echo.
// ---------------------------------------------------------------------

/// The sum of the 16-bit words, the first byte of each the high one; a last
/// byte alone is the high byte of a word.
pub open spec fn word_sum(data: Seq<u8>) -> nat
    decreases data.len(),
{
    if data.len() == 0 {
        0
    } else if data.len() == 1 {
        data[0] as nat * 256
    } else {
        data[0] as nat * 256 + data[1] as nat + word_sum(data.skip(2))
    }
}

/// The sum with what does not fit into 16 bits added back in.
pub open spec fn folded(sum: nat) -> nat
    decreases sum,
{
    if sum > 0xffff {
        folded(sum % 0x1_0000 + sum / 0x1_0000)
    } else {
        sum
    }
}

/// The checksum of the Internet protocols.
pub open spec fn checked(data: Seq<u8>) -> u16 {
    (0xffff - folded(word_sum(data))) as u16
}

proof fn lemma_word_sum_bound(data: Seq<u8>)
    ensures
        word_sum(data) <= data.len() * 0xffff,
    decreases data.len(),
{
    if data.len() >= 2 {
        lemma_word_sum_bound(data.skip(2));
    }
}

proof fn lemma_word_sum_step(data: Seq<u8>, i: int)
    requires
        0 <= i < data.len(),
    ensures
        word_sum(data.skip(i)) == data[i] as nat * 256 + (if i + 1 < data.len() {
            data[i + 1] as nat + word_sum(data.skip(i + 2))
        } else {
            0
        }),
{
    let d = data.skip(i);
    assert(d[0] == data[i]);
    if i + 1 < data.len() {
        assert(d[1] == data[i + 1]);
        assert(d.skip(2) =~= data.skip(i + 2));
    }
}

pub proof fn lemma_folded(sum: nat)
    ensures
        folded(sum) <= 0xffff,
        sum > 0 ==> folded(sum) > 0,
        (sum - folded(sum)) % 0xffff == 0,
    decreases sum,
{
    if sum > 0xffff {
        let next = sum % 0x1_0000 + sum / 0x1_0000;
        lemma_folded(next);
        let f = folded(sum);
        assert(sum - next == (sum / 0x1_0000) * 0xffff);
        assert((sum - f) % 0xffff == 0) by (nonlinear_arith)
            requires
                (next - f) % 0xffff == 0,
                sum - next == (sum / 0x1_0000) * 0xffff,
        ;
    }
}

/// `checked`, computed, of data whose words add up within 32 bits.
pub fn checksum(data: &[u8]) -> (r: u16)
    requires
        word_sum(data@) <= u32::MAX,
    ensures
        r == checked(data@),
{
    let mut sum: u32 = 0;
    let mut i: usize = 0;
    let n = data.len();
    proof {
        assert(data@.skip(0) =~= data@);
    }
    while i < n
        invariant
            i <= n,
            n == data@.len(),
            sum + word_sum(data@.skip(i as int)) == word_sum(data@),
            word_sum(data@) <= u32::MAX,
        decreases n - i,
    {
        proof {
            lemma_word_sum_step(data@, i as int);
        }
        let high: u32 = data[i] as u32 * 256;
        if n - i > 1 {
            sum = sum + high + data[i + 1] as u32;
            i += 2;
        } else {
            sum = sum + high;
            i += 1;
            proof {
                assert(data@.skip(i as int) =~= seq![]);
            }
        }
    }
    let ghost total = word_sum(data@);
    proof {
        assert(data@.skip(i as int) =~= seq![]);
        assert(sum == total);
    }
    while sum > 0xffff
        invariant
            folded(sum as nat) == folded(total),
        decreases sum,
    {
        sum = sum % 0x1_0000 + sum / 0x1_0000;
    }
    (0xffff - sum) as u16
}

/// An echo request without its checksum, or with it.
pub open spec fn echo_packet(id: u16, seq: u16, sum: u16) -> Seq<u8> {
    seq![
        8u8,
        0u8,
        (sum / 256) as u8,
        (sum % 256) as u8,
        (id / 256) as u8,
        (id % 256) as u8,
        (seq / 256) as u8,
        (seq % 256) as u8,
        109u8,
        97u8,
        99u8,
        45u8,
        103u8,
        97u8,
        116u8,
        101u8,
    ]
}

fn packet(id: u16, seq: u16, sum: u16) -> (r: Vec<u8>)
    ensures
        r@ == echo_packet(id, seq, sum),
{
    let mut p: Vec<u8> = Vec::new();
    p.push(8);
    p.push(0);
    p.push((sum / 256) as u8);
    p.push((sum % 256) as u8);
    p.push((id / 256) as u8);
    p.push((id % 256) as u8);
    p.push((seq / 256) as u8);
    p.push((seq % 256) as u8);
    p.push(109);
    p.push(97);
    p.push(99);
    p.push(45);
    p.push(103);
    p.push(97);
    p.push(116);
    p.push(101);
    proof {
        assert(p@ =~= echo_packet(id, seq, sum));
    }
    p
}

/// An echo request with this id and sequence, its checksum in it.
pub fn echo(id: u16, seq: u16) -> (r: Vec<u8>)
    ensures
        r@ == echo_packet(id, seq, checked(echo_packet(id, seq, 0))),
{
    let bare = packet(id, seq, 0);
    proof {
        lemma_word_sum_bound(bare@);
    }
    let sum = checksum(bare.as_slice());
    packet(id, seq, sum)
}

/// Where the ICMP message begins: behind the IP header when there is one.
pub open spec fn echo_start(buf: Seq<u8>) -> int {
    if buf.len() > 0 && buf[0] / 16 == 4 {
        (buf[0] % 16) * 4
    } else {
        0
    }
}

/// An echo reply with this id and sequence.
pub open spec fn replies(buf: Seq<u8>, id: u16, seq: u16) -> bool {
    let at = echo_start(buf);
    &&& at + 8 <= buf.len()
    &&& buf[at] == 0
    &&& buf[at + 4] as int * 256 + buf[at + 5] as int == id
    &&& buf[at + 6] as int * 256 + buf[at + 7] as int == seq
}

/// An echo reply with our id and sequence; macOS hands datagram ICMP
/// sockets the IP header too, so it is skipped when present.
pub fn is_reply(buf: &[u8], id: u16, seq: u16) -> (r: bool)
    ensures
        r == replies(buf@, id, seq),
{
    let n = buf.len();
    let mut at: usize = 0;
    if n > 0 && buf[0] / 16 == 4 {
        at = (buf[0] % 16) as usize * 4;
    }
    if n < at + 8 {
        return false;
    }
    buf[at] == 0 && buf[at + 4] as u32 * 256 + buf[at + 5] as u32 == id as u32 && buf[at + 6] as u32
        * 256 + buf[at + 7] as u32 == seq as u32
}

/// The id and the sequence of a probe: the low halves of the process id and
/// of the nanoseconds.
pub fn ids(pid: u32, nanos: u32) -> (r: (u16, u16))
    ensures
        r.0 == pid % 0x1_0000,
        r.1 == nanos % 0x1_0000,
{
    ((pid % 0x1_0000) as u16, (nanos % 0x1_0000) as u16)
}

proof fn lemma_echo_sum(id: u16, seq: u16, sum: u16)
    ensures
        word_sum(echo_packet(id, seq, sum)) == 0x800 + sum + id + seq + word_sum(
            echo_packet(0, 0, 0).skip(8),
        ),
{
    let p = echo_packet(id, seq, sum);
    assert(p.skip(0) =~= p);
    lemma_word_sum_step(p, 0);
    lemma_word_sum_step(p, 2);
    lemma_word_sum_step(p, 4);
    lemma_word_sum_step(p, 6);
    assert(p.skip(8) =~= echo_packet(0, 0, 0).skip(8));
}

/// The checksum of a request with its checksum in it is zero, which is how
/// a host tells that it came whole.
pub proof fn lemma_echo_checks(id: u16, seq: u16)
    ensures
        checked(echo_packet(id, seq, checked(echo_packet(id, seq, 0)))) == 0,
{
    let bare = word_sum(echo_packet(id, seq, 0));
    lemma_echo_sum(id, seq, 0);
    lemma_folded(bare);
    let f = folded(bare);
    let sum = checked(echo_packet(id, seq, 0));
    assert(sum == 0xffff - f);
    lemma_echo_sum(id, seq, sum);
    let whole = word_sum(echo_packet(id, seq, sum));
    assert(whole == bare + (0xffff - f));
    lemma_folded(whole);
    let g = folded(whole);
    assert(g % 0xffff == 0) by (nonlinear_arith)
        requires
            (bare - f) % 0xffff == 0,
            (whole - g) % 0xffff == 0,
            whole == bare + (0xffff - f),
    ;
}

/// A request is no reply to itself; with the type of a reply it is, with or
/// without an IP header before it.
pub proof fn lemma_echo_is_answered(id: u16, seq: u16, sum: u16, head: Seq<u8>)
    requires
        head.len() == 0 || (head[0] / 16 == 4 && head.len() == (head[0] % 16) * 4),
    ensures
        !replies(head + echo_packet(id, seq, sum), id, seq),
        replies(head + echo_packet(id, seq, sum).update(0, 0u8), id, seq),
{
    let p = echo_packet(id, seq, sum);
    let q = p.update(0, 0u8);
    let at = head.len() as int;
    assert((head + p)[at] == 8);
    if head.len() > 0 {
        assert((head + p)[0] == head[0]);
        assert((head + q)[0] == head[0]);
    }
    assert((head + q)[at] == q[0]);
    assert((head + q)[at + 4] == q[4]);
    assert((head + q)[at + 5] == q[5]);
    assert((head + q)[at + 6] == q[6]);
    assert((head + q)[at + 7] == q[7]);
}

// ---------------------------------------------------------------------
// Laws.
// ---------------------------------------------------------------------

/// The counters of an interface are in the row of its link, counted from
/// the end: the packets received stand seventh and the bytes fifth, the
/// packets sent fourth and the bytes second. Any other row has none.
pub proof fn lemma_where_the_counters_are(line: Seq<char>, iface: Seq<char>)
    ensures
        ({
            let f = crate::text::words(line);
            let n = f.len() as int;
            let at = |k: int| crate::text::number(f[n - k], u64::MAX as nat);
            link_row(line, iface) == if n >= 7 && f[0] == iface && crate::text::starts(
                f[2],
                "<Link#"@,
            ) && at(7) is Some && at(5) is Some && at(4) is Some && at(2) is Some {
                Some(
                    Counters {
                        rx_packets: at(7)->0 as u64,
                        rx_bytes: at(5)->0 as u64,
                        tx_packets: at(4)->0 as u64,
                        tx_bytes: at(2)->0 as u64,
                    },
                )
            } else {
                None
            }
        }),
{
}

/// Of the rows the first that has counters counts.
pub proof fn lemma_the_first_row(lines: Seq<Seq<char>>, iface: Seq<char>, i: int)
    requires
        0 <= i <= lines.len(),
        forall|j: int| 0 <= j < i ==> link_row(#[trigger] lines[j], iface) is None,
        i < lines.len() ==> link_row(lines[i], iface) is Some,
    ensures
        link_rows(lines, iface) == if i < lines.len() {
            link_row(lines[i], iface)
        } else {
            None
        },
    decreases i,
{
    if i > 0 {
        let r = lines.skip(1);
        assert(link_row(lines[0], iface) is None);
        assert forall|j: int| 0 <= j < i - 1 implies link_row(#[trigger] r[j], iface) is None by {
            assert(r[j] == lines[j + 1]);
        }
        lemma_the_first_row(r, iface, i - 1);
    }
}

/// A page is asked for through the interface, thrown away, and given up
/// after the seconds given.
pub proof fn lemma_how_tls_is_tried(iface: Seq<char>, secs: u32)
    ensures
        tls_list(iface, secs) == seq![
            "-s"@,
            "-o"@,
            "/dev/null"@,
            "-m"@,
            crate::text::decimal(secs as nat) + ".0"@,
            "--interface"@,
            iface,
            "https://1.1.1.1/cdn-cgi/trace"@,
        ],
{
}

/// A reply is told by its type and by the two numbers of the request, and
/// by all of them; the header before it may be of any length.
pub proof fn lemma_what_a_reply_is(buf: Seq<u8>, id: u16, seq: u16)
    ensures
        ({
            let at = if buf.len() > 0 && buf[0] >= 64 && buf[0] < 80 {
                (buf[0] - 64) * 4
            } else {
                0
            };
            replies(buf, id, seq) <==> {
                &&& buf.len() >= at + 8
                &&& buf[at] == 0
                &&& buf[at + 4] * 256 + buf[at + 5] == id
                &&& buf[at + 6] * 256 + buf[at + 7] == seq
            }
        }),
{
}

/// The words add up two bytes at a time, the first of each pair the higher.
pub proof fn lemma_the_words_add_up(a: u8, b: u8, rest: Seq<u8>)
    ensures
        word_sum(seq![]) == 0,
        word_sum(seq![a]) == a * 256,
        word_sum(seq![a, b] + rest) == a * 256 + b + word_sum(rest),
{
    assert((seq![a, b] + rest).skip(2) =~= rest);
}

} // verus!
