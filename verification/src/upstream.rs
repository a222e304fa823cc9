//! One DNS exchange with an upstream server: UDP, then TCP when the answer is
//! truncated. A server may be bound to an interface: that is how queries go
//! through the tunnel, which has only a scoped default route.

use vstd::prelude::*;
use vstd::string::*;

use crate::addr::Ipv4Addr;
use crate::text::show;

verus! {

/// A DNS server, and the index of the interface its sockets are bound to.
#[derive(Clone, Copy, Debug, PartialEq, Eq, Structural)]
pub struct Upstream {
    pub server: Ipv4Addr,
    pub port: u16,
    pub bound_if: Option<u32>,
}

pub const DNS_PORT: u16 = 53;

/// The bit that says that the answer was cut.
pub open spec fn cut_short(msg: Seq<u8>) -> bool {
    msg.len() > 2 && msg[2] & 0x02 != 0
}

pub fn truncated(msg: &[u8]) -> (r: bool)
    ensures
        r == cut_short(msg@),
{
    msg.len() > 2 && msg[2] & 0x02 != 0
}

/// What an exchange does once the answer over UDP is there.
#[derive(Debug)]
pub enum Exchange {
    /// The answer as it came.
    Answer(Vec<u8>),
    /// The same query over TCP.
    Again,
}

/// A whole answer is the answer; a cut one is asked for again over TCP.
pub fn after_udp(answer: Vec<u8>) -> (r: Exchange)
    ensures
        match r {
            Exchange::Answer(a) => !cut_short(answer@) && a@ == answer@,
            Exchange::Again => cut_short(answer@),
        },
{
    if truncated(answer.as_slice()) {
        Exchange::Again
    } else {
        Exchange::Answer(answer)
    }
}

/// Whether a datagram answers the query: a fresh socket for each query,
/// connected to the server, so only the id is left to check.
pub fn answers(datagram: &[u8], query: &[u8]) -> (r: bool)
    ensures
        r == (datagram@.len() >= 12 && query@.len() >= 2 && datagram@[0] == query@[0]
            && datagram@[1] == query@[1]),
{
    datagram.len() >= 12 && query.len() >= 2 && datagram[0] == query[0] && datagram[1] == query[1]
}

/// A query as TCP carries it: its length, then itself.
pub open spec fn framed(query: Seq<u8>) -> Seq<u8> {
    seq![(query.len() / 256) as u8, (query.len() % 256) as u8] + query
}

/// The query framed for TCP; `None` when it is too long for that.
pub fn frame(query: &[u8]) -> (r: Option<Vec<u8>>)
    ensures
        match r {
            Some(v) => query@.len() <= 65535 && v@ == framed(query@),
            None => query@.len() > 65535,
        },
{
    let n = query.len();
    if n > 65535 {
        return None;
    }
    let mut v: Vec<u8> = Vec::new();
    v.push((n / 256) as u8);
    v.push((n % 256) as u8);
    let mut i: usize = 0;
    proof {
        assert(v@ =~= framed(query@).take(2));
    }
    while i < n
        invariant
            i <= n,
            n == query@.len(),
            v@ == framed(query@).take(i + 2),
        decreases n - i,
    {
        v.push(query[i]);
        i += 1;
        proof {
            assert(framed(query@).take(i + 2) =~= framed(query@).take(i + 1).push(query@[i - 1]));
        }
    }
    proof {
        assert(framed(query@).take(i + 2) =~= framed(query@));
    }
    Some(v)
}

impl Upstream {
    pub open spec fn shown(self) -> Seq<char> {
        self.server.shown() + ":"@ + crate::text::decimal(self.port as nat)
    }

    /// Why an exchange that outlasts its limit failed.
    pub fn timed_out(&self) -> (r: String)
        ensures
            r@ == "no answer from "@ + self.shown(),
    {
        let mut s = "no answer from ".to_owned();
        let mut at = self.server.to_string();
        at.append(":");
        at.append(show(self.port as u128).as_str());
        s.append(at.as_str());
        s
    }
}

/// The length TCP puts before a query is the length of the query, and the
/// query follows whole.
pub proof fn lemma_framed(query: Seq<u8>)
    requires
        query.len() <= 65535,
    ensures
        framed(query).len() == query.len() + 2,
        framed(query)[0] * 256 + framed(query)[1] == query.len(),
        framed(query).skip(2) == query,
{
    assert(framed(query).skip(2) =~= query);
}

/// A server is asked on port 53, and shown with its port.
pub proof fn lemma_how_a_server_is_shown(u: Upstream)
    ensures
        DNS_PORT == 53,
        u.shown() == u.server.shown() + ":"@ + crate::text::decimal(u.port as nat),
{
}

/// An answer was cut when the second bit of its third byte says so, and
/// only a message that has one.
pub proof fn lemma_which_answers_are_cut(msg: Seq<u8>)
    ensures
        cut_short(msg) <==> msg.len() > 2 && msg[2] / 2 % 2 == 1,
{
    if msg.len() > 2 {
        let b = msg[2];
        assert((b & 0x02 != 0) <==> (b / 2 % 2 == 1)) by (bit_vector);
    }
}

} // verus!
