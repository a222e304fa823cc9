//! Routes through an interface over the routing socket: the messages
//! `route -n add -interface <if>` sends, without spawning `route`.
//!
//! The layout is that of the kernel of the Mac, numbers with their low byte
//! first.

use vstd::prelude::*;

use crate::addr::{Ipv4Addr, Subnet};

verus! {

#[derive(Clone, Copy, Debug, PartialEq, Eq, Structural)]
pub enum Outcome {
    Added,
    Existed,
    /// Existed and now points at the interface.
    Moved,
}

/// The length of `rt_msghdr`, which every message begins with.
pub const HDR: usize = 92;

pub const SIN_LEN: u8 = 16;

pub const SDL_LEN: u8 = 20;

pub const AF_INET: u8 = 2;

pub const AF_LINK: u8 = 18;

pub const RTM_VERSION: u8 = 5;

pub const RTM_ADD: u8 = 1;

pub const RTM_DELETE: u8 = 2;

pub const RTF_UP: u32 = 0x1;

pub const RTF_HOST: u32 = 0x4;

pub const RTF_STATIC: u32 = 0x800;

pub const RTA_DST: u32 = 0x1;

pub const RTA_GATEWAY: u32 = 0x2;

pub const RTA_NETMASK: u32 = 0x4;

pub const EEXIST: i32 = 17;

pub const ESRCH: i32 = 3;

// ---------------------------------------------------------------------
// Messages.
// ---------------------------------------------------------------------

pub open spec fn two(n: u16) -> Seq<u8> {
    seq![(n % 256) as u8, (n / 256) as u8]
}

pub open spec fn four(n: u32) -> Seq<u8> {
    seq![
        (n % 256) as u8,
        (n / 0x100 % 256) as u8,
        (n / 0x1_0000 % 256) as u8,
        (n / 0x100_0000) as u8,
    ]
}

pub open spec fn zeros(n: nat) -> Seq<u8> {
    Seq::new(n, |i: int| 0u8)
}

/// An Internet address as the kernel takes it.
pub open spec fn sin(addr: Ipv4Addr) -> Seq<u8> {
    seq![SIN_LEN, AF_INET, 0u8, 0u8] + Seq::new(4, |i: int| addr.octet(i) as u8) + zeros(8)
}

/// A link-level address that names the interface by index only.
pub open spec fn sdl(index: u16) -> Seq<u8> {
    seq![SDL_LEN, AF_LINK] + two(index) + zeros(16)
}

/// The length of the message, its version and kind; the flags of the route
/// and which addresses follow; a number of its own.
pub open spec fn header(len: u16, kind: u8, flags: u32, addrs: u32, seq: u32) -> Seq<u8> {
    two(len) + seq![RTM_VERSION, kind] + zeros(4) + four(flags) + four(addrs) + zeros(4) + four(seq)
        + zeros(68)
}

pub open spec fn flags_of(dst: Subnet) -> u32 {
    if dst.prefix == 32 {
        0x805
    } else {
        0x801
    }
}

pub open spec fn addrs_of(dst: Subnet, ifindex: Option<u16>) -> u32 {
    if dst.prefix == 32 {
        if ifindex is Some {
            0x3
        } else {
            0x1
        }
    } else if ifindex is Some {
        0x7
    } else {
        0x5
    }
}

/// The addresses of a message: the destination, the interface when there
/// is one, and the mask of what is not a host.
pub open spec fn body(dst: Subnet, ifindex: Option<u16>) -> Seq<u8> {
    let gateway = match ifindex {
        Some(index) => sdl(index),
        None => seq![],
    };
    let mask = if dst.prefix == 32 {
        seq![]
    } else {
        sin(Ipv4Addr { bits: crate::addr::mask_bits(dst.prefix) })
    };
    sin(dst.addr) + gateway + mask
}

/// A routing message: header, then the addresses in RTA_* bit order, each
/// already a multiple of 4 bytes as the kernel expects.
pub open spec fn routing(kind: u8, dst: Subnet, ifindex: Option<u16>, seq: u32) -> Seq<u8> {
    let b = body(dst, ifindex);
    header((HDR + b.len()) as u16, kind, flags_of(dst), addrs_of(dst, ifindex), seq) + b
}

fn push_zeros(msg: &mut Vec<u8>, n: usize)
    ensures
        final(msg)@ == old(msg)@ + zeros(n as nat),
{
    let ghost start = msg@;
    let mut i: usize = 0;
    proof {
        assert(start + zeros(0) =~= start);
    }
    while i < n
        invariant
            i <= n,
            msg@ == start + zeros(i as nat),
        decreases n - i,
    {
        msg.push(0);
        i += 1;
        proof {
            assert(start + zeros(i as nat) =~= (start + zeros((i - 1) as nat)).push(0));
        }
    }
}

fn push_two(msg: &mut Vec<u8>, n: u16)
    ensures
        final(msg)@ == old(msg)@ + two(n),
{
    let ghost start = msg@;
    msg.push((n % 256) as u8);
    msg.push((n / 256) as u8);
    proof {
        assert(msg@ =~= start + two(n));
    }
}

fn push_four(msg: &mut Vec<u8>, n: u32)
    ensures
        final(msg)@ == old(msg)@ + four(n),
{
    let ghost start = msg@;
    msg.push((n % 256) as u8);
    msg.push((n / 0x100 % 256) as u8);
    msg.push((n / 0x1_0000 % 256) as u8);
    msg.push((n / 0x100_0000) as u8);
    proof {
        assert(msg@ =~= start + four(n));
    }
}

fn push_sin(msg: &mut Vec<u8>, addr: Ipv4Addr)
    ensures
        final(msg)@ == old(msg)@ + sin(addr),
{
    let ghost start = msg@;
    let o = addr.octets();
    msg.push(SIN_LEN);
    msg.push(AF_INET);
    msg.push(0);
    msg.push(0);
    msg.push(o[0]);
    msg.push(o[1]);
    msg.push(o[2]);
    msg.push(o[3]);
    push_zeros(msg, 8);
    proof {
        assert(msg@ =~= start + sin(addr));
    }
}

fn push_sdl(msg: &mut Vec<u8>, index: u16)
    ensures
        final(msg)@ == old(msg)@ + sdl(index),
{
    let ghost start = msg@;
    msg.push(SDL_LEN);
    msg.push(AF_LINK);
    push_two(msg, index);
    push_zeros(msg, 16);
    proof {
        assert(msg@ =~= start + sdl(index));
    }
}

/// A routing message of this kind for the route to `dst`.
pub fn message(kind: u8, dst: Subnet, ifindex: Option<u16>, seq: u32) -> (r: Vec<u8>)
    requires
        dst.wf(),
    ensures
        r@ == routing(kind, dst, ifindex, seq),
{
    let host = dst.prefix == 32;
    let flags: u32 = if host {
        0x805
    } else {
        0x801
    };
    let mut len: u16 = 108;
    if ifindex.is_some() {
        len = len + 20;
    }
    if !host {
        len = len + 16;
    }
    let addrs: u32 = match (host, ifindex.is_some()) {
        (true, true) => 0x3,
        (true, false) => 0x1,
        (false, true) => 0x7,
        (false, false) => 0x5,
    };
    let mut msg: Vec<u8> = Vec::new();
    push_two(&mut msg, len);
    msg.push(RTM_VERSION);
    msg.push(kind);
    push_zeros(&mut msg, 4);
    push_four(&mut msg, flags);
    push_four(&mut msg, addrs);
    push_zeros(&mut msg, 4);
    push_four(&mut msg, seq);
    push_zeros(&mut msg, 68);
    let ghost head = header(len, kind, flags, addrs, seq);
    proof {
        assert(msg@ =~= head);
    }
    push_sin(&mut msg, dst.addr);
    if let Some(index) = ifindex {
        push_sdl(&mut msg, index);
    }
    if !host {
        push_sin(&mut msg, dst.netmask());
    }
    proof {
        let b = body(dst, ifindex);
        assert(b.len() == len - HDR);
        assert(msg@ =~= head + b);
    }
    msg
}

/// The flags and the addresses of a message are those the kernel names.
pub proof fn lemma_message_bits(dst: Subnet, ifindex: Option<u16>)
    ensures
        flags_of(dst) == RTF_UP | RTF_STATIC | (if dst.prefix == 32 {
            RTF_HOST
        } else {
            0u32
        }),
        addrs_of(dst, ifindex) == RTA_DST | (if ifindex is Some {
            RTA_GATEWAY
        } else {
            0u32
        }) | (if dst.prefix == 32 {
            0u32
        } else {
            RTA_NETMASK
        }),
{
    assert(0x1u32 | 0x800u32 | 0x4u32 == 0x805u32) by (bit_vector);
    assert(0x1u32 | 0x800u32 | 0u32 == 0x801u32) by (bit_vector);
    assert(0x1u32 | 0x2u32 | 0u32 == 0x3u32) by (bit_vector);
    assert(0x1u32 | 0u32 | 0u32 == 0x1u32) by (bit_vector);
    assert(0x1u32 | 0x2u32 | 0x4u32 == 0x7u32) by (bit_vector);
    assert(0x1u32 | 0u32 | 0x4u32 == 0x5u32) by (bit_vector);
}

/// A message says its own length, and the length is a multiple of four.
pub proof fn lemma_message_length(kind: u8, dst: Subnet, ifindex: Option<u16>, seq: u32)
    ensures
        ({
            let m = routing(kind, dst, ifindex, seq);
            &&& m[0] + m[1] * 256 == m.len()
            &&& m.len() % 4 == 0
            &&& m[2] == RTM_VERSION
            &&& m[3] == kind
        }),
{
    let b = body(dst, ifindex);
    assert(b.len() == 16 || b.len() == 36 || b.len() == 32 || b.len() == 52);
    let h = header((HDR + b.len()) as u16, kind, flags_of(dst), addrs_of(dst, ifindex), seq);
    let m = routing(kind, dst, ifindex, seq);
    assert(m =~= h + b);
    assert(m[0] == h[0] && m[1] == h[1] && m[2] == h[2] && m[3] == h[3]);
}

// ---------------------------------------------------------------------
// What the kernel answers.
// ---------------------------------------------------------------------

/// What adding a route came to, by the error of the write: a route that
/// was there is left as it is. `None` for any other error.
pub fn added(errno: Option<i32>) -> (r: Option<Outcome>)
    ensures
        r == match errno {
            None => Some(Outcome::Added),
            Some(e) => if e == EEXIST {
                Some(Outcome::Existed)
            } else {
                None
            },
        },
{
    match errno {
        None => Some(Outcome::Added),
        Some(e) => if e == EEXIST {
            Some(Outcome::Existed)
        } else {
            None
        },
    }
}

/// What deleting a route came to: false when there was no such route.
/// `None` for any other error.
pub fn deleted(errno: Option<i32>) -> (r: Option<bool>)
    ensures
        r == match errno {
            None => Some(true),
            Some(e) => if e == ESRCH {
                Some(false)
            } else {
                None
            },
        },
{
    match errno {
        None => Some(true),
        Some(e) => if e == ESRCH {
            Some(false)
        } else {
            None
        },
    }
}

/// How far putting a route in place has come.
#[derive(Clone, Copy, Debug, PartialEq, Eq, Structural)]
pub enum Setting {
    /// The route is to be added.
    Add,
    /// There is one: it is to be deleted.
    Delete,
    /// It is gone: the new one is to be added.
    AddAgain,
    Done(Outcome),
    /// The last write failed.
    Failed,
}

/// Adds the route, or puts a new one in place of an existing one. Not a
/// change in place: an open connection keeps the route it had, deleted
/// or not, and a new route does not take it over. So connections started
/// through the old interface live out there, and new ones go through the
/// new. What follows a write, by its error.
pub fn set_next(at: Setting, errno: Option<i32>) -> (r: Setting)
    ensures
        r == match at {
            Setting::Add => match errno {
                None => Setting::Done(Outcome::Added),
                Some(e) => if e == EEXIST {
                    Setting::Delete
                } else {
                    Setting::Failed
                },
            },
            Setting::Delete => match errno {
                None => Setting::AddAgain,
                Some(e) => if e == ESRCH {
                    Setting::AddAgain
                } else {
                    Setting::Failed
                },
            },
            Setting::AddAgain => match errno {
                None => Setting::Done(Outcome::Moved),
                Some(e) => if e == EEXIST {
                    Setting::Done(Outcome::Moved)
                } else {
                    Setting::Failed
                },
            },
            Setting::Done(o) => Setting::Done(o),
            Setting::Failed => Setting::Failed,
        },
{
    match at {
        Setting::Add => match added(errno) {
            Some(Outcome::Added) => Setting::Done(Outcome::Added),
            Some(_) => Setting::Delete,
            None => Setting::Failed,
        },
        Setting::Delete => match deleted(errno) {
            Some(_) => Setting::AddAgain,
            None => Setting::Failed,
        },
        Setting::AddAgain => match added(errno) {
            Some(_) => Setting::Done(Outcome::Moved),
            None => Setting::Failed,
        },
        Setting::Done(o) => Setting::Done(o),
        Setting::Failed => Setting::Failed,
    }
}

/// An interface index that the messages can carry.
pub fn usable_index(index: u32) -> (r: Option<u16>)
    ensures
        r == if 0 < index <= u16::MAX {
            Some(index as u16)
        } else {
            None
        },
{
    if 0 < index && index <= 65535 {
        Some(index as u16)
    } else {
        None
    }
}

// ---------------------------------------------------------------------
// Laws.
// ---------------------------------------------------------------------

/// A number is written low byte first.
pub proof fn lemma_low_byte_first(n: u16, m: u32)
    ensures
        two(n).len() == 2,
        two(n)[0] + two(n)[1] * 256 == n,
        four(m).len() == 4,
        four(m)[0] + four(m)[1] * 0x100 + four(m)[2] * 0x1_0000 + four(m)[3] * 0x100_0000 == m,
{
    assert(m / 0x100 % 256 == (m / 0x100) - 256 * (m / 0x1_0000)) by (nonlinear_arith);
    assert(m / 0x1_0000 % 256 == (m / 0x1_0000) - 256 * (m / 0x100_0000)) by (nonlinear_arith);
}

/// A message says its length, the fifth version, its kind, the flags, the
/// addresses that follow and its number, each in its place.
pub proof fn lemma_what_a_message_says(kind: u8, dst: Subnet, ifindex: Option<u16>, seq: u32)
    requires
        dst.wf(),
    ensures
        ({
            let m = routing(kind, dst, ifindex, seq);
            let b = m.skip(92);
            let host = dst.prefix == 32;
            &&& m.len() == 92 + b.len()
            &&& b.len() == 16 + (if ifindex is Some {
                20int
            } else {
                0int
            }) + (if host {
                0int
            } else {
                16int
            })
            &&& m.subrange(0, 2) == two((92 + b.len()) as u16)
            &&& m[2] == 5
            &&& m[3] == kind
            &&& m.subrange(8, 12) == four(
                if host {
                    0x805
                } else {
                    0x801
                },
            )
            &&& m.subrange(12, 16) == four(
                (0x1 + (if ifindex is Some {
                    0x2int
                } else {
                    0x0int
                }) + (if host {
                    0x0int
                } else {
                    0x4int
                })) as u32,
            )
            &&& m.subrange(20, 24) == four(seq)
            &&& b == sin(dst.addr) + (if ifindex is Some {
                sdl(ifindex->0)
            } else {
                Seq::<u8>::empty()
            }) + (if host {
                Seq::<u8>::empty()
            } else {
                sin(Ipv4Addr { bits: crate::addr::mask_bits(dst.prefix) })
            })
        }),
{
    let m = routing(kind, dst, ifindex, seq);
    let b = body(dst, ifindex);
    assert(m.skip(92) =~= b);
    assert(m.subrange(0, 2) =~= two((92 + b.len()) as u16));
    assert(m.subrange(8, 12) =~= four(flags_of(dst)));
    assert(m.subrange(12, 16) =~= four(addrs_of(dst, ifindex)));
    assert(m.subrange(20, 24) =~= four(seq));
}

/// An address is of sixteen bytes: the length, the family of the Internet,
/// and the four octets from the fifth byte on; an interface of twenty: the
/// length, the family of links, and the index from the third byte on.
pub proof fn lemma_what_an_address_says(a: Ipv4Addr, index: u16)
    ensures
        sin(a).len() == 16,
        sin(a)[0] == 16,
        sin(a)[1] == 2,
        sin(a)[4] == a.octet(0),
        sin(a)[5] == a.octet(1),
        sin(a)[6] == a.octet(2),
        sin(a)[7] == a.octet(3),
        sdl(index).len() == 20,
        sdl(index)[0] == 20,
        sdl(index)[1] == 18,
        sdl(index).subrange(2, 4) == two(index),
{
    crate::addr::lemma_octets_in_order(a);
    assert(sdl(index).subrange(2, 4) =~= two(index));
}

/// The numbers of the kernel: a route that is there, one that is not, the
/// kinds of the messages.
pub proof fn lemma_the_numbers_of_the_kernel(errno: i32)
    ensures
        errno == EEXIST <==> errno == 17,
        errno == ESRCH <==> errno == 3,
        RTM_ADD == 1,
        RTM_DELETE == 2,
{
}

} // verus!
