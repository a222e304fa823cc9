use mac_gate::addr::{Ipv4Addr, Subnet};
use mac_gate::route::{
    added, deleted, message, set_next, usable_index, Outcome, Setting, EEXIST, ESRCH, HDR,
    RTA_DST, RTA_GATEWAY, RTA_NETMASK, RTF_HOST, RTF_STATIC, RTF_UP, RTM_ADD, RTM_DELETE, SDL_LEN,
    SIN_LEN,
};

// Where the fields of a routing message header stand.
const MSGLEN: usize = 0;
const VERSION: usize = 2;
const TYPE: usize = 3;
const FLAGS: usize = 8;
const ADDRS: usize = 12;
const SEQ: usize = 20;

fn field<const N: usize>(msg: &[u8], at: usize) -> [u8; N] {
    msg[at..at + N].try_into().unwrap()
}

#[test]
fn sizes_match_the_kernel_structs() {
    assert_eq!(usize::from(SIN_LEN), size_of::<libc::sockaddr_in>());
    // A link-level address of the Mac: eight bytes and twelve of data.
    assert_eq!(usize::from(SDL_LEN), 8 + 12);
}

#[test]
fn host_add_has_destination_and_interface() {
    let msg = message(
        RTM_ADD,
        Subnet::host(Ipv4Addr::new(100, 64, 0, 1)),
        Some(23),
        7,
    );
    assert_eq!(msg.len(), HDR + 16 + 20);
    let len = u16::from_ne_bytes(field(&msg, MSGLEN));
    assert_eq!(usize::from(len), msg.len());
    assert_eq!(msg[VERSION], 5);
    assert_eq!(msg[TYPE], 1);
    let flags = u32::from_ne_bytes(field(&msg, FLAGS));
    assert_eq!(flags, RTF_UP | RTF_STATIC | RTF_HOST);
    let addrs = u32::from_ne_bytes(field(&msg, ADDRS));
    assert_eq!(addrs, RTA_DST | RTA_GATEWAY);
    assert_eq!(i32::from_ne_bytes(field(&msg, SEQ)), 7);
    assert_eq!(&msg[HDR..HDR + 8], &[16, 2, 0, 0, 100, 64, 0, 1]);
    assert_eq!(msg[HDR + 16], 20);
    assert_eq!(msg[HDR + 17], 18);
    assert_eq!(u16::from_ne_bytes(field(&msg, HDR + 18)), 23);
}

#[test]
fn subnet_delete_has_destination_and_mask() {
    let net = Subnet {
        addr: Ipv4Addr::new(149, 154, 160, 0),
        prefix: 20,
    };
    let msg = message(RTM_DELETE, net, None, 1);
    assert_eq!(msg.len(), HDR + 16 + 16);
    let addrs = u32::from_ne_bytes(field(&msg, ADDRS));
    assert_eq!(addrs, RTA_DST | RTA_NETMASK);
    let flags = u32::from_ne_bytes(field(&msg, FLAGS));
    assert_eq!(flags & RTF_HOST, 0);
    assert_eq!(&msg[HDR + 4..HDR + 8], &[149, 154, 160, 0]);
    assert_eq!(&msg[HDR + 16 + 4..HDR + 16 + 8], &[255, 255, 240, 0]);
}

#[test]
fn a_route_that_is_there_is_put_anew() {
    assert_eq!(set_next(Setting::Add, None), Setting::Done(Outcome::Added));
    let at = set_next(Setting::Add, Some(EEXIST));
    assert_eq!(at, Setting::Delete);
    let at = set_next(at, Some(ESRCH));
    assert_eq!(at, Setting::AddAgain);
    assert_eq!(set_next(at, None), Setting::Done(Outcome::Moved));
    assert_eq!(set_next(Setting::Delete, Some(1)), Setting::Failed);
    assert_eq!(added(Some(EEXIST)), Some(Outcome::Existed));
    assert_eq!(added(Some(1)), None);
    assert_eq!(deleted(Some(ESRCH)), Some(false));
    assert_eq!(deleted(None), Some(true));
    assert_eq!(usable_index(0), None);
    assert_eq!(usable_index(65536), None);
    assert_eq!(usable_index(23), Some(23));
}
