//! The two address families the responder runs on, and the addresses it uses on each.
use vstd::prelude::*;
use crate::dns::IpAddr;

verus! {

/// IPv4.
pub struct Inet;

/// IPv6.
pub struct Inet6;

/// `0.0.0.0`.
pub open spec fn any_v4() -> IpAddr {
    IpAddr::V4([0u8, 0u8, 0u8, 0u8])
}

/// `::`.
pub open spec fn any_v6() -> IpAddr {
    IpAddr::V6([0u8, 0u8, 0u8, 0u8, 0u8, 0u8, 0u8, 0u8, 0u8, 0u8, 0u8, 0u8, 0u8, 0u8, 0u8, 0u8])
}

/// `224.0.0.251`, the IPv4 mDNS group.
pub open spec fn group_v4() -> IpAddr {
    IpAddr::V4([224u8, 0u8, 0u8, 251u8])
}

/// `ff02::fb`, the IPv6 mDNS group.
pub open spec fn group_v6() -> IpAddr {
    IpAddr::V6([0xffu8, 0x02u8, 0u8, 0u8, 0u8, 0u8, 0u8, 0u8, 0u8, 0u8, 0u8, 0u8, 0u8, 0u8, 0u8, 0xfbu8])
}

/// The address is of the given family (`v6` for IPv6).
pub open spec fn of_family(ip: IpAddr, v6: bool) -> bool {
    match ip {
        IpAddr::V4(_) => !v6,
        IpAddr::V6(_) => v6,
    }
}

/// What differs between the families: the any-address to bind, the mDNS group, and
/// which interface addresses are advertised.
pub trait AddressFamily {
    /// The family is IPv6.
    spec fn is_v6() -> bool;

    fn v6() -> (r: bool)
        ensures
            r == Self::is_v6(),
    ;

    fn any_addr() -> (r: IpAddr)
        ensures
            r == (if Self::is_v6() { any_v6() } else { any_v4() }),
    ;

    fn mdns_group() -> (r: IpAddr)
        ensures
            r == (if Self::is_v6() { group_v6() } else { group_v4() }),
            of_family(r, Self::is_v6()),
    ;
}

impl AddressFamily for Inet {
    open spec fn is_v6() -> bool {
        false
    }

    fn v6() -> (r: bool) {
        false
    }

    fn any_addr() -> (r: IpAddr) {
        IpAddr::V4([0, 0, 0, 0])
    }

    fn mdns_group() -> (r: IpAddr) {
        IpAddr::V4([224, 0, 0, 251])
    }
}

impl AddressFamily for Inet6 {
    open spec fn is_v6() -> bool {
        true
    }

    fn v6() -> (r: bool) {
        true
    }

    fn any_addr() -> (r: IpAddr) {
        IpAddr::V6([0, 0, 0, 0, 0, 0, 0, 0, 0, 0, 0, 0, 0, 0, 0, 0])
    }

    fn mdns_group() -> (r: IpAddr) {
        IpAddr::V6([0xff, 0x02, 0, 0, 0, 0, 0, 0, 0, 0, 0, 0, 0, 0, 0, 0xfb])
    }
}

} // verus!
