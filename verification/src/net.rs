//! Network addresses as plain integers.
use vstd::prelude::*;

verus! {

/// An IP address: its 32 or 128 bits, most significant first.
#[derive(Clone, Copy, PartialEq, Eq, Debug, Structural)]
pub enum IpAddr {
    V4(u32),
    V6(u128),
}

/// A listening address.
#[derive(Debug)]
pub struct SocketAddr {
    pub ip: IpAddr,
    pub port: u16,
    /// How the address is written.
    pub text: String,
}

pub open spec fn octet(ip: u32, i: int) -> int {
    if i == 0 {
        ip as int / 0x1000000
    } else if i == 1 {
        (ip as int / 0x10000) % 0x100
    } else if i == 2 {
        (ip as int / 0x100) % 0x100
    } else {
        ip as int % 0x100
    }
}

/// 127.0.0.0/8.
pub open spec fn v4_loopback(ip: u32) -> bool {
    octet(ip, 0) == 127
}

/// The peers a pairing code may be redeemed from: loopback, 10.0.0.0/8,
/// 172.16.0.0/12, 192.168.0.0/16, 169.254.0.0/16 and 100.64.0.0/10.
pub open spec fn v4_local(ip: u32) -> bool {
    let (a, b) = (octet(ip, 0), octet(ip, 1));
    ||| v4_loopback(ip)
    ||| a == 10
    ||| a == 172 && 16 <= b < 32
    ||| a == 192 && b == 168
    ||| a == 169 && b == 254
    ||| a == 100 && 64 <= b < 128
}

/// The IPv4 address that ::ffff:0:0/96 maps.
pub open spec fn mapped(ip: u128) -> Option<u32> {
    if ip as int / 0x1_0000_0000 == 0xffff {
        Some((ip as int % 0x1_0000_0000) as u32)
    } else {
        None
    }
}

/// ::1, fe80::/10 and fc00::/7.
pub open spec fn v6_local(ip: u128) -> bool {
    let top = ip as int / 0x1_0000_0000_0000_0000_0000_0000_0000;
    ||| ip == 1
    ||| 0xfe80 <= top < 0xfec0
    ||| 0xfc00 <= top < 0xfe00
}

impl IpAddr {
    pub open spec fn loopback(self) -> bool {
        match self {
            IpAddr::V4(ip) => v4_loopback(ip),
            IpAddr::V6(ip) => ip == 1,
        }
    }

    /// Whether the address is a loopback one.
    pub fn is_loopback(self) -> (r: bool)
        ensures
            r == self.loopback(),
    {
        match self {
            IpAddr::V4(ip) => ip / 0x1000000 == 127,
            IpAddr::V6(ip) => ip == 1,
        }
    }

    pub open spec fn local(self) -> bool {
        match self {
            IpAddr::V4(ip) => v4_local(ip),
            IpAddr::V6(ip) => v6_local(ip) || match mapped(ip) {
                Some(v4) => v4_local(v4),
                None => false,
            },
        }
    }
}

/// Whether an IPv4 peer is local.
pub fn pairing_v4_allowed(ip: u32) -> (r: bool)
    ensures
        r == v4_local(ip),
{
    let a: u32 = ip / 0x1000000;
    let b: u32 = (ip / 0x10000) % 0x100;
    a == 127 || a == 10 || (a == 172 && 16 <= b && b < 32) || (a == 192 && b == 168) || (a == 169
        && b == 254) || (a == 100 && 64 <= b && b < 128)
}

/// Whether an IPv6 peer is local.
pub fn pairing_v6_allowed(ip: u128) -> (r: bool)
    ensures
        r == v6_local(ip),
{
    let top: u128 = ip / 0x1_0000_0000_0000_0000_0000_0000_0000;
    ip == 1 || (0xfe80 <= top && top < 0xfec0) || (0xfc00 <= top && top < 0xfe00)
}

/// Whether a peer is directly connected: a mapped IPv4 address is judged as
/// the address it maps.
pub fn pairing_peer_allowed(ip: IpAddr) -> (r: bool)
    ensures
        r == ip.local(),
{
    match ip {
        IpAddr::V4(v4) => pairing_v4_allowed(v4),
        IpAddr::V6(v6) => {
            let high: u128 = v6 / 0x1_0000_0000;
            let low: u32 = (v6 % 0x1_0000_0000) as u32;
            (high == 0xffff && pairing_v4_allowed(low)) || pairing_v6_allowed(v6)
        },
    }
}

// ---------------------------------------------------------------------------
// Laws

/// The IPv4 loopback addresses are those from 127.0.0.0 to 127.255.255.255;
/// of IPv6 only ::1 is one.
pub proof fn law_loopback_addresses(v4: u32, v6: u128)
    ensures
        IpAddr::V4(v4).loopback() <==> 0x7f00_0000 <= v4 <= 0x7fff_ffff,
        IpAddr::V6(v6).loopback() <==> v6 == 1,
{
}

/// The local IPv4 peers are those from 10.0.0.0 to 10.255.255.255, from
/// 100.64.0.0 to 100.127.255.255, from 127.0.0.0 to 127.255.255.255, from
/// 169.254.0.0 to 169.254.255.255, from 172.16.0.0 to 172.31.255.255 and from
/// 192.168.0.0 to 192.168.255.255. No other address is one.
pub proof fn law_local_v4_peers(ip: u32)
    ensures
        IpAddr::V4(ip).local() <==> {
            ||| 0x0a00_0000 <= ip <= 0x0aff_ffff
            ||| 0x6440_0000 <= ip <= 0x647f_ffff
            ||| 0x7f00_0000 <= ip <= 0x7fff_ffff
            ||| 0xa9fe_0000 <= ip <= 0xa9fe_ffff
            ||| 0xac10_0000 <= ip <= 0xac1f_ffff
            ||| 0xc0a8_0000 <= ip <= 0xc0a8_ffff
        },
{
}

/// The local IPv6 peers are ::1, those from fc00:: up to fdff:ffff:..., those
/// from fe80:: up to febf:ffff:..., and those that map a local IPv4 address.
pub proof fn law_local_v6_peers(ip: u128)
    ensures
        IpAddr::V6(ip).local() <==> {
            ||| ip == 1
            ||| 0xfc00_0000_0000_0000_0000_0000_0000_0000 <= ip
                <= 0xfdff_ffff_ffff_ffff_ffff_ffff_ffff_ffff
            ||| 0xfe80_0000_0000_0000_0000_0000_0000_0000 <= ip
                <= 0xfebf_ffff_ffff_ffff_ffff_ffff_ffff_ffff
            ||| 0xffff_0000_0000 <= ip <= 0xffff_ffff_ffff && IpAddr::V4(
                (ip - 0xffff_0000_0000) as u32,
            ).local()
        },
{
    if 0xffff_0000_0000 <= ip <= 0xffff_ffff_ffff {
        assert(mapped(ip) == Some((ip - 0xffff_0000_0000) as u32));
    }
}

/// Every loopback address is a local peer.
pub proof fn law_loopback_is_local(ip: IpAddr)
    ensures
        ip.loopback() ==> ip.local(),
{
}

} // verus!
