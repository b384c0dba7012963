//! Limits on fetched content, and which addresses document-driven fetches
//! must not reach.
use vstd::prelude::*;

verus! {

/// Cap for documents fetched from a user-supplied URL.
pub const DOC_FETCH_CAP: u64 = 10485760;

/// Cap for images referenced inside documents.
pub const IMAGE_FETCH_CAP: u64 = 20971520;

/// An IP address: four octets, or eight 16-bit segments.
#[derive(Debug, Clone, Copy, PartialEq, Eq, Structural)]
pub enum IpAddress {
    V4(u8, u8, u8, u8),
    V6(u16, u16, u16, u16, u16, u16, u16, u16),
}

/// An IPv4 address that is not public: loopback 127/8, private 10/8,
/// 172.16/12 and 192.168/16, link-local 169.254/16, unspecified 0.0.0.0,
/// broadcast 255.255.255.255, or carrier-grade NAT 100.64/10.
pub open spec fn v4_private(a: u8, b: u8, c: u8, d: u8) -> bool {
    ||| a == 127
    ||| a == 10
    ||| (a == 172 && 16 <= b && b < 32)
    ||| (a == 192 && b == 168)
    ||| (a == 169 && b == 254)
    ||| (a == 0 && b == 0 && c == 0 && d == 0)
    ||| (a == 255 && b == 255 && c == 255 && d == 255)
    ||| (a == 100 && 64 <= b && b < 128)
}

/// An address that is loopback, private, link-local, unspecified or
/// otherwise not public. IPv6: loopback `::1`, unspecified `::`, unique-local
/// fc00::/7, link-local fe80::/10, and IPv4-mapped `::ffff:a.b.c.d` by the
/// IPv4 rule.
pub open spec fn ip_private(ip: IpAddress) -> bool {
    match ip {
        IpAddress::V4(a, b, c, d) => v4_private(a, b, c, d),
        IpAddress::V6(s0, s1, s2, s3, s4, s5, s6, s7) => {
            let zero5 = s0 == 0 && s1 == 0 && s2 == 0 && s3 == 0 && s4 == 0;
            ||| (zero5 && s5 == 0 && s6 == 0 && s7 == 1)
            ||| (zero5 && s5 == 0 && s6 == 0 && s7 == 0)
            ||| (0xfc00 <= s0 && s0 <= 0xfdff)
            ||| (0xfe80 <= s0 && s0 <= 0xfebf)
            ||| (zero5 && s5 == 0xffff && v4_private((s6 / 256) as u8, (s6 % 256) as u8, (s7 / 256) as u8, (s7 % 256) as u8))
        },
    }
}

fn v4_is_private(a: u8, b: u8, c: u8, d: u8) -> (r: bool)
    ensures
        r == v4_private(a, b, c, d),
{
    a == 127 || a == 10 || (a == 172 && 16 <= b && b < 32) || (a == 192 && b == 168) || (a == 169
        && b == 254) || (a == 0 && b == 0 && c == 0 && d == 0) || (a == 255 && b == 255 && c == 255
        && d == 255) || (a == 100 && 64 <= b && b < 128)
}

/// True if `ip` is a loopback, private, link-local, or otherwise non-public
/// address. Used to keep document-driven fetches from probing the local
/// machine or network.
pub fn is_private_ip(ip: &IpAddress) -> (r: bool)
    ensures
        r == ip_private(*ip),
{
    match *ip {
        IpAddress::V4(a, b, c, d) => v4_is_private(a, b, c, d),
        IpAddress::V6(s0, s1, s2, s3, s4, s5, s6, s7) => {
            let zero5 = s0 == 0 && s1 == 0 && s2 == 0 && s3 == 0 && s4 == 0;
            assert(((s0 & 0xfe00) == 0xfc00) == (0xfc00 <= s0 && s0 <= 0xfdff)) by (bit_vector);
            assert(((s0 & 0xffc0) == 0xfe80) == (0xfe80 <= s0 && s0 <= 0xfebf)) by (bit_vector);
            (zero5 && s5 == 0 && s6 == 0 && s7 == 1) || (zero5 && s5 == 0 && s6 == 0 && s7 == 0) || (
            (s0 & 0xfe00) == 0xfc00) || ((s0 & 0xffc0) == 0xfe80) || (zero5 && s5 == 0xffff
                && v4_is_private((s6 / 256) as u8, (s6 % 256) as u8, (s7 / 256) as u8, (s7 % 256) as u8))
        },
    }
}

/// Whether a host is off limits to document-driven fetches, from what its
/// text parses to as an IP literal (brackets stripped) and, for a name,
/// what it resolves to (`None` when resolution fails): a literal by its
/// address; a name when it does not resolve, resolves to nothing, or
/// resolves to any non-public address.
pub open spec fn host_private(literal: Option<IpAddress>, resolved: Option<Seq<IpAddress>>) -> bool {
    match literal {
        Some(ip) => ip_private(ip),
        None => match resolved {
            None => true,
            Some(addrs) => addrs.len() == 0 || exists|i: int| 0 <= i < addrs.len() && ip_private(#[trigger] addrs[i]),
        },
    }
}

/// Some address in `addrs` is not public.
fn any_private(addrs: &Vec<IpAddress>) -> (r: bool)
    ensures
        r == exists|i: int| 0 <= i < addrs@.len() && ip_private(#[trigger] addrs@[i]),
{
    let mut i: usize = 0;
    while i < addrs.len()
        invariant
            i <= addrs@.len(),
            forall|j: int| 0 <= j < i ==> !ip_private(#[trigger] addrs@[j]),
        decreases addrs@.len() - i,
    {
        if is_private_ip(&addrs[i]) {
            assert(ip_private(addrs@[i as int]));
            return true;
        }
        i = i + 1;
    }
    false
}

/// True if the host is (or resolves to) a loopback, private, link-local, or
/// otherwise non-public address, or does not resolve at all.
pub fn host_is_private(literal: Option<IpAddress>, resolved: Option<Vec<IpAddress>>) -> (r: bool)
    ensures
        r == host_private(literal, match resolved {
            Some(v) => Some(v@),
            None => None,
        }),
{
    match literal {
        Some(ip) => is_private_ip(&ip),
        None => match resolved {
            None => true,
            Some(addrs) => addrs.len() == 0 || any_private(&addrs),
        },
    }
}

} // verus!
