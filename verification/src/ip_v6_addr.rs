//! IPv6 addresses: sixteen octets in network order, viewed as eight 16-bit
//! segments, with classification predicates and IPv4 interoperation.

use vstd::prelude::*;
use crate::ip_addr::IpAddr;
use crate::ip_v4_addr::Ipv4Addr;
use crate::text::ascii_chars;
use crate::text::ascii_string;
use crate::text::spec_fmt_ipv6;
use crate::text::write_ipv6;

verus! {

#[derive(Copy, Clone, PartialEq, Eq, Hash, PartialOrd, Ord, Debug)]
pub struct Ipv6Addr {
    octets: [u8; 16],
}

/// Multicast scope of an IPv6 multicast address.
#[derive(Copy, PartialEq, Eq, Clone, Hash, Debug)]
#[non_exhaustive]
pub enum Ipv6MulticastScope {
    /// Interface-Local scope.
    InterfaceLocal,
    /// Link-Local scope.
    LinkLocal,
    /// Realm-Local scope.
    RealmLocal,
    /// Admin-Local scope.
    AdminLocal,
    /// Site-Local scope.
    SiteLocal,
    /// Organization-Local scope.
    OrganizationLocal,
    /// Global scope.
    Global,
}

impl View for Ipv6Addr {
    type V = Seq<u8>;

    closed spec fn view(&self) -> Seq<u8> {
        self.octets@
    }
}

/// The 16-bit segment formed by the octet pair at positions `2i`, `2i+1`.
pub open spec fn seg_of(o: Seq<u8>, i: int) -> u16 {
    (o[2 * i] * 0x100 + o[2 * i + 1]) as u16
}

/// The eight 16-bit segments of a 16-octet sequence.
pub open spec fn segs_of(o: Seq<u8>) -> Seq<u16> {
    Seq::new(8, |i: int| seg_of(o, i))
}

impl Ipv6Addr {
    /// The eight 16-bit segments of the address.
    pub open spec fn spec_segments(self) -> Seq<u16> {
        segs_of(self@)
    }

    /// Is this the all-zero address `::`?
    pub open spec fn spec_is_unspecified(self) -> bool {
        forall|i: int| 0 <= i < 16 ==> self@[i] == 0
    }

    /// Is this the loopback address `::1`?
    pub open spec fn spec_is_loopback(self) -> bool {
        (forall|i: int| 0 <= i < 15 ==> self@[i] == 0) && self@[15] == 1
    }

    /// Does the address begin with the IPv4-mapped prefix `::ffff:0:0/96`?
    pub open spec fn spec_is_ipv4_mapped(self) -> bool {
        (forall|i: int| 0 <= i < 10 ==> self@[i] == 0) && self@[10] == 0xff && self@[11] == 0xff
    }

    /// Is this an IPv4-compatible or IPv4-mapped address (`::a.b.c.d` or
    /// `::ffff:a.b.c.d`)?
    pub open spec fn spec_is_ipv4_convertible(self) -> bool {
        self.spec_segments()[0] == 0 && self.spec_segments()[1] == 0 && self.spec_segments()[2]
            == 0 && self.spec_segments()[3] == 0 && self.spec_segments()[4] == 0
            && (self.spec_segments()[5] == 0 || self.spec_segments()[5] == 0xffff)
    }

    /// Does this address lie in the unique-local block `fc00::/7`?
    pub open spec fn spec_is_unique_local(self) -> bool {
        self.spec_segments()[0] & 0xfe00 == 0xfc00
    }

    /// Does this address lie in the multicast block `ff00::/8`?
    pub open spec fn spec_is_multicast(self) -> bool {
        self.spec_segments()[0] & 0xff00 == 0xff00
    }

    /// Is this address not multicast?
    pub open spec fn spec_is_unicast(self) -> bool {
        !self.spec_is_multicast()
    }

    /// Does this address lie in the unicast link-local block `fe80::/10`?
    pub open spec fn spec_is_unicast_link_local(self) -> bool {
        self.spec_segments()[0] & 0xffc0 == 0xfe80
    }

    /// Does this address lie in the documentation block `2001:db8::/32`?
    pub open spec fn spec_is_documentation(self) -> bool {
        self.spec_segments()[0] == 0x2001 && self.spec_segments()[1] == 0xdb8
    }

    /// Does this address lie in the benchmarking block `2001:2::/48`?
    pub open spec fn spec_is_benchmarking(self) -> bool {
        self.spec_segments()[0] == 0x2001 && self.spec_segments()[1] == 0x2
            && self.spec_segments()[2] == 0
    }

    /// Is this a unicast address in none of the non-global unicast ranges?
    pub open spec fn spec_is_unicast_global(self) -> bool {
        self.spec_is_unicast() && !self.spec_is_loopback() && !self.spec_is_unicast_link_local()
            && !self.spec_is_unique_local() && !self.spec_is_unspecified()
            && !self.spec_is_documentation() && !self.spec_is_benchmarking()
    }

    /// Does this address equal `2001:1::1` or `2001:1::2` (protocol
    /// anycast), or lie in `2001:3::/32`, `2001:4:112::/48` or
    /// `2001:20::/28`?
    pub open spec fn spec_is_ietf_exception(self) -> bool {
        let s = self.spec_segments();
        (s =~= seq![0x2001u16, 1u16, 0u16, 0u16, 0u16, 0u16, 0u16, 1u16]) || (s =~= seq![
            0x2001u16, 1u16, 0u16, 0u16, 0u16, 0u16, 0u16, 2u16,
        ]) || (s[0] == 0x2001 && s[1] == 3) || (s[0] == 0x2001 && s[1] == 4 && s[2] == 0x112) || (
        s[0] == 0x2001 && 0x20 <= s[1] <= 0x2f)
    }

    /// Is this address in none of the special-purpose ranges?
    pub open spec fn spec_is_global(self) -> bool {
        let s = self.spec_segments();
        !(self.spec_is_unspecified() || self.spec_is_loopback() || (s[0] == 0 && s[1] == 0 && s[2]
            == 0 && s[3] == 0 && s[4] == 0 && s[5] == 0xffff) || (s[0] == 0x64 && s[1] == 0xff9b
            && s[2] == 1) || (s[0] == 0x100 && s[1] == 0 && s[2] == 0 && s[3] == 0) || (s[0]
            == 0x2001 && s[1] < 0x200 && !self.spec_is_ietf_exception())
            || self.spec_is_documentation() || self.spec_is_unique_local()
            || self.spec_is_unicast_link_local())
    }

    /// Builds an address from its sixteen octets in network order.
    pub fn from_octets(o: [u8; 16]) -> (r: Ipv6Addr)
        ensures
            r@ == o@,
    {
        Ipv6Addr { octets: o }
    }

    /// Creates the address `a:b:c:d:e:f:g:h` from eight 16-bit segments.
    pub fn new(a: u16, b: u16, c: u16, d: u16, e: u16, f: u16, g: u16, h: u16) -> (r: Ipv6Addr)
        ensures
            r.spec_segments() == seq![a, b, c, d, e, f, g, h],
    {
        let o: [u8; 16] = [
            (a / 0x100) as u8,
            (a % 0x100) as u8,
            (b / 0x100) as u8,
            (b % 0x100) as u8,
            (c / 0x100) as u8,
            (c % 0x100) as u8,
            (d / 0x100) as u8,
            (d % 0x100) as u8,
            (e / 0x100) as u8,
            (e % 0x100) as u8,
            (f / 0x100) as u8,
            (f % 0x100) as u8,
            (g / 0x100) as u8,
            (g % 0x100) as u8,
            (h / 0x100) as u8,
            (h % 0x100) as u8,
        ];
        let r = Ipv6Addr { octets: o };
        proof {
            assert(r.spec_segments() =~= seq![a, b, c, d, e, f, g, h]);
        }
        r
    }

    /// The address as a 128-bit value in host order, big-endian over the
    /// octets.
    pub fn to_bits(self) -> (r: u128)
        ensures
            r == self@[0] * 0x1000000000000000000000000000000 + self@[1]
                * 0x10000000000000000000000000000 + self@[2] * 0x100000000000000000000000000
                + self@[3] * 0x1000000000000000000000000 + self@[4] * 0x10000000000000000000000
                + self@[5] * 0x100000000000000000000 + self@[6] * 0x1000000000000000000 + self@[7]
                * 0x10000000000000000 + self@[8] * 0x100000000000000 + self@[9] * 0x1000000000000
                + self@[10] * 0x10000000000 + self@[11] * 0x100000000 + self@[12] * 0x1000000
                + self@[13] * 0x10000 + self@[14] * 0x100 + self@[15],
    {
        (self.octets[0] as u128) * 0x1000000000000000000000000000000 + (self.octets[1] as u128)
            * 0x10000000000000000000000000000 + (self.octets[2] as u128)
            * 0x100000000000000000000000000 + (self.octets[3] as u128)
            * 0x1000000000000000000000000 + (self.octets[4] as u128) * 0x10000000000000000000000
            + (self.octets[5] as u128) * 0x100000000000000000000 + (self.octets[6] as u128)
            * 0x1000000000000000000 + (self.octets[7] as u128) * 0x10000000000000000 + (
        self.octets[8] as u128) * 0x100000000000000 + (self.octets[9] as u128) * 0x1000000000000
            + (self.octets[10] as u128) * 0x10000000000 + (self.octets[11] as u128) * 0x100000000
            + (self.octets[12] as u128) * 0x1000000 + (self.octets[13] as u128) * 0x10000 + (
        self.octets[14] as u128) * 0x100 + (self.octets[15] as u128)
    }

    /// The address whose big-endian octets spell the 128-bit value `bits`.
    pub fn from_bits(bits: u128) -> (r: Ipv6Addr)
        ensures
            r@ == seq![
                (bits / 0x1000000000000000000000000000000 % 0x100) as u8,
                (bits / 0x10000000000000000000000000000 % 0x100) as u8,
                (bits / 0x100000000000000000000000000 % 0x100) as u8,
                (bits / 0x1000000000000000000000000 % 0x100) as u8,
                (bits / 0x10000000000000000000000 % 0x100) as u8,
                (bits / 0x100000000000000000000 % 0x100) as u8,
                (bits / 0x1000000000000000000 % 0x100) as u8,
                (bits / 0x10000000000000000 % 0x100) as u8,
                (bits / 0x100000000000000 % 0x100) as u8,
                (bits / 0x1000000000000 % 0x100) as u8,
                (bits / 0x10000000000 % 0x100) as u8,
                (bits / 0x100000000 % 0x100) as u8,
                (bits / 0x1000000 % 0x100) as u8,
                (bits / 0x10000 % 0x100) as u8,
                (bits / 0x100 % 0x100) as u8,
                (bits % 0x100) as u8,
            ],
    {
        let o: [u8; 16] = [
            (bits / 0x1000000000000000000000000000000 % 0x100) as u8,
            (bits / 0x10000000000000000000000000000 % 0x100) as u8,
            (bits / 0x100000000000000000000000000 % 0x100) as u8,
            (bits / 0x1000000000000000000000000 % 0x100) as u8,
            (bits / 0x10000000000000000000000 % 0x100) as u8,
            (bits / 0x100000000000000000000 % 0x100) as u8,
            (bits / 0x1000000000000000000 % 0x100) as u8,
            (bits / 0x10000000000000000 % 0x100) as u8,
            (bits / 0x100000000000000 % 0x100) as u8,
            (bits / 0x1000000000000 % 0x100) as u8,
            (bits / 0x10000000000 % 0x100) as u8,
            (bits / 0x100000000 % 0x100) as u8,
            (bits / 0x1000000 % 0x100) as u8,
            (bits / 0x10000 % 0x100) as u8,
            (bits / 0x100 % 0x100) as u8,
            (bits % 0x100) as u8,
        ];
        let r = Ipv6Addr { octets: o };
        proof {
            assert(r@ =~= seq![
                (bits / 0x1000000000000000000000000000000 % 0x100) as u8,
                (bits / 0x10000000000000000000000000000 % 0x100) as u8,
                (bits / 0x100000000000000000000000000 % 0x100) as u8,
                (bits / 0x1000000000000000000000000 % 0x100) as u8,
                (bits / 0x10000000000000000000000 % 0x100) as u8,
                (bits / 0x100000000000000000000 % 0x100) as u8,
                (bits / 0x1000000000000000000 % 0x100) as u8,
                (bits / 0x10000000000000000 % 0x100) as u8,
                (bits / 0x100000000000000 % 0x100) as u8,
                (bits / 0x1000000000000 % 0x100) as u8,
                (bits / 0x10000000000 % 0x100) as u8,
                (bits / 0x100000000 % 0x100) as u8,
                (bits / 0x1000000 % 0x100) as u8,
                (bits / 0x10000 % 0x100) as u8,
                (bits / 0x100 % 0x100) as u8,
                (bits % 0x100) as u8,
            ]);
        }
        r
    }

    /// The eight 16-bit segments of the address, in order.
    pub fn segments(&self) -> (r: [u16; 8])
        ensures
            r@ == self.spec_segments(),
    {
        let o = &self.octets;
        let r: [u16; 8] = [
            (o[0] as u16) * 0x100 + (o[1] as u16),
            (o[2] as u16) * 0x100 + (o[3] as u16),
            (o[4] as u16) * 0x100 + (o[5] as u16),
            (o[6] as u16) * 0x100 + (o[7] as u16),
            (o[8] as u16) * 0x100 + (o[9] as u16),
            (o[10] as u16) * 0x100 + (o[11] as u16),
            (o[12] as u16) * 0x100 + (o[13] as u16),
            (o[14] as u16) * 0x100 + (o[15] as u16),
        ];
        proof {
            assert(r@ =~= self.spec_segments());
        }
        r
    }

    pub fn is_unspecified(&self) -> (r: bool)
        ensures
            r == self.spec_is_unspecified(),
    {
        let mut i: usize = 0;
        while i < 16
            invariant
                0 <= i <= 16,
                forall|j: int| 0 <= j < i ==> self@[j] == 0,
            decreases 16 - i,
        {
            if self.octets[i] != 0 {
                proof {
                    assert(self@[i as int] != 0);
                }
                return false;
            }
            i = i + 1;
        }
        true
    }

    pub fn is_loopback(&self) -> (r: bool)
        ensures
            r == self.spec_is_loopback(),
    {
        let mut i: usize = 0;
        while i < 15
            invariant
                0 <= i <= 15,
                forall|j: int| 0 <= j < i ==> self@[j] == 0,
            decreases 15 - i,
        {
            if self.octets[i] != 0 {
                return false;
            }
            i = i + 1;
        }
        self.octets[15] == 1
    }

    pub fn is_global(&self) -> (r: bool)
        ensures
            r == self.spec_is_global(),
    {
        let s = self.segments();
        let exception = (s[0] == 0x2001 && s[1] == 1 && s[2] == 0 && s[3] == 0 && s[4] == 0 && s[5]
            == 0 && s[6] == 0 && (s[7] == 1 || s[7] == 2)) || (s[0] == 0x2001 && s[1] == 3) || (
        s[0] == 0x2001 && s[1] == 4 && s[2] == 0x112) || (s[0] == 0x2001 && 0x20 <= s[1] && s[1]
            <= 0x2f);
        proof {
            assert(exception == self.spec_is_ietf_exception());
        }
        !(self.is_unspecified() || self.is_loopback() || (s[0] == 0 && s[1] == 0 && s[2] == 0
            && s[3] == 0 && s[4] == 0 && s[5] == 0xffff) || (s[0] == 0x64 && s[1] == 0xff9b && s[2]
            == 1) || (s[0] == 0x100 && s[1] == 0 && s[2] == 0 && s[3] == 0) || (s[0] == 0x2001
            && s[1] < 0x200 && !exception) || self.is_documentation() || self.is_unique_local()
            || self.is_unicast_link_local())
    }

    pub fn is_unique_local(&self) -> (r: bool)
        ensures
            r == self.spec_is_unique_local(),
    {
        let s = self.segments();
        s[0] & 0xfe00 == 0xfc00
    }

    pub fn is_unicast(&self) -> (r: bool)
        ensures
            r == self.spec_is_unicast(),
    {
        !self.is_multicast()
    }

    pub fn is_unicast_link_local(&self) -> (r: bool)
        ensures
            r == self.spec_is_unicast_link_local(),
    {
        let s = self.segments();
        s[0] & 0xffc0 == 0xfe80
    }

    pub fn is_documentation(&self) -> (r: bool)
        ensures
            r == self.spec_is_documentation(),
    {
        let s = self.segments();
        s[0] == 0x2001 && s[1] == 0xdb8
    }

    pub fn is_benchmarking(&self) -> (r: bool)
        ensures
            r == self.spec_is_benchmarking(),
    {
        let s = self.segments();
        s[0] == 0x2001 && s[1] == 0x2 && s[2] == 0
    }

    pub fn is_unicast_global(&self) -> (r: bool)
        ensures
            r == self.spec_is_unicast_global(),
    {
        self.is_unicast() && !self.is_loopback() && !self.is_unicast_link_local()
            && !self.is_unique_local() && !self.is_unspecified() && !self.is_documentation()
            && !self.is_benchmarking()
    }

    /// The scope of a multicast address, `None` for unicast addresses and
    /// for unassigned scope values.
    pub fn multicast_scope(&self) -> (r: Option<Ipv6MulticastScope>)
        ensures
            r == self.spec_multicast_scope(),
    {
        if self.is_multicast() {
            let s = self.segments();
            match s[0] & 0x000f {
                1 => Some(Ipv6MulticastScope::InterfaceLocal),
                2 => Some(Ipv6MulticastScope::LinkLocal),
                3 => Some(Ipv6MulticastScope::RealmLocal),
                4 => Some(Ipv6MulticastScope::AdminLocal),
                5 => Some(Ipv6MulticastScope::SiteLocal),
                8 => Some(Ipv6MulticastScope::OrganizationLocal),
                14 => Some(Ipv6MulticastScope::Global),
                _ => None,
            }
        } else {
            None
        }
    }

    /// The scope encoded in the low nibble of the first segment, for
    /// multicast addresses.
    pub open spec fn spec_multicast_scope(self) -> Option<Ipv6MulticastScope> {
        if self.spec_is_multicast() {
            let nibble = self.spec_segments()[0] & 0x000f;
            if nibble == 1 {
                Some(Ipv6MulticastScope::InterfaceLocal)
            } else if nibble == 2 {
                Some(Ipv6MulticastScope::LinkLocal)
            } else if nibble == 3 {
                Some(Ipv6MulticastScope::RealmLocal)
            } else if nibble == 4 {
                Some(Ipv6MulticastScope::AdminLocal)
            } else if nibble == 5 {
                Some(Ipv6MulticastScope::SiteLocal)
            } else if nibble == 8 {
                Some(Ipv6MulticastScope::OrganizationLocal)
            } else if nibble == 14 {
                Some(Ipv6MulticastScope::Global)
            } else {
                None
            }
        } else {
            None
        }
    }

    pub fn is_multicast(&self) -> (r: bool)
        ensures
            r == self.spec_is_multicast(),
    {
        let s = self.segments();
        s[0] & 0xff00 == 0xff00
    }

    /// The IPv4 address `a.b.c.d` of an IPv4-mapped address
    /// `::ffff:a.b.c.d`, `None` otherwise.
    pub fn to_ipv4_mapped(&self) -> (r: Option<Ipv4Addr>)
        ensures
            match r {
                Some(v4) => self.spec_is_ipv4_mapped() && v4@ == seq![
                    self@[12], self@[13], self@[14], self@[15],
                ],
                None => !self.spec_is_ipv4_mapped(),
            },
    {
        let mut i: usize = 0;
        while i < 10
            invariant
                0 <= i <= 10,
                forall|j: int| 0 <= j < i ==> self@[j] == 0,
            decreases 10 - i,
        {
            if self.octets[i] != 0 {
                return None;
            }
            i = i + 1;
        }
        if self.octets[10] == 0xff && self.octets[11] == 0xff {
            Some(Ipv4Addr::new(self.octets[12], self.octets[13], self.octets[14], self.octets[15]))
        } else {
            None
        }
    }

    /// The IPv4 address of an IPv4-compatible or IPv4-mapped address,
    /// `None` otherwise.
    pub fn to_ipv4(&self) -> (r: Option<Ipv4Addr>)
        ensures
            match r {
                Some(v4) => self.spec_is_ipv4_convertible() && v4@ == seq![
                    self@[12], self@[13], self@[14], self@[15],
                ],
                None => !self.spec_is_ipv4_convertible(),
            },
    {
        let s = self.segments();
        if s[0] == 0 && s[1] == 0 && s[2] == 0 && s[3] == 0 && s[4] == 0 && (s[5] == 0 || s[5]
            == 0xffff) {
            Some(Ipv4Addr::new(self.octets[12], self.octets[13], self.octets[14], self.octets[15]))
        } else {
            None
        }
    }

    /// The canonical form: the embedded IPv4 address for IPv4-mapped
    /// addresses, the address itself otherwise.
    pub fn to_canonical(&self) -> (r: IpAddr)
        ensures
            match r {
                IpAddr::V4(v4) => self.spec_is_ipv4_mapped() && v4@ == seq![
                    self@[12], self@[13], self@[14], self@[15],
                ],
                IpAddr::V6(v6) => !self.spec_is_ipv4_mapped() && v6 == *self,
            },
    {
        match self.to_ipv4_mapped() {
            Some(mapped) => IpAddr::V4(mapped),
            None => IpAddr::V6(*self),
        }
    }

    /// The canonical compressed colon-hex text of the address.
    pub fn to_string(&self) -> (r: String)
        ensures
            r@ == ascii_chars(spec_fmt_ipv6(self.spec_segments())),
    {
        let mut out: Vec<u8> = Vec::new();
        write_ipv6(&mut out, self);
        proof {
            assert(out@ =~= spec_fmt_ipv6(self.spec_segments()));
        }
        ascii_string(&out)
    }

    /// The sixteen octets of the address.
    pub fn octets(&self) -> (r: [u8; 16])
        ensures
            r@ == self@,
    {
        self.octets
    }
}

} // verus!
