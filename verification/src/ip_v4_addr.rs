//! IPv4 addresses: four octets in network order, with the classification
//! predicates over well-known ranges.

use vstd::prelude::*;
use crate::text::ascii_chars;
use crate::text::ascii_string;
use crate::text::spec_fmt_ipv4;
use crate::text::write_ipv4;

verus! {

#[derive(Copy, Clone, PartialEq, Eq, Hash, PartialOrd, Ord, Debug)]
pub struct Ipv4Addr {
    octets: [u8; 4],
}

impl View for Ipv4Addr {
    type V = Seq<u8>;

    closed spec fn view(&self) -> Seq<u8> {
        self.octets@
    }
}

impl Ipv4Addr {
    /// Is this the all-zero address?
    pub open spec fn spec_is_unspecified(self) -> bool {
        self@ =~= seq![0u8, 0u8, 0u8, 0u8]
    }

    /// Does this address lie in the loopback block `127.0.0.0/8`?
    pub open spec fn spec_is_loopback(self) -> bool {
        self@[0] == 127
    }

    /// Does this address lie in one of the private blocks `10.0.0.0/8`,
    /// `172.16.0.0/12`, `192.168.0.0/16`?
    pub open spec fn spec_is_private(self) -> bool {
        self@[0] == 10 || (self@[0] == 172 && 16 <= self@[1] <= 31) || (self@[0] == 192 && self@[1]
            == 168)
    }

    /// Does this address lie in the link-local block `169.254.0.0/16`?
    pub open spec fn spec_is_link_local(self) -> bool {
        self@[0] == 169 && self@[1] == 254
    }

    /// Does this address lie in the shared block `100.64.0.0/10`?
    pub open spec fn spec_is_shared(self) -> bool {
        self@[0] == 100 && self@[1] & 0xc0 == 0x40
    }

    /// Does this address lie in the benchmarking block `198.18.0.0/15`?
    pub open spec fn spec_is_benchmarking(self) -> bool {
        self@[0] == 198 && self@[1] & 0xfe == 18
    }

    /// Does this address lie in the reserved block `240.0.0.0/4`, broadcast
    /// excluded?
    pub open spec fn spec_is_reserved(self) -> bool {
        self@[0] & 240 == 240 && !self.spec_is_broadcast()
    }

    /// Does this address lie in the multicast block `224.0.0.0/4`?
    pub open spec fn spec_is_multicast(self) -> bool {
        224 <= self@[0] <= 239
    }

    /// Is this the limited broadcast address `255.255.255.255`?
    pub open spec fn spec_is_broadcast(self) -> bool {
        self@ =~= seq![255u8, 255u8, 255u8, 255u8]
    }

    /// Does this address lie in one of the documentation blocks
    /// `192.0.2.0/24`, `198.51.100.0/24`, `203.0.113.0/24`?
    pub open spec fn spec_is_documentation(self) -> bool {
        (self@[0] == 192 && self@[1] == 0 && self@[2] == 2) || (self@[0] == 198 && self@[1] == 51
            && self@[2] == 100) || (self@[0] == 203 && self@[1] == 0 && self@[2] == 113)
    }

    /// Is this address in none of the special-purpose ranges?
    pub open spec fn spec_is_global(self) -> bool {
        !(self@[0] == 0 || self.spec_is_private() || self.spec_is_shared()
            || self.spec_is_loopback() || self.spec_is_link_local() || (self@[0] == 192 && self@[1]
            == 0 && self@[2] == 0) || self.spec_is_documentation() || self.spec_is_benchmarking()
            || self.spec_is_reserved() || self.spec_is_broadcast())
    }

    /// Creates the address `a.b.c.d`.
    pub fn new(a: u8, b: u8, c: u8, d: u8) -> (r: Ipv4Addr)
        ensures
            r@ == seq![a, b, c, d],
    {
        let r = Ipv4Addr { octets: [a, b, c, d] };
        proof {
            assert(r@ =~= seq![a, b, c, d]);
        }
        r
    }

    /// The address as a 32-bit value in host order, big-endian over the
    /// octets.
    pub fn to_bits(self) -> (r: u32)
        ensures
            r == self@[0] * 0x1000000 + self@[1] * 0x10000 + self@[2] * 0x100 + self@[3],
    {
        (self.octets[0] as u32) * 0x1000000 + (self.octets[1] as u32) * 0x10000 + (
        self.octets[2] as u32) * 0x100 + (self.octets[3] as u32)
    }

    /// The address whose big-endian octets spell the 32-bit value `bits`.
    pub fn from_bits(bits: u32) -> (r: Ipv4Addr)
        ensures
            r@ == seq![
                (bits / 0x1000000) as u8,
                (bits / 0x10000 % 0x100) as u8,
                (bits / 0x100 % 0x100) as u8,
                (bits % 0x100) as u8,
            ],
    {
        let a = (bits / 0x1000000) as u8;
        let b = (bits / 0x10000 % 0x100) as u8;
        let c = (bits / 0x100 % 0x100) as u8;
        let d = (bits % 0x100) as u8;
        let r = Ipv4Addr { octets: [a, b, c, d] };
        proof {
            assert(r@ =~= seq![a, b, c, d]);
        }
        r
    }

    /// The canonical dotted-decimal text of the address.
    pub fn to_string(&self) -> (r: String)
        ensures
            r@ == ascii_chars(spec_fmt_ipv4(self@)),
    {
        let mut out: Vec<u8> = Vec::new();
        write_ipv4(&mut out, self.octets[0], self.octets[1], self.octets[2], self.octets[3]);
        proof {
            assert(seq![self@[0], self@[1], self@[2], self@[3]] =~= self@);
            assert(out@ =~= spec_fmt_ipv4(self@));
        }
        ascii_string(&out)
    }

    /// The four octets of the address.
    pub fn octets(&self) -> (r: [u8; 4])
        ensures
            r@ == self@,
    {
        self.octets
    }

    pub fn is_unspecified(&self) -> (r: bool)
        ensures
            r == self.spec_is_unspecified(),
    {
        self.octets[0] == 0 && self.octets[1] == 0 && self.octets[2] == 0 && self.octets[3] == 0
    }

    pub fn is_loopback(&self) -> (r: bool)
        ensures
            r == self.spec_is_loopback(),
    {
        self.octets[0] == 127
    }

    pub fn is_private(&self) -> (r: bool)
        ensures
            r == self.spec_is_private(),
    {
        self.octets[0] == 10 || (self.octets[0] == 172 && 16 <= self.octets[1]
            && self.octets[1] <= 31) || (self.octets[0] == 192 && self.octets[1] == 168)
    }

    pub fn is_link_local(&self) -> (r: bool)
        ensures
            r == self.spec_is_link_local(),
    {
        self.octets[0] == 169 && self.octets[1] == 254
    }

    pub fn is_global(&self) -> (r: bool)
        ensures
            r == self.spec_is_global(),
    {
        !(self.octets[0] == 0 || self.is_private() || self.is_shared() || self.is_loopback()
            || self.is_link_local() || (self.octets[0] == 192 && self.octets[1] == 0
            && self.octets[2] == 0) || self.is_documentation() || self.is_benchmarking()
            || self.is_reserved() || self.is_broadcast())
    }

    pub fn is_shared(&self) -> (r: bool)
        ensures
            r == self.spec_is_shared(),
    {
        self.octets[0] == 100 && (self.octets[1] & 0xc0) == 0x40
    }

    pub fn is_benchmarking(&self) -> (r: bool)
        ensures
            r == self.spec_is_benchmarking(),
    {
        self.octets[0] == 198 && (self.octets[1] & 0xfe) == 18
    }

    pub fn is_reserved(&self) -> (r: bool)
        ensures
            r == self.spec_is_reserved(),
    {
        (self.octets[0] & 240) == 240 && !self.is_broadcast()
    }

    pub fn is_multicast(&self) -> (r: bool)
        ensures
            r == self.spec_is_multicast(),
    {
        224 <= self.octets[0] && self.octets[0] <= 239
    }

    pub fn is_broadcast(&self) -> (r: bool)
        ensures
            r == self.spec_is_broadcast(),
    {
        self.octets[0] == 255 && self.octets[1] == 255 && self.octets[2] == 255 && self.octets[3]
            == 255
    }

    pub fn is_documentation(&self) -> (r: bool)
        ensures
            r == self.spec_is_documentation(),
    {
        (self.octets[0] == 192 && self.octets[1] == 0 && self.octets[2] == 2) || (self.octets[0]
            == 198 && self.octets[1] == 51 && self.octets[2] == 100) || (self.octets[0] == 203
            && self.octets[1] == 0 && self.octets[2] == 113)
    }

    /// The IPv4-compatible IPv6 address `::a.b.c.d`.
    pub fn to_ipv6_compatible(&self) -> (r: crate::ip_v6_addr::Ipv6Addr)
        ensures
            r@ == seq![
                0u8, 0u8, 0u8, 0u8, 0u8, 0u8, 0u8, 0u8, 0u8, 0u8, 0u8, 0u8,
                self@[0], self@[1], self@[2], self@[3],
            ],
    {
        crate::ip_v6_addr::Ipv6Addr::from_octets(
            [
                0,
                0,
                0,
                0,
                0,
                0,
                0,
                0,
                0,
                0,
                0,
                0,
                self.octets[0],
                self.octets[1],
                self.octets[2],
                self.octets[3],
            ],
        )
    }

    /// The IPv4-mapped IPv6 address `::ffff:a.b.c.d`.
    pub fn to_ipv6_mapped(&self) -> (r: crate::ip_v6_addr::Ipv6Addr)
        ensures
            r@ == seq![
                0u8, 0u8, 0u8, 0u8, 0u8, 0u8, 0u8, 0u8, 0u8, 0u8, 0xffu8, 0xffu8,
                self@[0], self@[1], self@[2], self@[3],
            ],
    {
        crate::ip_v6_addr::Ipv6Addr::from_octets(
            [
                0,
                0,
                0,
                0,
                0,
                0,
                0,
                0,
                0,
                0,
                0xff,
                0xff,
                self.octets[0],
                self.octets[1],
                self.octets[2],
                self.octets[3],
            ],
        )
    }
}

} // verus!
