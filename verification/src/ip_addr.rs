//! The tagged union of IPv4 and IPv6 addresses.

use vstd::prelude::*;
use crate::ip_v4_addr::Ipv4Addr;
use crate::ip_v6_addr::Ipv6Addr;
use crate::text::ascii_chars;
use crate::text::ascii_string;
use crate::text::spec_fmt_ip;
use crate::text::write_ip;

verus! {

#[derive(Copy, Clone, Eq, PartialEq, Hash, PartialOrd, Ord, Debug)]
pub enum IpAddr {
    /// An IPv4 address.
    V4(Ipv4Addr),
    /// An IPv6 address.
    V6(Ipv6Addr),
}

impl IpAddr {
    pub open spec fn spec_is_unspecified(self) -> bool {
        match self {
            IpAddr::V4(ip) => ip.spec_is_unspecified(),
            IpAddr::V6(ip) => ip.spec_is_unspecified(),
        }
    }

    pub open spec fn spec_is_loopback(self) -> bool {
        match self {
            IpAddr::V4(ip) => ip.spec_is_loopback(),
            IpAddr::V6(ip) => ip.spec_is_loopback(),
        }
    }

    pub fn is_unspecified(&self) -> (r: bool)
        ensures
            r == self.spec_is_unspecified(),
    {
        match self {
            IpAddr::V4(ip) => ip.is_unspecified(),
            IpAddr::V6(ip) => ip.is_unspecified(),
        }
    }

    pub fn is_loopback(&self) -> (r: bool)
        ensures
            r == self.spec_is_loopback(),
    {
        match self {
            IpAddr::V4(ip) => ip.is_loopback(),
            IpAddr::V6(ip) => ip.is_loopback(),
        }
    }

    pub fn is_global(&self) -> (r: bool)
        ensures
            r == match *self {
                IpAddr::V4(ip) => ip.spec_is_global(),
                IpAddr::V6(ip) => ip.spec_is_global(),
            },
    {
        match self {
            IpAddr::V4(ip) => ip.is_global(),
            IpAddr::V6(ip) => ip.is_global(),
        }
    }

    pub fn is_multicast(&self) -> (r: bool)
        ensures
            r == match *self {
                IpAddr::V4(ip) => ip.spec_is_multicast(),
                IpAddr::V6(ip) => ip.spec_is_multicast(),
            },
    {
        match self {
            IpAddr::V4(ip) => ip.is_multicast(),
            IpAddr::V6(ip) => ip.is_multicast(),
        }
    }

    pub fn is_documentation(&self) -> (r: bool)
        ensures
            r == match *self {
                IpAddr::V4(ip) => ip.spec_is_documentation(),
                IpAddr::V6(ip) => ip.spec_is_documentation(),
            },
    {
        match self {
            IpAddr::V4(ip) => ip.is_documentation(),
            IpAddr::V6(ip) => ip.is_documentation(),
        }
    }

    pub fn is_benchmarking(&self) -> (r: bool)
        ensures
            r == match *self {
                IpAddr::V4(ip) => ip.spec_is_benchmarking(),
                IpAddr::V6(ip) => ip.spec_is_benchmarking(),
            },
    {
        match self {
            IpAddr::V4(ip) => ip.is_benchmarking(),
            IpAddr::V6(ip) => ip.is_benchmarking(),
        }
    }

    pub fn is_ipv4(&self) -> (r: bool)
        ensures
            r == (self is V4),
    {
        match self {
            IpAddr::V4(_) => true,
            IpAddr::V6(_) => false,
        }
    }

    pub fn is_ipv6(&self) -> (r: bool)
        ensures
            r == (self is V6),
    {
        match self {
            IpAddr::V4(_) => false,
            IpAddr::V6(_) => true,
        }
    }

    /// The canonical text of the address.
    pub fn to_string(&self) -> (r: String)
        ensures
            r@ == ascii_chars(spec_fmt_ip(*self)),
    {
        let mut out: Vec<u8> = Vec::new();
        write_ip(&mut out, self);
        proof {
            assert(out@ =~= spec_fmt_ip(*self));
        }
        ascii_string(&out)
    }

    /// The canonical form: V6 addresses that are IPv4-mapped become their
    /// embedded V4 address; everything else is unchanged.
    pub fn to_canonical(&self) -> (r: IpAddr)
        ensures
            match *self {
                IpAddr::V4(_) => r == *self,
                IpAddr::V6(v6) => match r {
                    IpAddr::V4(v4) => v6.spec_is_ipv4_mapped() && v4@ == seq![
                        v6@[12], v6@[13], v6@[14], v6@[15],
                    ],
                    IpAddr::V6(w6) => !v6.spec_is_ipv4_mapped() && w6 == v6,
                },
            },
    {
        match self {
            IpAddr::V4(_) => *self,
            IpAddr::V6(v6) => v6.to_canonical(),
        }
    }
}

} // verus!
