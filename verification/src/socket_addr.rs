//! Socket addresses: the tagged union of IPv4, IPv6 and SCION endpoints,
//! each carrying a 16-bit port, and the closed set of parse-failure kinds.

use vstd::prelude::*;
use crate::ip_addr::IpAddr;
use crate::scion_addr::ScionAddr;
use crate::sock_addr_scion::SocketAddrScion;
use crate::sock_addr_v4::SocketAddrV4;
use crate::sock_addr_v6::SocketAddrV6;
use crate::sock_addr_scion::spec_fmt_socket_scion;
use crate::sock_addr_v4::spec_fmt_socket_v4;
use crate::sock_addr_v6::spec_fmt_socket_v6;
use crate::text::ascii_chars;

verus! {

/// The canonical rendering of a socket address of any family.
pub open spec fn spec_fmt_socket(sa: SocketAddr) -> Seq<u8> {
    match sa {
        SocketAddr::V4(a) => spec_fmt_socket_v4(a),
        SocketAddr::V6(a) => spec_fmt_socket_v6(a),
        SocketAddr::SCION(a) => spec_fmt_socket_scion(a),
    }
}

/// A layer-3 address: a plain IP address or a full SCION address.
pub enum L3Addr {
    IP(IpAddr),
    SCION(ScionAddr),
}

#[derive(Copy, Clone, PartialEq, Eq, Hash, PartialOrd, Ord, Debug)]
pub enum SocketAddr {
    /// An IPv4 socket address.
    V4(SocketAddrV4),
    /// An IPv6 socket address.
    V6(SocketAddrV6),
    /// A SCION socket address.
    SCION(SocketAddrScion),
}

/// Which grammar a failed parse was speaking: the closed set of
/// parse-error kinds.
#[derive(Debug, Clone, PartialEq, Eq)]
pub enum AddrKind {
    L3Addr,
    Scion,
    Ip,
    Ipv4,
    Ipv6,
    Socket,
    SocketScion,
    SocketV4,
    SocketV6,
}

/// A parse failure, carrying only the grammar kind that failed.
#[derive(Debug, Clone, PartialEq, Eq)]
pub struct AddrParseError(pub AddrKind);

impl AddrParseError {
    /// The failed grammar, described in words.
    pub open spec fn spec_description(self) -> Seq<char> {
        match self.0 {
            AddrKind::Ip => "invalid IP address syntax"@,
            AddrKind::Ipv4 => "invalid IPv4 address syntax"@,
            AddrKind::Ipv6 => "invalid IPv6 address syntax"@,
            AddrKind::Scion => "invalid Scion address syntax"@,
            AddrKind::SocketScion => "invalid ScionSocket address syntax"@,
            AddrKind::L3Addr => "invalid L3Address syntax"@,
            AddrKind::Socket => "invalid socket address syntax"@,
            AddrKind::SocketV4 => "invalid IPv4 socket address syntax"@,
            AddrKind::SocketV6 => "invalid IPv6 socket address syntax"@,
        }
    }

    pub fn description(&self) -> (r: &'static str)
        ensures
            r@ == self.spec_description(),
    {
        match self.0 {
            AddrKind::Ip => "invalid IP address syntax",
            AddrKind::Ipv4 => "invalid IPv4 address syntax",
            AddrKind::Ipv6 => "invalid IPv6 address syntax",
            AddrKind::Scion => "invalid Scion address syntax",
            AddrKind::SocketScion => "invalid ScionSocket address syntax",
            AddrKind::L3Addr => "invalid L3Address syntax",
            AddrKind::Socket => "invalid socket address syntax",
            AddrKind::SocketV4 => "invalid IPv4 socket address syntax",
            AddrKind::SocketV6 => "invalid IPv6 socket address syntax",
        }
    }
}

impl SocketAddr {
    /// Parses a socket address from ASCII bytes, trying the IPv4, IPv6
    /// and SCION grammars in that order; the whole input must be
    /// consumed.
    pub fn parse_ascii(b: &[u8]) -> (r: Result<SocketAddr, AddrParseError>)
        ensures
            match crate::parser::spec_read_socket(b@) {
                Some(vn) => if vn.1 == b@.len() {
                    r matches Ok(sa) && crate::parser::socket_matches(vn.0, sa)
                } else {
                    r == Err::<SocketAddr, AddrParseError>(AddrParseError(AddrKind::Socket))
                },
                None => r == Err::<SocketAddr, AddrParseError>(AddrParseError(AddrKind::Socket)),
            },
    {
        let mut p = crate::parser::Parser::new(b);
        match p.read_socket_addr() {
            Some(sa) => if p.is_at_end() {
                Ok(sa)
            } else {
                Err(AddrParseError(AddrKind::Socket))
            },
            None => Err(AddrParseError(AddrKind::Socket)),
        }
    }

    /// The host address of the endpoint.
    pub open spec fn spec_host(self) -> IpAddr {
        match self {
            SocketAddr::SCION(a) => a.addr.host,
            SocketAddr::V4(a) => IpAddr::V4(a.spec_ip()),
            SocketAddr::V6(a) => IpAddr::V6(a.spec_ip()),
        }
    }

    /// The port of the endpoint.
    pub open spec fn spec_port(self) -> u16 {
        match self {
            SocketAddr::V4(a) => a.spec_port(),
            SocketAddr::V6(a) => a.spec_port(),
            SocketAddr::SCION(a) => a.port,
        }
    }

    /// Builds a V4 or V6 endpoint from an IP address and a port; a V6
    /// endpoint gets flow label and scope id zero.
    pub fn new_ip(ip: IpAddr, port: u16) -> (r: SocketAddr)
        ensures
            r.spec_host() == ip,
            r.spec_port() == port,
            r is V4 <==> ip is V4,
            r is V6 <==> ip is V6,
            r matches SocketAddr::V6(a) ==> a.spec_flowinfo() == 0 && a.spec_scope_id() == 0,
    {
        match ip {
            IpAddr::V4(a) => SocketAddr::V4(SocketAddrV4::new(a, port)),
            IpAddr::V6(a) => SocketAddr::V6(SocketAddrV6::new(a, port, 0, 0)),
        }
    }

    /// Builds a SCION endpoint from a packed identifier, a host and a port.
    pub fn new_scion(ia: u64, ip: IpAddr, port: u16) -> (r: SocketAddr)
        ensures
            r matches SocketAddr::SCION(a) && a.addr.ia == ia && a.addr.host == ip && a.port
                == port,
    {
        SocketAddr::SCION(SocketAddrScion::new(ia, ip, port))
    }

    /// The host address of the endpoint.
    pub fn host(&self) -> (r: IpAddr)
        ensures
            r == self.spec_host(),
    {
        match self {
            SocketAddr::SCION(addr) => *addr.host(),
            SocketAddr::V4(a) => IpAddr::V4(*a.ip()),
            SocketAddr::V6(a) => IpAddr::V6(*a.ip()),
        }
    }

    /// Replaces the host address.  A SCION endpoint accepts any address;
    /// a V4 or V6 endpoint keeps its family, converting the endpoint to the
    /// new address's family (with fresh flow label and scope id) when they
    /// differ.
    pub fn set_ip(&mut self, new_ip: IpAddr)
        ensures
            (*final(self)).spec_host() == new_ip,
            (*final(self)).spec_port() == (*old(self)).spec_port(),
            (*old(self)) matches SocketAddr::SCION(a) ==> (*final(self)) matches SocketAddr::SCION(b)
                && b.addr.ia == a.addr.ia && b.port == a.port,
            !((*old(self)) is SCION) ==> ((*final(self)) is V4 <==> new_ip is V4) && ((*final(self)) is V6
                <==> new_ip is V6),
            (*old(self)) matches SocketAddr::V6(a) ==> (new_ip is V6 ==> ((*final(self))
                matches SocketAddr::V6(b) && b.spec_flowinfo() == a.spec_flowinfo()
                && b.spec_scope_id() == a.spec_scope_id())),
            (*old(self)) is V4 && new_ip is V6 ==> ((*final(self)) matches SocketAddr::V6(b)
                && b.spec_flowinfo() == 0 && b.spec_scope_id() == 0),
    {
        match (&mut *self, new_ip) {
            (SocketAddr::V4(a), IpAddr::V4(ip)) => a.set_ip(ip),
            (SocketAddr::V6(a), IpAddr::V6(ip)) => a.set_ip(ip),
            (SocketAddr::SCION(a), _) => a.set_host(new_ip),
            (self_, ip) => {
                let p = self_.port();
                *self_ = Self::new_ip(ip, p);
            },
        }
    }

    /// Replaces the host with a layer-3 address.  A SCION replacement
    /// carries only its host address into a non-SCION endpoint, and only
    /// when the families agree; an IP replacement behaves like `set_ip`.
    pub fn set_host(&mut self, new_host: L3Addr)
        ensures
            match new_host {
                L3Addr::SCION(sa) => {
                    &&& (*old(self)) matches SocketAddr::SCION(a) ==> (*final(self))
                        matches SocketAddr::SCION(b) && b.addr.host == sa.host && b.addr.ia
                        == a.addr.ia && b.port == a.port
                    &&& (*old(self)) matches SocketAddr::V4(a) ==> (*final(self))
                        matches SocketAddr::V4(b) && b.spec_port() == a.spec_port() && (match sa
                        .host {
                        IpAddr::V4(h) => b.spec_ip() == h,
                        IpAddr::V6(_) => b.spec_ip() == a.spec_ip(),
                    })
                    &&& (*old(self)) matches SocketAddr::V6(a) ==> (*final(self))
                        matches SocketAddr::V6(b) && b.spec_port() == a.spec_port() && (match sa
                        .host {
                        IpAddr::V6(h) => b.spec_ip() == h,
                        IpAddr::V4(_) => b.spec_ip() == a.spec_ip(),
                    }) && b.spec_flowinfo() == a.spec_flowinfo() && b.spec_scope_id()
                        == a.spec_scope_id()
                },
                L3Addr::IP(new_ip) => {
                    &&& (*final(self)).spec_host() == new_ip
                    &&& (*final(self)).spec_port() == (*old(self)).spec_port()
                    &&& (*old(self)) matches SocketAddr::SCION(a) ==> (*final(self))
                        matches SocketAddr::SCION(b) && b.addr.ia == a.addr.ia && b.port == a.port
                    &&& !((*old(self)) is SCION) ==> ((*final(self)) is V4 <==> new_ip is V4) && (
                    (*final(self)) is V6 <==> new_ip is V6)
                },
            },
    {
        match new_host {
            L3Addr::SCION(sa) => {
                match &mut *self {
                    SocketAddr::SCION(a) => {
                        a.set_host(sa.host);
                    },
                    SocketAddr::V4(a) => {
                        match sa.host {
                            IpAddr::V4(h) => a.set_ip(h),
                            _ => {},
                        }
                    },
                    SocketAddr::V6(a) => {
                        match sa.host {
                            IpAddr::V6(h) => a.set_ip(h),
                            _ => {},
                        }
                    },
                }
            },
            L3Addr::IP(new_ip) => {
                self.set_ip(new_ip);
            },
        }
    }

    /// The port of the endpoint.
    pub fn port(&self) -> (r: u16)
        ensures
            r == self.spec_port(),
    {
        match self {
            SocketAddr::V4(a) => a.port(),
            SocketAddr::V6(a) => a.port(),
            SocketAddr::SCION(a) => a.port(),
        }
    }

    /// Replaces the port, keeping everything else.
    pub fn set_port(&mut self, new_port: u16)
        ensures
            (*final(self)).spec_port() == new_port,
            (*final(self)).spec_host() == (*old(self)).spec_host(),
            (*old(self)) matches SocketAddr::SCION(a) ==> (*final(self)) matches SocketAddr::SCION(b)
                && b.addr == a.addr,
            (*old(self)) matches SocketAddr::V4(a) ==> (*final(self)) matches SocketAddr::V4(b)
                && b.spec_ip() == a.spec_ip(),
            (*old(self)) matches SocketAddr::V6(a) ==> (*final(self)) matches SocketAddr::V6(b)
                && b.spec_ip() == a.spec_ip() && b.spec_flowinfo() == a.spec_flowinfo()
                && b.spec_scope_id() == a.spec_scope_id(),
    {
        match &mut *self {
            SocketAddr::V4(a) => a.set_port(new_port),
            SocketAddr::V6(a) => a.set_port(new_port),
            SocketAddr::SCION(a) => a.set_port(new_port),
        }
    }

    pub fn is_ipv4(&self) -> (r: bool)
        ensures
            r == (self is V4),
    {
        match self {
            SocketAddr::V4(_) => true,
            _ => false,
        }
    }

    pub fn is_ipv6(&self) -> (r: bool)
        ensures
            r == (self is V6),
    {
        match self {
            SocketAddr::V6(_) => true,
            _ => false,
        }
    }

    /// The canonical text of the socket address.
    pub fn to_string(&self) -> (r: String)
        ensures
            r@ == ascii_chars(spec_fmt_socket(*self)),
    {
        match self {
            SocketAddr::V4(a) => a.to_string(),
            SocketAddr::V6(a) => a.to_string(),
            SocketAddr::SCION(a) => a.to_string(),
        }
    }
}

} // verus!
