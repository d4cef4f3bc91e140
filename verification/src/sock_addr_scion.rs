//! SCION socket addresses: a SCION address with a 16-bit port.

use vstd::prelude::*;
use crate::grammar::digits_of;
use crate::ip_addr::IpAddr;
use crate::scion_addr::ScionAddr;
use crate::scion_addr::spec_fmt_scion;
use crate::scion_addr::write_scion_addr;
use crate::text::ascii_chars;
use crate::text::ascii_string;
use crate::text::write_digits;

verus! {

/// The canonical rendering of a SCION socket address `ISD-AS,HOST:port`.
pub open spec fn spec_fmt_socket_scion(sa: SocketAddrScion) -> Seq<u8> {
    spec_fmt_scion(sa.addr) + seq![58u8] + digits_of(sa.port as int, 10)
}

#[derive(Copy, Clone, Eq, PartialEq, Ord, PartialOrd, Hash, Debug)]
pub struct SocketAddrScion {
    pub addr: ScionAddr,
    pub port: u16,
}

impl SocketAddrScion {
    /// Builds a socket address from a packed identifier, a host and a port.
    pub fn new(ia: u64, ip: IpAddr, port: u16) -> (r: SocketAddrScion)
        ensures
            r.addr.ia == ia,
            r.addr.host == ip,
            r.port == port,
    {
        SocketAddrScion { addr: ScionAddr::new(ia, ip), port }
    }

    /// Builds a socket address from a SCION address and a port.
    pub fn new1(add: ScionAddr, p: u16) -> (r: SocketAddrScion)
        ensures
            r.addr == add,
            r.port == p,
    {
        SocketAddrScion { addr: add, port: p }
    }

    /// The packed identifier of the address.
    pub fn ia(&self) -> (r: u64)
        ensures
            r == self.addr.ia,
    {
        self.addr.get_ia()
    }

    /// Replaces the packed identifier.
    pub fn set_ia(&mut self, ia: u64)
        ensures
            final(self).addr.ia == ia,
            final(self).addr.host == old(self).addr.host,
            final(self).port == old(self).port,
    {
        self.addr.set_ia(ia)
    }

    /// The host address.
    pub fn host(&self) -> (r: &IpAddr)
        ensures
            r == self.addr.host,
    {
        self.addr.get_host()
    }

    /// Replaces the host address.
    pub fn set_host(&mut self, new_ip: IpAddr)
        ensures
            final(self).addr.host == new_ip,
            final(self).addr.ia == old(self).addr.ia,
            final(self).port == old(self).port,
    {
        self.addr.set_host(new_ip);
    }

    /// The port.
    pub fn port(&self) -> (r: u16)
        ensures
            r == self.port,
    {
        self.port
    }

    /// Replaces the port.
    pub fn set_port(&mut self, new_port: u16)
        ensures
            final(self).port == new_port,
            final(self).addr == old(self).addr,
    {
        self.port = new_port;
    }

    /// The canonical text `ISD-AS,HOST:port` of the socket address.
    pub fn to_string(&self) -> (r: String)
        ensures
            r@ == ascii_chars(spec_fmt_socket_scion(*self)),
    {
        let mut out: Vec<u8> = Vec::new();
        write_scion_addr(&mut out, &self.addr);
        out.push(58);
        write_digits(&mut out, self.port as u64, 10);
        proof {
            assert(out@ =~= spec_fmt_socket_scion(*self));
        }
        ascii_string(&out)
    }
}

} // verus!
