//! IPv4 socket addresses: an IPv4 address with a 16-bit port.

use vstd::prelude::*;
use crate::grammar::digits_of;
use crate::ip_v4_addr::Ipv4Addr;
use crate::text::ascii_chars;
use crate::text::ascii_string;
use crate::text::spec_fmt_ipv4;
use crate::text::write_digits;
use crate::text::write_ipv4;

verus! {

/// The canonical rendering of an IPv4 socket address `a.b.c.d:port`.
pub open spec fn spec_fmt_socket_v4(sa: SocketAddrV4) -> Seq<u8> {
    spec_fmt_ipv4(sa.spec_ip()@) + seq![58u8] + digits_of(sa.spec_port() as int, 10)
}

#[derive(Copy, Clone, Eq, PartialEq, Ord, PartialOrd, Hash, Debug)]
pub struct SocketAddrV4 {
    ip: Ipv4Addr,
    port: u16,
}

impl SocketAddrV4 {
    pub closed spec fn spec_ip(self) -> Ipv4Addr {
        self.ip
    }

    pub closed spec fn spec_port(self) -> u16 {
        self.port
    }

    pub fn new(ip: Ipv4Addr, port: u16) -> (r: SocketAddrV4)
        ensures
            r.spec_ip() == ip,
            r.spec_port() == port,
    {
        SocketAddrV4 { ip, port }
    }

    pub fn ip(&self) -> (r: &Ipv4Addr)
        ensures
            r == self.spec_ip(),
    {
        &self.ip
    }

    pub fn set_ip(&mut self, new_ip: Ipv4Addr)
        ensures
            final(self).spec_ip() == new_ip,
            final(self).spec_port() == old(self).spec_port(),
    {
        self.ip = new_ip;
    }

    pub fn port(&self) -> (r: u16)
        ensures
            r == self.spec_port(),
    {
        self.port
    }

    pub fn set_port(&mut self, new_port: u16)
        ensures
            final(self).spec_port() == new_port,
            final(self).spec_ip() == old(self).spec_ip(),
    {
        self.port = new_port;
    }

    /// The canonical text `a.b.c.d:port` of the socket address.
    pub fn to_string(&self) -> (r: String)
        ensures
            r@ == ascii_chars(spec_fmt_socket_v4(*self)),
    {
        let mut out: Vec<u8> = Vec::new();
        let o = self.ip().octets();
        write_ipv4(&mut out, o[0], o[1], o[2], o[3]);
        out.push(58);
        write_digits(&mut out, self.port() as u64, 10);
        proof {
            assert(seq![o@[0], o@[1], o@[2], o@[3]] =~= self.spec_ip()@);
            assert(out@ =~= spec_fmt_socket_v4(*self));
        }
        ascii_string(&out)
    }
}

} // verus!
