//! IPv6 socket addresses: an IPv6 address with a 16-bit port, a flow label
//! and a scope id.

use vstd::prelude::*;
use crate::grammar::digits_of;
use crate::ip_v6_addr::Ipv6Addr;
use crate::text::ascii_chars;
use crate::text::ascii_string;
use crate::text::spec_fmt_ipv6;
use crate::text::write_digits;
use crate::text::write_ipv6;

verus! {

/// The canonical rendering of an IPv6 socket address: `[addr]:port`,
/// with `%scope` before the bracket when the scope id is nonzero.
pub open spec fn spec_fmt_socket_v6(sa: SocketAddrV6) -> Seq<u8> {
    seq![91u8] + spec_fmt_ipv6(sa.spec_ip().spec_segments()) + (if sa.spec_scope_id() != 0 {
        seq![37u8] + digits_of(sa.spec_scope_id() as int, 10)
    } else {
        Seq::empty()
    }) + seq![93u8, 58u8] + digits_of(sa.spec_port() as int, 10)
}

#[derive(Copy, Clone, Eq, PartialEq, Ord, PartialOrd, Hash, Debug)]
pub struct SocketAddrV6 {
    ip: Ipv6Addr,
    port: u16,
    flowinfo: u32,
    scope_id: u32,
}

impl SocketAddrV6 {
    pub closed spec fn spec_ip(self) -> Ipv6Addr {
        self.ip
    }

    pub closed spec fn spec_port(self) -> u16 {
        self.port
    }

    pub closed spec fn spec_flowinfo(self) -> u32 {
        self.flowinfo
    }

    pub closed spec fn spec_scope_id(self) -> u32 {
        self.scope_id
    }

    pub fn new(ip: Ipv6Addr, port: u16, flowinfo: u32, scope_id: u32) -> (r: SocketAddrV6)
        ensures
            r.spec_ip() == ip,
            r.spec_port() == port,
            r.spec_flowinfo() == flowinfo,
            r.spec_scope_id() == scope_id,
    {
        SocketAddrV6 { ip, port, flowinfo, scope_id }
    }

    pub fn ip(&self) -> (r: &Ipv6Addr)
        ensures
            r == self.spec_ip(),
    {
        &self.ip
    }

    pub fn set_ip(&mut self, new_ip: Ipv6Addr)
        ensures
            final(self).spec_ip() == new_ip,
            final(self).spec_port() == old(self).spec_port(),
            final(self).spec_flowinfo() == old(self).spec_flowinfo(),
            final(self).spec_scope_id() == old(self).spec_scope_id(),
    {
        self.ip = new_ip;
    }

    pub fn port(&self) -> (r: u16)
        ensures
            r == self.spec_port(),
    {
        self.port
    }

    pub fn set_port(&mut self, new_port: u16)
        ensures
            final(self).spec_port() == new_port,
            final(self).spec_ip() == old(self).spec_ip(),
            final(self).spec_flowinfo() == old(self).spec_flowinfo(),
            final(self).spec_scope_id() == old(self).spec_scope_id(),
    {
        self.port = new_port;
    }

    pub fn flowinfo(&self) -> (r: u32)
        ensures
            r == self.spec_flowinfo(),
    {
        self.flowinfo
    }

    pub fn set_flowinfo(&mut self, new_flowinfo: u32)
        ensures
            final(self).spec_flowinfo() == new_flowinfo,
            final(self).spec_ip() == old(self).spec_ip(),
            final(self).spec_port() == old(self).spec_port(),
            final(self).spec_scope_id() == old(self).spec_scope_id(),
    {
        self.flowinfo = new_flowinfo;
    }

    pub fn scope_id(&self) -> (r: u32)
        ensures
            r == self.spec_scope_id(),
    {
        self.scope_id
    }

    pub fn set_scope_id(&mut self, new_scope_id: u32)
        ensures
            final(self).spec_scope_id() == new_scope_id,
            final(self).spec_ip() == old(self).spec_ip(),
            final(self).spec_port() == old(self).spec_port(),
            final(self).spec_flowinfo() == old(self).spec_flowinfo(),
    {
        self.scope_id = new_scope_id;
    }

    /// The canonical text `[addr]:port` (with `%scope` when nonzero) of
    /// the socket address.
    pub fn to_string(&self) -> (r: String)
        ensures
            r@ == ascii_chars(spec_fmt_socket_v6(*self)),
    {
        let mut out: Vec<u8> = Vec::new();
        out.push(91);
        write_ipv6(&mut out, self.ip());
        if self.scope_id() != 0 {
            out.push(37);
            write_digits(&mut out, self.scope_id() as u64, 10);
        }
        out.push(93);
        out.push(58);
        write_digits(&mut out, self.port() as u64, 10);
        proof {
            assert(out@ =~= spec_fmt_socket_v6(*self));
        }
        ascii_string(&out)
    }
}

} // verus!
