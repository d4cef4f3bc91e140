//! SCION addresses: a packed 64-bit ISD/AS identifier paired with a host
//! IP address.
//!
//! The SCION numbering scheme is a superset of the BGP AS numbering
//! scheme: AS numbers are 48 bits wide, and any value in the legacy 32-bit
//! BGP range is displayed as a decimal number, while larger values use a
//! 16-bit colon-separated lowercase hexadecimal form with leading zeros
//! omitted per group.

use vstd::prelude::*;
use crate::ip_addr::IpAddr;
use crate::scion_parse_utils::AS_BOUND;
use crate::scion_parse_utils::as_from_ia;
use crate::scion_parse_utils::ia_as;
use crate::scion_parse_utils::ia_isd;
use crate::scion_parse_utils::ia_of;
use crate::scion_parse_utils::isd_from_ia;
use crate::scion_parse_utils::make_ia;
use crate::scion_parse_utils::spec_as_to_dotted_hex;
use crate::scion_parse_utils::write_as_dotted_hex;
use crate::grammar::digits_of;
use crate::text::ascii_chars;
use crate::text::ascii_string;
use crate::text::is_text_byte;
use crate::text::spec_fmt_ip;
use crate::text::write_digits;
use crate::text::write_ip;

verus! {

/// The largest AS number of the legacy BGP range; values up to here are
/// displayed as decimals.
pub const MAX_BGP_AS_NR: u32 = 4294967295;

/// The canonical rendering of an AS number: plain decimal in the legacy
/// 32-bit BGP range, dotted hex above it.
pub open spec fn spec_format_as(v: int) -> Seq<u8> {
    if v <= 0xffffffff {
        digits_of(v, 10)
    } else {
        spec_as_to_dotted_hex(v)
    }
}

/// Appends the canonical rendering of an AS number.
pub(crate) fn write_format_as(out: &mut Vec<u8>, asn: u64)
    ensures
        final(out)@ == old(out)@ + spec_format_as(asn as int),
        forall|i: int|
            old(out)@.len() <= i < final(out)@.len() ==> is_text_byte(#[trigger] final(out)@[i]),
{
    if asn <= MAX_BGP_AS_NR as u64 {
        write_digits(out, asn, 10);
    } else {
        write_as_dotted_hex(out, asn);
    }
}

/// Renders an AS number canonically: decimal for values in the legacy
/// 32-bit BGP range, dotted hex for larger values.
#[allow(non_snake_case)]
pub fn format_AS(asn: u64) -> (r: String)
    ensures
        r@ == ascii_chars(spec_format_as(asn as int)),
{
    let mut out: Vec<u8> = Vec::new();
    write_format_as(&mut out, asn);
    proof {
        assert(out@ =~= spec_format_as(asn as int));
    }
    ascii_string(&out)
}

/// The canonical rendering of a SCION address `ISD-AS,HOST`.
pub open spec fn spec_fmt_scion(sa: ScionAddr) -> Seq<u8> {
    digits_of(ia_isd(sa.ia), 10) + seq![45u8] + spec_format_as(ia_as(sa.ia)) + seq![44u8]
        + spec_fmt_ip(sa.host)
}

/// Appends the canonical rendering of a SCION address.
pub(crate) fn write_scion_addr(out: &mut Vec<u8>, sa: &ScionAddr)
    ensures
        final(out)@ == old(out)@ + spec_fmt_scion(*sa),
        forall|i: int|
            old(out)@.len() <= i < final(out)@.len() ==> is_text_byte(#[trigger] final(out)@[i]),
{
    let isd = isd_from_ia(sa.ia);
    let as_ = as_from_ia(sa.ia);
    write_digits(out, isd as u64, 10);
    out.push(45);
    write_format_as(out, as_);
    out.push(44);
    write_ip(out, &sa.host);
    proof {
        assert(out@ =~= old(out)@ + spec_fmt_scion(*sa));
    }
}

#[derive(Copy, Clone, PartialEq, Eq, Hash, PartialOrd, Ord, Debug)]
pub struct ScionAddr {
    pub ia: u64,
    pub host: IpAddr,
}

impl ScionAddr {
    /// Builds an address from an already-packed identifier and a host.
    pub fn new(_ia: u64, _host: IpAddr) -> (r: ScionAddr)
        ensures
            r.ia == _ia,
            r.host == _host,
    {
        ScionAddr { ia: _ia, host: _host }
    }

    /// Builds an address from its ISD, AS number and host.
    pub fn new1(_isd: u16, _as: u64, _host: IpAddr) -> (r: ScionAddr)
        requires
            _as < AS_BOUND,
        ensures
            r.ia == ia_of(_isd, _as),
            r.host == _host,
    {
        ScionAddr { ia: make_ia(_isd, _as), host: _host }
    }

    /// Replaces the packed identifier.
    pub fn set_ia(&mut self, ia_: u64)
        ensures
            final(self).ia == ia_,
            final(self).host == old(self).host,
    {
        self.ia = ia_;
    }

    /// The packed identifier.
    pub fn get_ia(&self) -> (r: u64)
        ensures
            r == self.ia,
    {
        self.ia
    }

    /// Replaces the ISD component, keeping the AS number.
    pub fn set_isd(&mut self, isd_: u16)
        ensures
            final(self).ia == ia_of(isd_, ia_as(old(self).ia) as u64),
            final(self).host == old(self).host,
    {
        let as_ = self.get_as();
        self.set_ia(make_ia(isd_, as_));
    }

    /// The ISD component of the identifier.
    pub fn get_isd(&self) -> (r: u16)
        ensures
            r == ia_isd(self.ia),
    {
        isd_from_ia(self.get_ia())
    }

    /// The AS-number component of the identifier.
    pub fn get_as(&self) -> (r: u64)
        ensures
            r == ia_as(self.ia),
            r < AS_BOUND,
    {
        as_from_ia(self.get_ia())
    }

    /// Replaces the AS-number component, keeping the ISD.
    pub fn set_as(&mut self, as_: u64)
        requires
            as_ < AS_BOUND,
        ensures
            final(self).ia == ia_of(ia_isd(old(self).ia) as u16, as_),
            final(self).host == old(self).host,
    {
        let isd = self.get_isd();
        self.set_ia(make_ia(isd, as_));
    }

    /// The host address.
    pub fn get_host(&self) -> (r: &IpAddr)
        ensures
            r == self.host,
    {
        &self.host
    }

    /// Replaces the host address.
    pub fn set_host(&mut self, h: IpAddr)
        ensures
            final(self).host == h,
            final(self).ia == old(self).ia,
    {
        self.host = h;
    }

    /// The canonical text `ISD-AS,HOST` of the address.
    pub fn to_string(&self) -> (r: String)
        ensures
            r@ == ascii_chars(spec_fmt_scion(*self)),
    {
        let mut out: Vec<u8> = Vec::new();
        write_scion_addr(&mut out, self);
        proof {
            assert(out@ =~= spec_fmt_scion(*self));
        }
        ascii_string(&out)
    }
}

} // verus!
