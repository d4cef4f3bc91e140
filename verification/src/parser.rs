//! The character-level scanner and the grammar readers built on it.
//!
//! The scanner is a cursor over an ASCII byte slice.  Every reader is
//! atomic: when it fails it restores the cursor to its pre-attempt
//! position, so callers can try alternative grammars freely.  Each exec
//! reader is proved to return exactly what its spec-level counterpart
//! (`spec_read_number`, `spec_read_ipv4`, ...) says about the remaining
//! input.

use vstd::prelude::*;
use crate::grammar::digit_run_len;
use crate::ip_v4_addr::Ipv4Addr;
use crate::ip_v6_addr::Ipv6Addr;
use crate::ip_addr::IpAddr;
use crate::scion_addr::ScionAddr;
use crate::sock_addr_scion::SocketAddrScion;
use crate::sock_addr_v4::SocketAddrV4;
use crate::sock_addr_v6::SocketAddrV6;
use crate::socket_addr::AddrKind;
use crate::socket_addr::AddrParseError;
use crate::socket_addr::SocketAddr;
use crate::grammar::digit_value;
use crate::grammar::digits_value;
use crate::grammar::is_digit;
use crate::grammar::lemma_digit_run;
use crate::grammar::lemma_digits_value_nonneg;
use crate::grammar::lemma_digits_value_prefix_le;
use crate::grammar::spec_read_number;

verus! {

/// Does `s` begin with the byte `c`?
pub open spec fn starts_with(s: Seq<u8>, c: u8) -> bool {
    s.len() > 0 && s[0] == c
}

/// What the IPv4 reader yields on `s`: four octets and the bytes consumed
/// by `a.b.c.d`, or nothing.  Each group is 1-3 decimal digits, value at
/// most 255, leading zeros disallowed.
pub open spec fn spec_read_ipv4(s: Seq<u8>) -> Option<(Seq<u8>, int)> {
    match spec_read_number(s, 10, Some(3), false, 255) {
        None => None,
        Some((a, n0)) => {
            let s1 = s.skip(n0);
            if !starts_with(s1, 46) {
                None
            } else {
                match spec_read_number(s1.skip(1), 10, Some(3), false, 255) {
                    None => None,
                    Some((b, n1)) => {
                        let s2 = s1.skip(1 + n1);
                        if !starts_with(s2, 46) {
                            None
                        } else {
                            match spec_read_number(s2.skip(1), 10, Some(3), false, 255) {
                                None => None,
                                Some((c, n2)) => {
                                    let s3 = s2.skip(1 + n2);
                                    if !starts_with(s3, 46) {
                                        None
                                    } else {
                                        match spec_read_number(s3.skip(1), 10, Some(3), false, 255) {
                                            None => None,
                                            Some((d, n3)) => Some(
                                                (
                                                    seq![a as u8, b as u8, c as u8, d as u8],
                                                    n0 + 1 + n1 + 1 + n2 + 1 + n3,
                                                ),
                                            ),
                                        }
                                    }
                                },
                            }
                        }
                    },
                }
            }
        },
    }
}

/// What the port reader yields: a `:` followed by a decimal port, any
/// digit count, leading zeros allowed.
pub open spec fn spec_read_port(s: Seq<u8>) -> Option<(int, int)> {
    if !starts_with(s, 58) {
        None
    } else {
        match spec_read_number(s.skip(1), 10, None, true, 65535) {
            None => None,
            Some((v, n)) => Some((v, 1 + n)),
        }
    }
}

/// What the scope-id reader yields: a `%` followed by a decimal number.
pub open spec fn spec_read_scope_id(s: Seq<u8>) -> Option<(int, int)> {
    if !starts_with(s, 37) {
        None
    } else {
        match spec_read_number(s.skip(1), 10, None, true, 0xffffffff) {
            None => None,
            Some((v, n)) => Some((v, 1 + n)),
        }
    }
}

/// What an embedded-IPv4 attempt yields at group index `i`: a `:` when
/// `i > 0`, then a whole IPv4 literal.
pub open spec fn spec_sep_ipv4(s: Seq<u8>, first: bool) -> Option<(Seq<u8>, int)> {
    if first {
        spec_read_ipv4(s)
    } else if starts_with(s, 58) {
        match spec_read_ipv4(s.skip(1)) {
            None => None,
            Some((o, n)) => Some((o, 1 + n)),
        }
    } else {
        None
    }
}

/// What a hex-group attempt yields at group index `i`: a `:` when `i > 0`,
/// then up to four hex digits, leading zeros allowed.
pub open spec fn spec_sep_group(s: Seq<u8>, first: bool) -> Option<(int, int)> {
    if first {
        spec_read_number(s, 16, Some(4), true, 0xffff)
    } else if starts_with(s, 58) {
        match spec_read_number(s.skip(1), 16, Some(4), true, 0xffff) {
            None => None,
            Some((g, n)) => Some((g, 1 + n)),
        }
    } else {
        None
    }
}

/// What the group scanner yields with `slots` slots left: the group
/// values read, the bytes consumed, and whether a trailing embedded IPv4
/// literal (filling two slots and ending the scan) was read.  The
/// embedded-IPv4 attempt is made first whenever at least two slots remain.
pub open spec fn spec_read_groups(s: Seq<u8>, slots: int, first: bool) -> (Seq<u16>, int, bool)
    decreases slots,
{
    if slots <= 0 {
        (Seq::empty(), 0, false)
    } else {
        let emb = if slots >= 2 {
            spec_sep_ipv4(s, first)
        } else {
            None
        };
        match emb {
            Some((o, n)) => (
                seq![(o[0] * 0x100 + o[1]) as u16, (o[2] * 0x100 + o[3]) as u16],
                n,
                true,
            ),
            None => match spec_sep_group(s, first) {
                None => (Seq::empty(), 0, false),
                Some((g, n)) => {
                    let rst = spec_read_groups(s.skip(n), slots - 1, false);
                    (seq![g as u16] + rst.0, n + rst.1, rst.2)
                },
            },
        }
    }
}

/// A run of `n` all-zero groups.
pub open spec fn zero_groups(n: int) -> Seq<u16> {
    Seq::new(n as nat, |i: int| 0u16)
}

/// What the IPv6 reader yields: eight 16-bit groups and the bytes
/// consumed.  Either eight groups are read outright, or fewer groups
/// followed by `::` and a tail, the gap standing for zero groups; an
/// embedded IPv4 literal may not appear before the `::`.
pub open spec fn spec_read_ipv6(s: Seq<u8>) -> Option<(Seq<u16>, int)> {
    let h = spec_read_groups(s, 8, true);
    if h.0.len() == 8 {
        Some((h.0, h.1))
    } else if h.2 {
        None
    } else {
        let s1 = s.skip(h.1);
        if starts_with(s1, 58) && starts_with(s1.skip(1), 58) {
            let t = spec_read_groups(s1.skip(2), 8 - h.0.len() - 1, true);
            Some((h.0 + zero_groups(8 - h.0.len() - t.0.len()) + t.0, h.1 + 2 + t.1))
        } else {
            None
        }
    }
}

/// Bounds of the group scanner: it consumes within `s` and reads at most
/// `slots` groups.
pub proof fn lemma_read_groups_bounds(s: Seq<u8>, slots: int, first: bool)
    requires
        slots >= 0,
    ensures
        ({
            let gs = spec_read_groups(s, slots, first);
            0 <= gs.1 <= s.len() && gs.0.len() <= slots
        }),
    decreases slots,
{
    lemma_read_ipv4_bounds(s);
    if s.len() > 0 {
        lemma_read_ipv4_bounds(s.skip(1));
        crate::grammar::lemma_read_number_bounds(s.skip(1), 16, Some(4), true, 0xffff);
    }
    crate::grammar::lemma_read_number_bounds(s, 16, Some(4), true, 0xffff);
    if slots > 0 {
        match spec_sep_group(s, first) {
            None => {},
            Some((g, n)) => {
                lemma_read_groups_bounds(s.skip(n), slots - 1, false);
            },
        }
    }
}

/// Bounds of the IPv4 reader: it consumes at least one byte and stays
/// within `s`.
pub proof fn lemma_read_ipv4_bounds(s: Seq<u8>)
    ensures
        spec_read_ipv4(s) matches Some(on) ==> 0 < on.1 <= s.len() && on.0.len() == 4,
{
    crate::grammar::lemma_read_number_bounds(s, 10, Some(3), false, 255);
    match spec_read_number(s, 10, Some(3), false, 255) {
        None => {},
        Some((a, n0)) => {
            let s1 = s.skip(n0);
            crate::grammar::lemma_read_number_bounds(s1.skip(1), 10, Some(3), false, 255);
            match spec_read_number(s1.skip(1), 10, Some(3), false, 255) {
                None => {},
                Some((b, n1)) => {
                    let s2 = s1.skip(1 + n1);
                    crate::grammar::lemma_read_number_bounds(s2.skip(1), 10, Some(3), false, 255);
                    match spec_read_number(s2.skip(1), 10, Some(3), false, 255) {
                        None => {},
                        Some((c, n2)) => {
                            let s3 = s2.skip(1 + n2);
                            crate::grammar::lemma_read_number_bounds(
                                s3.skip(1),
                                10,
                                Some(3),
                                false,
                                255,
                            );
                        },
                    }
                },
            }
        },
    }
}


/// A host value at specification level: four octets or eight groups.
pub ghost enum SpecHost {
    V4(Seq<u8>),
    V6(Seq<u16>),
}

/// Does the address `ip` hold exactly the host value `h`?
pub open spec fn host_matches(h: SpecHost, ip: IpAddr) -> bool {
    match h {
        SpecHost::V4(o) => ip matches IpAddr::V4(v) && v@ == o,
        SpecHost::V6(g) => ip matches IpAddr::V6(v) && v.spec_segments() == g,
    }
}

/// What the IP reader yields: an IPv4 literal if one is present, else an
/// IPv6 literal.
pub open spec fn spec_read_ip(s: Seq<u8>) -> Option<(SpecHost, int)> {
    match spec_read_ipv4(s) {
        Some((o, n)) => Some((SpecHost::V4(o), n)),
        None => match spec_read_ipv6(s) {
            Some((g, n)) => Some((SpecHost::V6(g), n)),
            None => None,
        },
    }
}

/// What the AS-number reader yields: one hex group of up to four digits
/// (the short form), or exactly three colon-separated groups packed as a
/// 48-bit value.  A two-group form is rejected.
pub open spec fn spec_read_as(s: Seq<u8>) -> Option<(int, int)> {
    match spec_read_number(s, 16, Some(4), true, 0xffff) {
        None => None,
        Some((g0, n0)) => {
            let s1 = s.skip(n0);
            if !starts_with(s1, 58) {
                Some((g0, n0))
            } else {
                match spec_read_number(s1.skip(1), 16, Some(4), true, 0xffff) {
                    None => Some((g0, n0)),
                    Some((g1, n1)) => {
                        let s2 = s1.skip(1 + n1);
                        if !starts_with(s2, 58) {
                            None
                        } else {
                            match spec_read_number(s2.skip(1), 16, Some(4), true, 0xffff) {
                                None => None,
                                Some((g2, n2)) => Some(
                                    (
                                        g0 * 0x100000000 + g1 * 0x10000 + g2,
                                        n0 + 1 + n1 + 1 + n2,
                                    ),
                                ),
                            }
                        }
                    },
                }
            }
        },
    }
}

/// What the SCION-address reader yields: a decimal ISD of up to six
/// digits, `-`, an AS number, `,`, and a host that may sit in brackets
/// (each bracket is consumed when present, not validated for balance).
/// The value is the packed identifier and the host.
pub open spec fn spec_read_scion(s: Seq<u8>) -> Option<((int, SpecHost), int)> {
    match spec_read_number(s, 10, Some(6), true, 65535) {
        None => None,
        Some((isd, n0)) => {
            let s1 = s.skip(n0);
            if !starts_with(s1, 45) {
                None
            } else {
                match spec_read_as(s1.skip(1)) {
                    None => None,
                    Some((as_, n1)) => {
                        let s2 = s1.skip(1 + n1);
                        if !starts_with(s2, 44) {
                            None
                        } else {
                            let s3 = s2.skip(1);
                            let br1: int = if starts_with(s3, 91) {
                                1
                            } else {
                                0
                            };
                            match spec_read_ip(s3.skip(br1)) {
                                None => None,
                                Some((h, n2)) => {
                                    let s4 = s3.skip(br1 + n2);
                                    let br2: int = if starts_with(s4, 93) {
                                        1
                                    } else {
                                        0
                                    };
                                    Some(
                                        (
                                            (isd * 0x1000000000000 + as_, h),
                                            n0 + 1 + n1 + 1 + br1 + n2 + br2,
                                        ),
                                    )
                                },
                            }
                        }
                    },
                }
            }
        },
    }
}

/// A socket-address value at specification level.
pub ghost enum SpecSocket {
    V4(Seq<u8>, int),
    V6(Seq<u16>, int, int),
    Scion(int, SpecHost, int),
}

/// Does the endpoint `sa` hold exactly the socket value `ss`?  A parsed
/// V6 endpoint always has flow label zero.
pub open spec fn socket_matches(ss: SpecSocket, sa: SocketAddr) -> bool {
    match ss {
        SpecSocket::V4(o, p) => sa matches SocketAddr::V4(a) && a.spec_ip()@ == o
            && a.spec_port() == p,
        SpecSocket::V6(g, scope, p) => sa matches SocketAddr::V6(a)
            && a.spec_ip().spec_segments() == g && a.spec_scope_id() == scope && a.spec_port()
            == p && a.spec_flowinfo() == 0,
        SpecSocket::Scion(ia, h, p) => sa matches SocketAddr::SCION(a) && a.addr.ia == ia
            && host_matches(h, a.addr.host) && a.port == p,
    }
}

/// What the IPv4-socket reader yields: an IPv4 literal followed by a port.
pub open spec fn spec_read_socket_v4(s: Seq<u8>) -> Option<((Seq<u8>, int), int)> {
    match spec_read_ipv4(s) {
        None => None,
        Some((o, n)) => match spec_read_port(s.skip(n)) {
            None => None,
            Some((p, m)) => Some(((o, p), n + m)),
        },
    }
}

/// What the IPv6-socket reader yields: `[`, an IPv6 literal, an optional
/// `%scope`, `]`, then a port.  The flow label of a parsed endpoint is
/// zero.
pub open spec fn spec_read_socket_v6(s: Seq<u8>) -> Option<((Seq<u16>, int, int), int)> {
    if !starts_with(s, 91) {
        None
    } else {
        match spec_read_ipv6(s.skip(1)) {
            None => None,
            Some((g, n0)) => {
                let s1 = s.skip(1 + n0);
                let sc = spec_read_scope_id(s1);
                let scope: int = match sc {
                    Some((v, m)) => v,
                    None => 0,
                };
                let n1: int = match sc {
                    Some((v, m)) => m,
                    None => 0,
                };
                let s2 = s1.skip(n1);
                if !starts_with(s2, 93) {
                    None
                } else {
                    match spec_read_port(s2.skip(1)) {
                        None => None,
                        Some((p, n2)) => Some(((g, scope, p), 1 + n0 + n1 + 1 + n2)),
                    }
                }
            },
        }
    }
}

/// What the SCION-socket reader yields: a SCION address followed by a
/// port.
pub open spec fn spec_read_socket_scion(s: Seq<u8>) -> Option<((int, SpecHost, int), int)> {
    match spec_read_scion(s) {
        None => None,
        Some(((ia, h), n)) => match spec_read_port(s.skip(n)) {
            None => None,
            Some((p, m)) => Some(((ia, h, p), n + m)),
        },
    }
}

/// What the socket reader yields: the first of the IPv4, IPv6 and SCION
/// socket grammars whose reader matches a prefix.
pub open spec fn spec_read_socket(s: Seq<u8>) -> Option<(SpecSocket, int)> {
    match spec_read_socket_v4(s) {
        Some(((o, p), n)) => Some((SpecSocket::V4(o, p), n)),
        None => match spec_read_socket_v6(s) {
            Some(((g, scope, p), n)) => Some((SpecSocket::V6(g, scope, p), n)),
            None => match spec_read_socket_scion(s) {
                Some(((ia, h, p), n)) => Some((SpecSocket::Scion(ia, h, p), n)),
                None => None,
            },
        },
    }
}

pub struct Parser<'a> {
    input: &'a [u8],
    pos: usize,
}

impl<'a> Parser<'a> {
    /// The cursor never passes the end of the input.
    pub closed spec fn wf(self) -> bool {
        self.pos <= self.input@.len()
    }

    /// The whole input under the scanner.
    pub closed spec fn spec_input(self) -> Seq<u8> {
        self.input@
    }

    /// The remaining suffix: everything at and after the cursor.
    pub closed spec fn rem(self) -> Seq<u8> {
        self.input@.skip(self.pos as int)
    }

    /// Builds a scanner over `input` with the cursor at the start.
    pub fn new(input: &'a [u8]) -> (r: Parser<'a>)
        ensures
            r.wf(),
            r.spec_input() == input@,
            r.rem() == input@,
    {
        let r = Parser { input, pos: 0 };
        proof {
            assert(r.rem() =~= input@);
        }
        r
    }

    /// Is `b` a digit of the given radix?
    fn is_digit_byte(b: u8, radix: u32) -> (r: bool)
        requires
            radix == 10 || radix == 16,
        ensures
            r == is_digit(b, radix as int),
    {
        (48 <= b && b <= 57) || (radix == 16 && ((97 <= b && b <= 102) || (65 <= b && b <= 70)))
    }

    /// The value of digit `b`.
    fn digit_val_byte(b: u8, radix: u32) -> (r: u64)
        requires
            radix == 10 || radix == 16,
            is_digit(b, radix as int),
        ensures
            r == digit_value(b, radix as int),
            r < radix,
    {
        if b <= 57 {
            (b - 48) as u64
        } else if b >= 97 {
            (b - 87) as u64
        } else {
            (b - 55) as u64
        }
    }

    /// Consumes the next byte iff it equals `target`; atomic.
    fn read_given_char(&mut self, target: u8) -> (r: bool)
        requires
            old(self).wf(),
        ensures
            final(self).wf(),
            final(self).spec_input() == old(self).spec_input(),
            starts_with(old(self).rem(), target) ==> r && final(self).rem() == old(
                self,
            ).rem().skip(1),
            !starts_with(old(self).rem(), target) ==> !r && final(self).rem() == old(self).rem(),
    {
        if self.pos < self.input.len() && self.input[self.pos] == target {
            proof {
                assert(self.input@.skip(self.pos + 1 as int) =~= self.rem().skip(1));
            }
            self.pos = self.pos + 1;
            true
        } else {
            false
        }
    }

    /// Reads a number off the front of the input in the given radix,
    /// stopping at the first non-digit or the end.  Fails — consuming
    /// nothing — when there is no digit, the run is longer than
    /// `max_digits`, the value exceeds `cap`, or a forbidden leading zero
    /// appears.
    fn read_number(
        &mut self,
        radix: u32,
        max_digits: Option<usize>,
        allow_zero_prefix: bool,
        cap: u64,
    ) -> (r: Option<u64>)
        requires
            old(self).wf(),
            radix == 10 || radix == 16,
            cap <= 0xffffffff,
        ensures
            final(self).wf(),
            final(self).spec_input() == old(self).spec_input(),
            match spec_read_number(
                old(self).rem(),
                radix as int,
                max_digits,
                allow_zero_prefix,
                cap as int,
            ) {
                Some(vn) => r == Some(vn.0 as u64) && 0 <= vn.0 <= cap && 0 < vn.1 <= old(
                    self,
                ).rem().len() && final(self).rem() == old(self).rem().skip(vn.1),
                None => r is None && final(self).rem() == old(self).rem(),
            },
    {
        let ghost s0 = self.rem();
        let start = self.pos;
        let mut acc: u64 = 0;
        let mut count: usize = 0;
        let has_leading_zero = self.pos < self.input.len() && self.input[self.pos] == 48;
        proof {
            assert(s0.len() > 0 ==> s0[0] == self.input@[self.pos as int]);
        }
        while self.pos < self.input.len() && Self::is_digit_byte(self.input[self.pos], radix)
            invariant
                self.wf(),
                radix == 10 || radix == 16,
                cap <= 0xffffffff,
                self.spec_input() == old(self).spec_input(),
                start + count == self.pos,
                start <= self.pos <= self.spec_input().len(),
                s0 == self.spec_input().skip(start as int),
                s0 == old(self).rem(),
                digit_run_len(s0, radix as int) == count + digit_run_len(self.rem(), radix as int),
                acc == digits_value(s0.take(count as int), radix as int),
                acc <= cap,
                match max_digits {
                    Some(m) => count <= m,
                    None => true,
                },
            decreases self.spec_input().len() - self.pos,
        {
            let b = self.input[self.pos];
            let d = Self::digit_val_byte(b, radix);
            proof {
                assert(self.rem()[0] == b);
                assert(self.rem().skip(1) =~= self.spec_input().skip(self.pos + 1 as int));
                assert(s0.take(count + 1 as int).drop_last() =~= s0.take(count as int));
                assert(s0[count as int] == b);
                assert(s0.take(count + 1 as int).last() == b);
                lemma_digits_value_nonneg(s0.take(count as int), radix as int);
                assert(acc * radix + d <= 0xffffffffu64 * 16 + 15) by (nonlinear_arith)
                    requires
                        acc <= 0xffffffffu64,
                        radix <= 16,
                        d < 16,
                ;
            }
            self.pos = self.pos + 1;
            acc = acc * (radix as u64) + d;
            count = count + 1;
            proof {
                lemma_digit_run(self.rem(), radix as int);
                assert(digit_run_len(s0, radix as int) == count + digit_run_len(
                    self.rem(),
                    radix as int,
                ));
                assert(digits_value(s0.take(count as int), radix as int) == acc);
            }
            if acc > cap {
                proof {
                    let k = digit_run_len(s0, radix as int);
                    assert(k >= count);
                    assert(s0.take(k).take(count as int) =~= s0.take(count as int));
                    lemma_digits_value_prefix_le(s0.take(k), radix as int, count as int);
                    assert(digits_value(s0.take(k), radix as int) > cap);
                    assert(self.spec_input().skip(start as int) =~= s0);
                    assert(spec_read_number(
                        s0,
                        radix as int,
                        max_digits,
                        allow_zero_prefix,
                        cap as int,
                    ) is None);
                }
                self.pos = start;
                return None;
            }
            if let Some(m) = max_digits {
                if count > m {
                    proof {
                        assert(digit_run_len(s0, radix as int) >= count);
                        assert(self.spec_input().skip(start as int) =~= s0);
                        assert(spec_read_number(
                            s0,
                            radix as int,
                            max_digits,
                            allow_zero_prefix,
                            cap as int,
                        ) is None);
                    }
                    self.pos = start;
                    return None;
                }
            }
        }
        proof {
            if self.pos < self.spec_input().len() {
                assert(self.rem()[0] == self.spec_input()[self.pos as int]);
            }
            assert(digit_run_len(self.rem(), radix as int) == 0);
            assert(digit_run_len(s0, radix as int) == count);
        }
        if count == 0 {
            return None;
        }
        if !allow_zero_prefix && has_leading_zero && count > 1 {
            proof {
                assert(self.spec_input().skip(start as int) =~= s0);
            }
            self.pos = start;
            return None;
        }
        proof {
            lemma_digit_run(s0, radix as int);
            assert(s0.take(count as int) =~= s0.take(digit_run_len(s0, radix as int)));
            assert(self.rem() =~= s0.skip(count as int));
        }
        Some(acc)
    }

    /// Reads an IPv4 address in dotted-decimal form; atomic.
    pub fn read_ipv4_addr(&mut self) -> (r: Option<Ipv4Addr>)
        requires
            old(self).wf(),
        ensures
            final(self).wf(),
            final(self).spec_input() == old(self).spec_input(),
            match spec_read_ipv4(old(self).rem()) {
                Some(on) => r matches Some(ip) && ip@ == on.0 && 0 < on.1 <= old(
                    self,
                ).rem().len() && final(self).rem() == old(self).rem().skip(on.1),
                None => r is None && final(self).rem() == old(self).rem(),
            },
    {
        let ghost s0 = self.rem();
        let start = self.pos;
        let a = match self.read_number(10, Some(3), false, 255) {
            Some(v) => v,
            None => {
                return None;
            },
        };
        if !self.read_given_char(46) {
            self.pos = start;
            return None;
        }
        proof {
            let n0 = spec_read_number(s0, 10, Some(3), false, 255).unwrap().1;
            assert(s0.skip(n0).skip(1) =~= self.rem());
        }
        let b = match self.read_number(10, Some(3), false, 255) {
            Some(v) => v,
            None => {
                self.pos = start;
                return None;
            },
        };
        if !self.read_given_char(46) {
            self.pos = start;
            return None;
        }
        proof {
            let n0 = spec_read_number(s0, 10, Some(3), false, 255).unwrap().1;
            let s1 = s0.skip(n0).skip(1);
            let n1 = spec_read_number(s1, 10, Some(3), false, 255).unwrap().1;
            assert(s1.skip(n1).skip(1) =~= self.rem());
            assert(s0.skip(n0).skip(1 + n1) =~= s1.skip(n1));
        }
        let c = match self.read_number(10, Some(3), false, 255) {
            Some(v) => v,
            None => {
                self.pos = start;
                return None;
            },
        };
        if !self.read_given_char(46) {
            self.pos = start;
            return None;
        }
        proof {
            let n0 = spec_read_number(s0, 10, Some(3), false, 255).unwrap().1;
            let s1 = s0.skip(n0).skip(1);
            let n1 = spec_read_number(s1, 10, Some(3), false, 255).unwrap().1;
            let s2 = s1.skip(n1).skip(1);
            let n2 = spec_read_number(s2, 10, Some(3), false, 255).unwrap().1;
            assert(s2.skip(n2).skip(1) =~= self.rem());
            assert(s1.skip(n1).skip(1 + n2) =~= s2.skip(n2));
        }
        let d = match self.read_number(10, Some(3), false, 255) {
            Some(v) => v,
            None => {
                self.pos = start;
                return None;
            },
        };
        let ip = Ipv4Addr::new(a as u8, b as u8, c as u8, d as u8);
        proof {
            lemma_read_ipv4_bounds(s0);
            let n0 = spec_read_number(s0, 10, Some(3), false, 255).unwrap().1;
            let s1 = s0.skip(n0).skip(1);
            let n1 = spec_read_number(s1, 10, Some(3), false, 255).unwrap().1;
            let s2 = s1.skip(n1).skip(1);
            let n2 = spec_read_number(s2, 10, Some(3), false, 255).unwrap().1;
            let s3 = s2.skip(n2).skip(1);
            let n3 = spec_read_number(s3, 10, Some(3), false, 255).unwrap().1;
            assert(s0.skip(n0 + 1 + n1 + 1 + n2 + 1 + n3) =~= s3.skip(n3));
        }
        Some(ip)
    }

    /// Reads colon-separated 16-bit groups into `groups`, at most `limit`
    /// of them, trying a trailing embedded IPv4 literal first whenever at
    /// least two slots remain.  Returns the groups read and whether the
    /// embedded-IPv4 path ended the scan.
    /// Reads a `:` (unless at the first group) followed by an embedded
    /// IPv4 literal; atomic.
    fn read_sep_ipv4(&mut self, first: bool) -> (r: Option<Ipv4Addr>)
        requires
            old(self).wf(),
        ensures
            final(self).wf(),
            final(self).spec_input() == old(self).spec_input(),
            match spec_sep_ipv4(old(self).rem(), first) {
                Some(on) => r matches Some(ip) && ip@ == on.0 && 0 < on.1 <= old(
                    self,
                ).rem().len() && final(self).rem() == old(self).rem().skip(on.1),
                None => r is None && final(self).rem() == old(self).rem(),
            },
    {
        let ghost s0 = self.rem();
        let start = self.pos;
        if !first {
            if !self.read_given_char(58) {
                return None;
            }
        }
        proof {
            lemma_read_ipv4_bounds(s0);
            if s0.len() > 0 {
                lemma_read_ipv4_bounds(s0.skip(1));
            }
        }
        match self.read_ipv4_addr() {
            Some(ip) => {
                proof {
                    if !first {
                        let n = spec_read_ipv4(s0.skip(1)).unwrap().1;
                        assert(s0.skip(1).skip(n) =~= s0.skip(1 + n));
                    }
                }
                Some(ip)
            },
            None => {
                self.pos = start;
                proof {
                    assert(self.rem() =~= s0);
                }
                None
            },
        }
    }

    /// Reads a `:` (unless at the first group) followed by a 16-bit hex
    /// group; atomic.
    fn read_sep_group(&mut self, first: bool) -> (r: Option<u16>)
        requires
            old(self).wf(),
        ensures
            final(self).wf(),
            final(self).spec_input() == old(self).spec_input(),
            match spec_sep_group(old(self).rem(), first) {
                Some(vn) => r == Some(vn.0 as u16) && 0 <= vn.0 <= 0xffff && 0 < vn.1 <= old(
                    self,
                ).rem().len() && final(self).rem() == old(self).rem().skip(vn.1),
                None => r is None && final(self).rem() == old(self).rem(),
            },
    {
        let ghost s0 = self.rem();
        let start = self.pos;
        if !first {
            if !self.read_given_char(58) {
                return None;
            }
        }
        match self.read_number(16, Some(4), true, 0xffff) {
            Some(g) => {
                proof {
                    if !first {
                        let n = spec_read_number(s0.skip(1), 16, Some(4), true, 0xffff).unwrap().1;
                        assert(s0.skip(1).skip(n) =~= s0.skip(1 + n));
                    }
                }
                Some(g as u16)
            },
            None => {
                self.pos = start;
                proof {
                    assert(self.rem() =~= s0);
                }
                None
            },
        }
    }

    /// Reads colon-separated 16-bit groups, at most `limit` of them,
    /// trying a trailing embedded IPv4 literal first whenever at least two
    /// slots remain.  Returns the groups read and whether the
    /// embedded-IPv4 path ended the scan.
    #[verifier::spinoff_prover]
    #[verifier::rlimit(100)]
    fn read_ipv6_groups(&mut self, limit: usize) -> (r: (Vec<u16>, bool))
        requires
            old(self).wf(),
            limit <= 8,
        ensures
            final(self).wf(),
            final(self).spec_input() == old(self).spec_input(),
            ({
                let gs = spec_read_groups(old(self).rem(), limit as int, true);
                r.0@ == gs.0 && r.1 == gs.2 && final(self).rem() == old(self).rem().skip(gs.1)
            }),
    {
        let ghost s0 = self.rem();
        let ghost target = spec_read_groups(s0, limit as int, true);
        let mut groups: Vec<u16> = Vec::new();
        let ghost mut con: int = 0;
        proof {
            assert(s0.skip(0) =~= s0);
        }
        while groups.len() < limit
            invariant
                self.wf(),
                limit <= 8,
                self.spec_input() == old(self).spec_input(),
                s0 == old(self).rem(),
                0 <= con <= s0.len(),
                self.rem() == s0.skip(con),
                groups@.len() <= limit,
                target == spec_read_groups(s0, limit as int, true),
                ({
                    let rst = spec_read_groups(
                        self.rem(),
                        limit - groups@.len(),
                        groups@.len() == 0,
                    );
                    target.0 == groups@ + rst.0 && target.1 == con + rst.1 && target.2 == rst.2
                }),
            decreases limit - groups.len(),
        {
            let ghost rem0 = self.rem();
            let ghost slots = limit - groups@.len();
            let ghost first_g = groups@.len() == 0;
            let first = groups.len() == 0;
            if limit - groups.len() >= 2 {
                match self.read_sep_ipv4(first) {
                    Some(ip) => {
                        let o = ip.octets();
                        let g1 = (o[0] as u16) * 0x100 + (o[1] as u16);
                        let g2 = (o[2] as u16) * 0x100 + (o[3] as u16);
                        groups.push(g1);
                        groups.push(g2);
                        proof {
                            let n = spec_sep_ipv4(rem0, first_g).unwrap().1;
                            assert(rem0.skip(n) =~= s0.skip(con + n));
                            let rst = spec_read_groups(rem0, slots, first_g);
                            assert(rst.0 =~= seq![g1, g2]);
                            assert(target.0 =~= groups@);
                        }
                        return (groups, true);
                    },
                    None => {},
                }
            }
            match self.read_sep_group(first) {
                Some(g) => {
                    groups.push(g);
                    proof {
                        let n = spec_sep_group(rem0, first_g).unwrap().1;
                        con = con + n;
                        assert(rem0.skip(n) =~= s0.skip(con));
                        let rst = spec_read_groups(rem0, slots, first_g);
                        let rst2 = spec_read_groups(rem0.skip(n), slots - 1, false);
                        assert(rst.0 == seq![g] + rst2.0);
                        assert(target.0 =~= groups@ + rst2.0);
                    }
                },
                None => {
                    proof {
                        let rst = spec_read_groups(rem0, slots, first_g);
                        assert(rst.0 =~= Seq::<u16>::empty());
                        assert(target.0 =~= groups@);
                    }
                    return (groups, false);
                },
            }
        }
        proof {
            let rst = spec_read_groups(self.rem(), 0, false);
            assert(rst.0 =~= Seq::<u16>::empty());
            assert(target.0 =~= groups@);
        }
        (groups, false)
    }

    /// Reads an IPv6 address: up to eight colon-hex groups, with an
    /// optional `::` gap and an optional trailing embedded IPv4 literal;
    /// atomic.
    #[verifier::spinoff_prover]
    #[verifier::rlimit(100)]
    pub fn read_ipv6_addr(&mut self) -> (r: Option<Ipv6Addr>)
        requires
            old(self).wf(),
        ensures
            final(self).wf(),
            final(self).spec_input() == old(self).spec_input(),
            match spec_read_ipv6(old(self).rem()) {
                Some(gn) => r matches Some(ip) && ip.spec_segments() == gn.0 && 0 <= gn.1 <= old(
                    self,
                ).rem().len() && final(self).rem() == old(self).rem().skip(gn.1),
                None => r is None && final(self).rem() == old(self).rem(),
            },
    {
        let ghost s0 = self.rem();
        let start = self.pos;
        let (head, h_emb) = self.read_ipv6_groups(8);
        proof {
            lemma_read_groups_bounds(s0, 8, true);
        }
        if head.len() == 8 {
            return Some(Self::ipv6_from_groups(&head));
        }
        if h_emb {
            self.pos = start;
            proof {
                assert(self.rem() =~= s0);
            }
            return None;
        }
        let ghost h = spec_read_groups(s0, 8, true);
        if !self.read_given_char(58) {
            self.pos = start;
            proof {
                assert(self.rem() =~= s0);
            }
            return None;
        }
        if !self.read_given_char(58) {
            self.pos = start;
            proof {
                assert(self.rem() =~= s0);
            }
            return None;
        }
        proof {
            assert(self.rem() =~= s0.skip(h.1).skip(1).skip(1));
            assert(s0.skip(h.1).skip(1).skip(1) =~= s0.skip(h.1).skip(2));
        }
        let limit = 8 - head.len() - 1;
        let ghost s2 = self.rem();
        let (tail, _t_emb) = self.read_ipv6_groups(limit);
        proof {
            lemma_read_groups_bounds(s2, limit as int, true);
        }
        let ghost t = spec_read_groups(s2, limit as int, true);
        let mut full: Vec<u16> = head;
        let tl = tail.len();
        while full.len() < 8 - tl
            invariant
                h.0.len() + t.0.len() + 1 <= 8,
                tl == t.0.len(),
                h.0.len() <= full@.len() <= 8 - tl,
                full@ == h.0 + zero_groups(full@.len() - h.0.len()),
            decreases 8 - tl - full.len(),
        {
            full.push(0);
            proof {
                assert(full@ =~= h.0 + zero_groups(full@.len() - h.0.len()));
            }
        }
        let mut j: usize = 0;
        while j < tl
            invariant
                tl == t.0.len(),
                tail@ == t.0,
                h.0.len() + t.0.len() + 1 <= 8,
                0 <= j <= tl,
                full@ == h.0 + zero_groups(8 - h.0.len() - t.0.len()) + t.0.take(j as int),
                full@.len() == 8 - tl + j,
            decreases tl - j,
        {
            full.push(tail[j]);
            j = j + 1;
            proof {
                assert(full@ =~= h.0 + zero_groups(8 - h.0.len() - t.0.len()) + t.0.take(
                    j as int,
                ));
            }
        }
        proof {
            assert(t.0.take(tl as int) =~= t.0);
            assert(full@.len() == 8);
            assert(self.rem() =~= s0.skip(h.1 + 2 + t.1));
        }
        Some(Self::ipv6_from_groups(&full))
    }

    /// Builds an address from exactly eight group values.
    fn ipv6_from_groups(g: &Vec<u16>) -> (r: Ipv6Addr)
        requires
            g@.len() == 8,
        ensures
            r.spec_segments() == g@,
    {
        let r = Ipv6Addr::new(g[0], g[1], g[2], g[3], g[4], g[5], g[6], g[7]);
        proof {
            assert(r.spec_segments() =~= g@);
        }
        r
    }

    /// Reads a `:` followed by a decimal port; atomic.
    pub fn read_port(&mut self) -> (r: Option<u16>)
        requires
            old(self).wf(),
        ensures
            final(self).wf(),
            final(self).spec_input() == old(self).spec_input(),
            match spec_read_port(old(self).rem()) {
                Some(vn) => r == Some(vn.0 as u16) && 0 <= vn.0 <= 65535 && 0 < vn.1 <= old(
                    self,
                ).rem().len() && final(self).rem() == old(self).rem().skip(vn.1),
                None => r is None && final(self).rem() == old(self).rem(),
            },
    {
        let ghost s0 = self.rem();
        let start = self.pos;
        if !self.read_given_char(58) {
            return None;
        }
        match self.read_number(10, None, true, 65535) {
            Some(v) => Some(v as u16),
            None => {
                self.pos = start;
                None
            },
        }
    }

    /// Reads a `%` followed by a decimal scope id; atomic.
    pub fn read_scope_id(&mut self) -> (r: Option<u32>)
        requires
            old(self).wf(),
        ensures
            final(self).wf(),
            final(self).spec_input() == old(self).spec_input(),
            match spec_read_scope_id(old(self).rem()) {
                Some(vn) => r == Some(vn.0 as u32) && 0 <= vn.0 <= 0xffffffff && 0 < vn.1 <= old(
                    self,
                ).rem().len() && final(self).rem() == old(self).rem().skip(vn.1),
                None => r is None && final(self).rem() == old(self).rem(),
            },
    {
        let ghost s0 = self.rem();
        let start = self.pos;
        if !self.read_given_char(37) {
            return None;
        }
        match self.read_number(10, None, true, 0xffffffff) {
            Some(v) => Some(v as u32),
            None => {
                self.pos = start;
                None
            },
        }
    }

    /// Is the whole input consumed?
    pub fn is_at_end(&self) -> (r: bool)
        requires
            self.wf(),
        ensures
            r == (self.rem().len() == 0),
    {
        self.pos == self.input.len()
    }

    /// Reads an AS number: a single hex group (short form, the low 16
    /// bits), or exactly three colon-separated hex groups packed into 48
    /// bits; a two-group form fails.  Atomic.
    fn read_as(&mut self) -> (r: Option<u64>)
        requires
            old(self).wf(),
        ensures
            final(self).wf(),
            final(self).spec_input() == old(self).spec_input(),
            match spec_read_as(old(self).rem()) {
                Some(vn) => r == Some(vn.0 as u64) && 0 <= vn.0 < 0x1000000000000 && 0 < vn.1
                    <= old(self).rem().len() && final(self).rem() == old(self).rem().skip(vn.1),
                None => r is None && final(self).rem() == old(self).rem(),
            },
    {
        let ghost s0 = self.rem();
        let start = self.pos;
        let g0 = match self.read_number(16, Some(4), true, 0xffff) {
            Some(v) => v,
            None => {
                return None;
            },
        };
        let save = self.pos;
        if !self.read_given_char(58) {
            return Some(g0);
        }
        proof {
            let n0 = spec_read_number(s0, 16, Some(4), true, 0xffff).unwrap().1;
            assert(s0.skip(n0).skip(1) =~= self.rem());
        }
        let g1 = match self.read_number(16, Some(4), true, 0xffff) {
            Some(v) => v,
            None => {
                self.pos = save;
                proof {
                    let n0 = spec_read_number(s0, 16, Some(4), true, 0xffff).unwrap().1;
                    assert(self.rem() =~= s0.skip(n0));
                }
                return Some(g0);
            },
        };
        if !self.read_given_char(58) {
            self.pos = start;
            proof {
                assert(self.rem() =~= s0);
            }
            return None;
        }
        proof {
            let n0 = spec_read_number(s0, 16, Some(4), true, 0xffff).unwrap().1;
            let s1 = s0.skip(n0).skip(1);
            let n1 = spec_read_number(s1, 16, Some(4), true, 0xffff).unwrap().1;
            assert(s0.skip(n0).skip(1 + n1) =~= s1.skip(n1));
            assert(s1.skip(n1).skip(1) =~= self.rem());
        }
        let g2 = match self.read_number(16, Some(4), true, 0xffff) {
            Some(v) => v,
            None => {
                self.pos = start;
                proof {
                    assert(self.rem() =~= s0);
                }
                return None;
            },
        };
        proof {
            let n0 = spec_read_number(s0, 16, Some(4), true, 0xffff).unwrap().1;
            let s1 = s0.skip(n0).skip(1);
            let n1 = spec_read_number(s1, 16, Some(4), true, 0xffff).unwrap().1;
            let s2 = s1.skip(n1).skip(1);
            let n2 = spec_read_number(s2, 16, Some(4), true, 0xffff).unwrap().1;
            assert(s0.skip(n0 + 1 + n1 + 1 + n2) =~= s2.skip(n2));
        }
        Some(g0 * 0x100000000 + g1 * 0x10000 + g2)
    }

    /// Reads an IP address: IPv4 if one matches, else IPv6.
    pub fn read_ip_addr(&mut self) -> (r: Option<IpAddr>)
        requires
            old(self).wf(),
        ensures
            final(self).wf(),
            final(self).spec_input() == old(self).spec_input(),
            match spec_read_ip(old(self).rem()) {
                Some(hn) => r matches Some(ip) && host_matches(hn.0, ip) && 0 <= hn.1 <= old(
                    self,
                ).rem().len() && final(self).rem() == old(self).rem().skip(hn.1),
                None => r is None && final(self).rem() == old(self).rem(),
            },
    {
        match self.read_ipv4_addr() {
            Some(v4) => Some(IpAddr::V4(v4)),
            None => match self.read_ipv6_addr() {
                Some(v6) => Some(IpAddr::V6(v6)),
                None => None,
            },
        }
    }

    /// Reads a SCION address `ISD-AS,HOST`; the host may sit in brackets.
    /// Atomic.
    #[verifier::spinoff_prover]
    #[verifier::rlimit(100)]
    pub fn read_scion_addr(&mut self) -> (r: Option<ScionAddr>)
        requires
            old(self).wf(),
        ensures
            final(self).wf(),
            final(self).spec_input() == old(self).spec_input(),
            match spec_read_scion(old(self).rem()) {
                Some(vn) => r matches Some(sa) && sa.ia == vn.0.0 && host_matches(vn.0.1, sa.host)
                    && 0 <= vn.1 <= old(self).rem().len() && final(self).rem() == old(
                    self,
                ).rem().skip(vn.1),
                None => r is None && final(self).rem() == old(self).rem(),
            },
    {
        let ghost s0 = self.rem();
        let start = self.pos;
        let isd = match self.read_number(10, Some(6), true, 65535) {
            Some(v) => v,
            None => {
                return None;
            },
        };
        if !self.read_given_char(45) {
            self.pos = start;
            proof {
                assert(self.rem() =~= s0);
            }
            return None;
        }
        proof {
            let n0 = spec_read_number(s0, 10, Some(6), true, 65535).unwrap().1;
            assert(s0.skip(n0).skip(1) =~= self.rem());
        }
        let as_ = match self.read_as() {
            Some(v) => v,
            None => {
                self.pos = start;
                proof {
                    assert(self.rem() =~= s0);
                }
                return None;
            },
        };
        if !self.read_given_char(44) {
            self.pos = start;
            proof {
                assert(self.rem() =~= s0);
            }
            return None;
        }
        proof {
            let n0 = spec_read_number(s0, 10, Some(6), true, 65535).unwrap().1;
            let s1 = s0.skip(n0).skip(1);
            let n1 = spec_read_as(s1).unwrap().1;
            assert(s0.skip(n0).skip(1 + n1) =~= s1.skip(n1));
            assert(s1.skip(n1).skip(1) =~= self.rem());
        }
        let ghost s3 = self.rem();
        let br1 = self.read_given_char(91);
        proof {
            if br1 {
                assert(s3.skip(1) =~= self.rem());
            } else {
                assert(s3.skip(0) =~= s3);
            }
        }
        let ghost s4 = self.rem();
        let host = match self.read_ip_addr() {
            Some(h) => h,
            None => {
                self.pos = start;
                proof {
                    assert(self.rem() =~= s0);
                }
                return None;
            },
        };
        let ghost s5 = self.rem();
        let br2 = self.read_given_char(93);
        let ia = crate::scion_parse_utils::make_ia(isd as u16, as_);
        proof {
            let n0 = spec_read_number(s0, 10, Some(6), true, 65535).unwrap().1;
            let s1 = s0.skip(n0).skip(1);
            let n1 = spec_read_as(s1).unwrap().1;
            let s2v = s1.skip(n1).skip(1);
            let br1n: int = if br1 {
                1
            } else {
                0
            };
            let n2 = spec_read_ip(s4).unwrap().1;
            let br2n: int = if br2 {
                1
            } else {
                0
            };
            assert(s3.skip(br1n) =~= s4);
            assert(s4.skip(n2) =~= s5);
            assert(self.rem() =~= s5.skip(br2n));
            assert(s0.skip(n0 + 1 + n1 + 1 + br1n + n2 + br2n) =~= self.rem());
        }
        Some(ScionAddr::new(ia, host))
    }

    /// Reads an IPv4 socket address `a.b.c.d:port`; atomic.
    pub fn read_socket_addr_v4(&mut self) -> (r: Option<SocketAddrV4>)
        requires
            old(self).wf(),
        ensures
            final(self).wf(),
            final(self).spec_input() == old(self).spec_input(),
            match spec_read_socket_v4(old(self).rem()) {
                Some(vn) => r matches Some(sa) && sa.spec_ip()@ == vn.0.0 && sa.spec_port()
                    == vn.0.1 && 0 < vn.1 <= old(self).rem().len() && final(self).rem() == old(
                    self,
                ).rem().skip(vn.1),
                None => r is None && final(self).rem() == old(self).rem(),
            },
    {
        let ghost s0 = self.rem();
        let start = self.pos;
        let ip = match self.read_ipv4_addr() {
            Some(v) => v,
            None => {
                return None;
            },
        };
        let port = match self.read_port() {
            Some(v) => v,
            None => {
                self.pos = start;
                proof {
                    assert(self.rem() =~= s0);
                }
                return None;
            },
        };
        proof {
            let n = spec_read_ipv4(s0).unwrap().1;
            let m = spec_read_port(s0.skip(n)).unwrap().1;
            assert(s0.skip(n).skip(m) =~= s0.skip(n + m));
        }
        Some(SocketAddrV4::new(ip, port))
    }

    /// Reads an IPv6 socket address `[addr]:port` with an optional
    /// `%scope` before the closing bracket; atomic.
    #[verifier::spinoff_prover]
    #[verifier::rlimit(100)]
    pub fn read_socket_addr_v6(&mut self) -> (r: Option<SocketAddrV6>)
        requires
            old(self).wf(),
        ensures
            final(self).wf(),
            final(self).spec_input() == old(self).spec_input(),
            match spec_read_socket_v6(old(self).rem()) {
                Some(vn) => r matches Some(sa) && sa.spec_ip().spec_segments() == vn.0.0
                    && sa.spec_scope_id() == vn.0.1 && sa.spec_port() == vn.0.2
                    && sa.spec_flowinfo() == 0 && 0 < vn.1 <= old(self).rem().len() && final(self).rem() == old(self).rem().skip(vn.1),
                None => r is None && final(self).rem() == old(self).rem(),
            },
    {
        let ghost s0 = self.rem();
        let start = self.pos;
        if !self.read_given_char(91) {
            return None;
        }
        let ip = match self.read_ipv6_addr() {
            Some(v) => v,
            None => {
                self.pos = start;
                proof {
                    assert(self.rem() =~= s0);
                }
                return None;
            },
        };
        let ghost s1 = self.rem();
        proof {
            let n0 = spec_read_ipv6(s0.skip(1)).unwrap().1;
            assert(s0.skip(1).skip(n0) =~= s0.skip(1 + n0));
        }
        let scope_id = match self.read_scope_id() {
            Some(v) => v,
            None => 0,
        };
        proof {
            assert(s1.skip(0) =~= s1);
        }
        if !self.read_given_char(93) {
            self.pos = start;
            proof {
                assert(self.rem() =~= s0);
            }
            return None;
        }
        let ghost s2 = self.rem();
        let port = match self.read_port() {
            Some(v) => v,
            None => {
                self.pos = start;
                proof {
                    assert(self.rem() =~= s0);
                }
                return None;
            },
        };
        proof {
            let n0 = spec_read_ipv6(s0.skip(1)).unwrap().1;
            assert(s0.skip(1).skip(n0) =~= s0.skip(1 + n0));
            let n1: int = match spec_read_scope_id(s1) {
                Some((v, m)) => m,
                None => 0,
            };
            assert(s1.skip(n1).skip(1) =~= s2);
            let n2 = spec_read_port(s2).unwrap().1;
            assert(self.rem() =~= s2.skip(n2));
            assert(s0.skip(1 + n0 + n1 + 1 + n2) =~= self.rem());
        }
        Some(SocketAddrV6::new(ip, port, 0, scope_id))
    }

    /// Reads a SCION socket address `ISD-AS,HOST:port`; atomic.
    pub fn read_socket_addr_scion(&mut self) -> (r: Option<SocketAddrScion>)
        requires
            old(self).wf(),
        ensures
            final(self).wf(),
            final(self).spec_input() == old(self).spec_input(),
            match spec_read_socket_scion(old(self).rem()) {
                Some(vn) => r matches Some(sa) && sa.addr.ia == vn.0.0 && host_matches(
                    vn.0.1,
                    sa.addr.host,
                ) && sa.port == vn.0.2 && 0 < vn.1 <= old(self).rem().len() && final(self).rem()
                    == old(self).rem().skip(vn.1),
                None => r is None && final(self).rem() == old(self).rem(),
            },
    {
        let ghost s0 = self.rem();
        let start = self.pos;
        let scion_addr = match self.read_scion_addr() {
            Some(v) => v,
            None => {
                return None;
            },
        };
        let port = match self.read_port() {
            Some(v) => v,
            None => {
                self.pos = start;
                proof {
                    assert(self.rem() =~= s0);
                }
                return None;
            },
        };
        proof {
            let n = spec_read_scion(s0).unwrap().1;
            let m = spec_read_port(s0.skip(n)).unwrap().1;
            assert(s0.skip(n).skip(m) =~= s0.skip(n + m));
        }
        Some(SocketAddrScion::new1(scion_addr, port))
    }

    /// Reads a socket address, trying the IPv4, IPv6 and SCION grammars in
    /// that order.
    pub fn read_socket_addr(&mut self) -> (r: Option<SocketAddr>)
        requires
            old(self).wf(),
        ensures
            final(self).wf(),
            final(self).spec_input() == old(self).spec_input(),
            match spec_read_socket(old(self).rem()) {
                Some(vn) => r matches Some(sa) && socket_matches(vn.0, sa) && 0 < vn.1 <= old(
                    self,
                ).rem().len() && final(self).rem() == old(self).rem().skip(vn.1),
                None => r is None && final(self).rem() == old(self).rem(),
            },
    {
        match self.read_socket_addr_v4() {
            Some(a) => Some(SocketAddr::V4(a)),
            None => match self.read_socket_addr_v6() {
                Some(a) => Some(SocketAddr::V6(a)),
                None => match self.read_socket_addr_scion() {
                    Some(a) => Some(SocketAddr::SCION(a)),
                    None => None,
                },
            },
        }
    }
}


impl IpAddr {
    /// Parses an IP address, IPv4 or IPv6, from ASCII bytes; the whole
    /// input must be consumed.
    pub fn parse_ascii(b: &[u8]) -> (r: Result<IpAddr, AddrParseError>)
        ensures
            match spec_read_ip(b@) {
                Some(hn) => if hn.1 == b@.len() {
                    r matches Ok(ip) && host_matches(hn.0, ip)
                } else {
                    r == Err::<IpAddr, AddrParseError>(AddrParseError(AddrKind::Ip))
                },
                None => r == Err::<IpAddr, AddrParseError>(AddrParseError(AddrKind::Ip)),
            },
    {
        let mut p = Parser::new(b);
        match p.read_ip_addr() {
            Some(ip) => if p.is_at_end() {
                Ok(ip)
            } else {
                Err(AddrParseError(AddrKind::Ip))
            },
            None => Err(AddrParseError(AddrKind::Ip)),
        }
    }
}

impl Ipv4Addr {
    /// Parses an IPv4 address from ASCII bytes; inputs longer than the
    /// longest possible literal are rejected outright, and the whole
    /// input must be consumed.
    pub fn parse_ascii(b: &[u8]) -> (r: Result<Ipv4Addr, AddrParseError>)
        ensures
            b@.len() > 15 ==> r == Err::<Ipv4Addr, AddrParseError>(AddrParseError(AddrKind::Ipv4)),
            b@.len() <= 15 ==> match spec_read_ipv4(b@) {
                Some(on) => if on.1 == b@.len() {
                    r matches Ok(ip) && ip@ == on.0
                } else {
                    r == Err::<Ipv4Addr, AddrParseError>(AddrParseError(AddrKind::Ipv4))
                },
                None => r == Err::<Ipv4Addr, AddrParseError>(AddrParseError(AddrKind::Ipv4)),
            },
    {
        if b.len() > 15 {
            Err(AddrParseError(AddrKind::Ipv4))
        } else {
            let mut p = Parser::new(b);
            match p.read_ipv4_addr() {
                Some(ip) => if p.is_at_end() {
                    Ok(ip)
                } else {
                    Err(AddrParseError(AddrKind::Ipv4))
                },
                None => Err(AddrParseError(AddrKind::Ipv4)),
            }
        }
    }
}

impl Ipv6Addr {
    /// Parses an IPv6 address from ASCII bytes; the whole input must be
    /// consumed.
    pub fn parse_ascii(b: &[u8]) -> (r: Result<Ipv6Addr, AddrParseError>)
        ensures
            match spec_read_ipv6(b@) {
                Some(gn) => if gn.1 == b@.len() {
                    r matches Ok(ip) && ip.spec_segments() == gn.0
                } else {
                    r == Err::<Ipv6Addr, AddrParseError>(AddrParseError(AddrKind::Ipv6))
                },
                None => r == Err::<Ipv6Addr, AddrParseError>(AddrParseError(AddrKind::Ipv6)),
            },
    {
        let mut p = Parser::new(b);
        match p.read_ipv6_addr() {
            Some(ip) => if p.is_at_end() {
                Ok(ip)
            } else {
                Err(AddrParseError(AddrKind::Ipv6))
            },
            None => Err(AddrParseError(AddrKind::Ipv6)),
        }
    }
}

impl SocketAddrV4 {
    /// Parses an IPv4 socket address from ASCII bytes; the whole input
    /// must be consumed.
    pub fn parse_ascii(b: &[u8]) -> (r: Result<SocketAddrV4, AddrParseError>)
        ensures
            match spec_read_socket_v4(b@) {
                Some(vn) => if vn.1 == b@.len() {
                    r matches Ok(sa) && sa.spec_ip()@ == vn.0.0 && sa.spec_port() == vn.0.1
                } else {
                    r == Err::<SocketAddrV4, AddrParseError>(AddrParseError(AddrKind::SocketV4))
                },
                None => r == Err::<SocketAddrV4, AddrParseError>(
                    AddrParseError(AddrKind::SocketV4),
                ),
            },
    {
        let mut p = Parser::new(b);
        match p.read_socket_addr_v4() {
            Some(sa) => if p.is_at_end() {
                Ok(sa)
            } else {
                Err(AddrParseError(AddrKind::SocketV4))
            },
            None => Err(AddrParseError(AddrKind::SocketV4)),
        }
    }
}

impl ScionAddr {
    /// Parses a SCION address `ISD-AS,HOST` from ASCII bytes; the whole
    /// input must be consumed.
    pub fn parse_ascii(b: &[u8]) -> (r: Result<ScionAddr, AddrParseError>)
        ensures
            match spec_read_scion(b@) {
                Some(vn) => if vn.1 == b@.len() {
                    r matches Ok(sa) && sa.ia == vn.0.0 && host_matches(vn.0.1, sa.host)
                } else {
                    r == Err::<ScionAddr, AddrParseError>(AddrParseError(AddrKind::Scion))
                },
                None => r == Err::<ScionAddr, AddrParseError>(AddrParseError(AddrKind::Scion)),
            },
    {
        let mut p = Parser::new(b);
        match p.read_scion_addr() {
            Some(sa) => if p.is_at_end() {
                Ok(sa)
            } else {
                Err(AddrParseError(AddrKind::Scion))
            },
            None => Err(AddrParseError(AddrKind::Scion)),
        }
    }
}

impl SocketAddrV6 {
    /// Parses an IPv6 socket address `[addr]:port` from ASCII bytes; the
    /// whole input must be consumed.
    pub fn parse_ascii(b: &[u8]) -> (r: Result<SocketAddrV6, AddrParseError>)
        ensures
            match spec_read_socket_v6(b@) {
                Some(vn) => if vn.1 == b@.len() {
                    r matches Ok(sa) && sa.spec_ip().spec_segments() == vn.0.0
                        && sa.spec_scope_id() == vn.0.1 && sa.spec_port() == vn.0.2
                        && sa.spec_flowinfo() == 0
                } else {
                    r == Err::<SocketAddrV6, AddrParseError>(AddrParseError(AddrKind::SocketV6))
                },
                None => r == Err::<SocketAddrV6, AddrParseError>(
                    AddrParseError(AddrKind::SocketV6),
                ),
            },
    {
        let mut p = Parser::new(b);
        match p.read_socket_addr_v6() {
            Some(sa) => if p.is_at_end() {
                Ok(sa)
            } else {
                Err(AddrParseError(AddrKind::SocketV6))
            },
            None => Err(AddrParseError(AddrKind::SocketV6)),
        }
    }
}

impl SocketAddrScion {
    /// Parses a SCION socket address `ISD-AS,HOST:port` from ASCII bytes;
    /// the whole input must be consumed.
    pub fn parse_ascii(b: &[u8]) -> (r: Result<SocketAddrScion, AddrParseError>)
        ensures
            match spec_read_socket_scion(b@) {
                Some(vn) => if vn.1 == b@.len() {
                    r matches Ok(sa) && sa.addr.ia == vn.0.0 && host_matches(vn.0.1, sa.addr.host)
                        && sa.port == vn.0.2
                } else {
                    r == Err::<SocketAddrScion, AddrParseError>(
                        AddrParseError(AddrKind::SocketScion),
                    )
                },
                None => r == Err::<SocketAddrScion, AddrParseError>(
                    AddrParseError(AddrKind::SocketScion),
                ),
            },
    {
        let mut p = Parser::new(b);
        match p.read_socket_addr_scion() {
            Some(sa) => if p.is_at_end() {
                Ok(sa)
            } else {
                Err(AddrParseError(AddrKind::SocketScion))
            },
            None => Err(AddrParseError(AddrKind::SocketScion)),
        }
    }
}

impl core::str::FromStr for IpAddr {
    type Err = AddrParseError;

    fn from_str(s: &str) -> Result<IpAddr, AddrParseError> {
        Self::parse_ascii(s.as_bytes())
    }
}

impl core::str::FromStr for Ipv4Addr {
    type Err = AddrParseError;

    fn from_str(s: &str) -> Result<Ipv4Addr, AddrParseError> {
        Self::parse_ascii(s.as_bytes())
    }
}

impl core::str::FromStr for Ipv6Addr {
    type Err = AddrParseError;

    fn from_str(s: &str) -> Result<Ipv6Addr, AddrParseError> {
        Self::parse_ascii(s.as_bytes())
    }
}

impl core::str::FromStr for SocketAddrV4 {
    type Err = AddrParseError;

    fn from_str(s: &str) -> Result<SocketAddrV4, AddrParseError> {
        Self::parse_ascii(s.as_bytes())
    }
}

impl core::str::FromStr for SocketAddrV6 {
    type Err = AddrParseError;

    fn from_str(s: &str) -> Result<SocketAddrV6, AddrParseError> {
        Self::parse_ascii(s.as_bytes())
    }
}

impl core::str::FromStr for ScionAddr {
    type Err = AddrParseError;

    fn from_str(s: &str) -> Result<ScionAddr, AddrParseError> {
        Self::parse_ascii(s.as_bytes())
    }
}

impl core::str::FromStr for SocketAddrScion {
    type Err = AddrParseError;

    fn from_str(s: &str) -> Result<SocketAddrScion, AddrParseError> {
        Self::parse_ascii(s.as_bytes())
    }
}

impl core::str::FromStr for SocketAddr {
    type Err = AddrParseError;

    fn from_str(s: &str) -> Result<SocketAddr, AddrParseError> {
        Self::parse_ascii(s.as_bytes())
    }
}

} // verus!
