//! The 64-bit ISD/AS identifier codec.
//!
//! An identifier (IA) packs a 16-bit isolation-domain number (ISD) into the
//! high bits and a 48-bit autonomous-system number (AS) into the low bits.

use vstd::prelude::*;
use crate::grammar::digit_byte;
use crate::grammar::digit_value;
use crate::grammar::digits_of;
use crate::grammar::digits_value;
use crate::grammar::is_digit;
use crate::grammar::lemma_digits_of_inverse;
use crate::grammar::lemma_digits_value_nonneg;
use crate::grammar::lemma_digits_value_prefix_le;
use crate::text::ascii_chars;
use crate::text::ascii_string;
use crate::text::is_text_byte;
use crate::text::write_digits;
use vstd::string::StringExecFns;
use vstd::string::StrSliceExecFns;
use vstd::string::StringSliceAdditionalSpecFns;

verus! {

/// Length of the maximal colon-free prefix of `s`.
pub open spec fn token_run_len(s: Seq<u8>) -> int
    decreases s.len(),
{
    if s.len() == 0 || s[0] == 58 {
        0
    } else {
        1 + token_run_len(s.skip(1))
    }
}

/// The maximal colon-free prefix stays within `s` and stops at a colon.
pub proof fn lemma_token_run(s: Seq<u8>)
    ensures
        0 <= token_run_len(s) <= s.len(),
        s.len() > 0 && s[0] != 58 ==> token_run_len(s) >= 1,
        forall|i: int| 0 <= i < token_run_len(s) ==> s[i] != 58,
        token_run_len(s) < s.len() ==> s[token_run_len(s)] == 58,
    decreases s.len(),
{
    if s.len() == 0 || s[0] == 58 {
    } else {
        lemma_token_run(s.skip(1));
        let k = token_run_len(s);
        assert forall|i: int| 0 <= i < k implies s[i] != 58 by {
            if i > 0 {
                assert(s.skip(1)[i - 1] != 58);
            }
        }
        if k < s.len() {
            assert(s.skip(1)[k - 1] == 58);
        }
    }
}

/// The colon-free tokens of `s`, in order; empty pieces between
/// consecutive colons are dropped.
pub open spec fn split_tokens(s: Seq<u8>) -> Seq<Seq<u8>>
    decreases s.len(),
    when true
    via split_tokens_decreases
{
    if s.len() == 0 {
        Seq::empty()
    } else if s[0] == 58 {
        split_tokens(s.skip(1))
    } else {
        seq![s.take(token_run_len(s))] + split_tokens(s.skip(token_run_len(s)))
    }
}

#[via_fn]
proof fn split_tokens_decreases(s: Seq<u8>) {
    lemma_token_run(s);
}

/// A token padded on the left with `0` digits to at least four bytes;
/// longer tokens stay as they are.
pub open spec fn pad4(t: Seq<u8>) -> Seq<u8> {
    if t.len() >= 4 {
        t
    } else {
        Seq::new((4 - t.len()) as nat, |i: int| 48u8) + t
    }
}

/// The concatenation of all tokens, each padded to four digits.
pub open spec fn concat_pad4(toks: Seq<Seq<u8>>) -> Seq<u8>
    decreases toks.len(),
{
    if toks.len() == 0 {
        Seq::empty()
    } else {
        pad4(toks[0]) + concat_pad4(toks.skip(1))
    }
}

/// The value an AS string in colon-separated hex denotes: the tokens are
/// padded to four hex digits each, concatenated, and read as one base-16
/// numeral.
pub open spec fn spec_as_from_dotted_hex(s: Seq<u8>) -> int {
    digits_value(concat_pad4(split_tokens(s)), 16)
}

/// One step of the AS hex display machine over the natural hex numeral:
/// a `:` is emitted at every fourth position once a digit has been
/// written, leading zeros of each chunk are skipped, and a chunk of four
/// zeros emits `0:` on its own.
pub open spec fn as_hex_fmt_from(s: Seq<u8>, pos: int, begin: bool, zeros: int) -> Seq<u8>
    decreases s.len() - pos when pos >= 0
{
    if pos >= s.len() {
        Seq::empty()
    } else {
        let sep = pos != 0 && pos % 4 == 0 && !begin;
        let pre: Seq<u8> = if sep {
            seq![58u8]
        } else {
            Seq::empty()
        };
        let b2 = begin || sep;
        let z2: int = if sep {
            0
        } else {
            zeros
        };
        let c = s[pos];
        if b2 {
            if c == 48 {
                if z2 + 1 == 4 {
                    pre + seq![48u8, 58u8] + as_hex_fmt_from(s, pos + 1, true, 0)
                } else {
                    pre + as_hex_fmt_from(s, pos + 1, true, z2 + 1)
                }
            } else {
                pre + seq![c] + as_hex_fmt_from(s, pos + 1, false, 0)
            }
        } else {
            seq![c] + as_hex_fmt_from(s, pos + 1, false, 0)
        }
    }
}

/// The dotted-hex rendering of an AS number: the machine above, run over
/// the natural (no leading zero) hex numeral of the value.
pub open spec fn spec_as_to_dotted_hex(v: int) -> Seq<u8> {
    as_hex_fmt_from(digits_of(v, 16), 0, true, 0)
}

/// Renders an AS number in dotted hex: the natural hex numeral of the
/// value, re-chunked into runs of four digits from its first character,
/// with leading zeros suppressed per chunk.  The chunking follows string
/// position, not 16-bit boundaries, exactly as the display machine walks
/// the numeral.
pub fn as_to_dotted_hex(as_num: u64) -> (r: String)
    ensures
        r@ == ascii_chars(spec_as_to_dotted_hex(as_num as int)),
{
    let mut out: Vec<u8> = Vec::new();
    write_as_dotted_hex(&mut out, as_num);
    proof {
        assert(out@ =~= spec_as_to_dotted_hex(as_num as int));
    }
    ascii_string(&out)
}

/// Appends the dotted-hex rendering of an AS number.
pub(crate) fn write_as_dotted_hex(outer: &mut Vec<u8>, as_num: u64)
    ensures
        final(outer)@ == old(outer)@ + spec_as_to_dotted_hex(as_num as int),
        forall|i: int|
            old(outer)@.len() <= i < final(outer)@.len() ==> is_text_byte(
                #[trigger] final(outer)@[i],
            ),
{
    let mut digits: Vec<u8> = Vec::new();
    write_digits(&mut digits, as_num, 16);
    proof {
        assert(digits@ =~= digits_of(as_num as int, 16));
        crate::grammar::lemma_digits_of_bytes(as_num as int, 16);
    }
    let mut out: Vec<u8> = Vec::new();
    let mut pos: usize = 0;
    let mut begin = true;
    let mut zeros: u8 = 0;
    proof {
        assert(out@ + as_hex_fmt_from(digits@, 0, true, 0) =~= as_hex_fmt_from(
            digits@,
            0,
            true,
            0,
        ));
    }
    while pos < digits.len()
        invariant
            digits@ == digits_of(as_num as int, 16),
            forall|i: int| 0 <= i < digits@.len() ==> (48 <= #[trigger] digits@[i] <= 57 || 97
                <= digits@[i] <= 102),
            0 <= pos <= digits@.len(),
            0 <= zeros <= 3,
            !begin ==> zeros == 0,
            spec_as_to_dotted_hex(as_num as int) == out@ + as_hex_fmt_from(
                digits@,
                pos as int,
                begin,
                zeros as int,
            ),
            forall|i: int| 0 <= i < out@.len() ==> is_text_byte(#[trigger] out@[i]),
        decreases digits@.len() - pos,
    {
        let ghost o0 = out@;
        let ghost pos0 = pos as int;
        let ghost begin0 = begin;
        let ghost zeros0 = zeros as int;
        if pos != 0 && pos % 4 == 0 && !begin {
            out.push(58);
            begin = true;
            zeros = 0;
        }
        let c = digits[pos];
        if begin {
            if c == 48 {
                zeros = zeros + 1;
                if zeros == 4 {
                    out.push(48);
                    out.push(58);
                    zeros = 0;
                }
            } else {
                out.push(c);
                zeros = 0;
                begin = false;
            }
        } else {
            out.push(c);
        }
        pos = pos + 1;
        proof {
            let s_ = digits@;
            let sep = pos0 != 0 && pos0 % 4 == 0 && !begin0;
            let pre: Seq<u8> = if sep {
                seq![58u8]
            } else {
                Seq::empty()
            };
            let b2 = begin0 || sep;
            let z2: int = if sep {
                0
            } else {
                zeros0
            };
            let cc = s_[pos0];
            let m0 = as_hex_fmt_from(s_, pos0, begin0, zeros0);
            let m1 = as_hex_fmt_from(s_, pos as int, begin, zeros as int);
            if b2 {
                if cc == 48 {
                    if z2 + 1 == 4 {
                        assert(out@ =~= o0 + (pre + seq![48u8, 58u8]));
                        assert(m0 =~= (pre + seq![48u8, 58u8]) + m1);
                        assert(o0 + m0 =~= out@ + m1);
                    } else {
                        assert(out@ =~= o0 + pre);
                        assert(m0 =~= pre + m1);
                        assert(o0 + m0 =~= out@ + m1);
                    }
                } else {
                    assert(out@ =~= o0 + (pre + seq![cc]));
                    assert(m0 =~= (pre + seq![cc]) + m1);
                    assert(o0 + m0 =~= out@ + m1);
                }
            } else {
                assert(out@ =~= o0 + seq![cc]);
                assert(m0 =~= seq![cc] + m1);
                assert(o0 + m0 =~= out@ + m1);
            }
        }
    }
    proof {
        assert(spec_as_to_dotted_hex(as_num as int) =~= out@);
    }
    let mut q: usize = 0;
    while q < out.len()
        invariant
            0 <= q <= out@.len(),
            forall|i: int| 0 <= i < out@.len() ==> is_text_byte(#[trigger] out@[i]),
            outer@ == old(outer)@ + out@.take(q as int),
        decreases out@.len() - q,
    {
        outer.push(out[q]);
        q = q + 1;
        proof {
            assert(outer@ =~= old(outer)@ + out@.take(q as int));
        }
    }
    proof {
        assert(out@.take(out@.len() as int) =~= out@);
    }
}

/// The value of a hex digit byte.
fn hex_val(b: u8) -> (r: u8)
    requires
        is_digit(b, 16),
    ensures
        r == digit_value(b, 16),
{
    if b <= 57 {
        b - 48
    } else if b >= 97 {
        b - 87
    } else {
        b - 55
    }
}

/// Parses a colon-separated hex string into an AS number: each token is
/// padded to four hex digits, the tokens are concatenated, and the whole
/// string is read as one base-16 numeral.
pub fn as_from_dotted_hex(s: &str) -> (r: u64)
    requires
        forall|i: int| 0 <= i < s.spec_bytes().len() ==> is_digit(
            #[trigger] s.spec_bytes()[i],
            16,
        ) || s.spec_bytes()[i] == 58,
        split_tokens(s.spec_bytes()).len() >= 1,
        spec_as_from_dotted_hex(s.spec_bytes()) < 0x10000000000000000,
    ensures
        r == spec_as_from_dotted_hex(s.spec_bytes()),
{
    let b = s.as_bytes();
    let ghost total = concat_pad4(split_tokens(b@));
    let mut padded: Vec<u8> = Vec::new();
    let mut i: usize = 0;
    proof {
        assert(b@.skip(0) =~= b@);
    }
    while i < b.len()
        invariant
            0 <= i <= b@.len(),
            b@ == s.spec_bytes(),
            forall|k: int| 0 <= k < b@.len() ==> is_digit(#[trigger] b@[k], 16) || b@[k] == 58,
            total == concat_pad4(split_tokens(b@)),
            total == padded@ + concat_pad4(split_tokens(b@.skip(i as int))),
            forall|k: int| 0 <= k < padded@.len() ==> is_digit(#[trigger] padded@[k], 16),
        decreases b@.len() - i,
    {
        if b[i] == 58 {
            proof {
                assert(b@.skip(i as int).skip(1) =~= b@.skip(i + 1 as int));
            }
            i = i + 1;
        } else {
            let ghost suf = b@.skip(i as int);
            let start = i;
            let mut j = i;
            while j < b.len() && b[j] != 58
                invariant
                    0 <= start <= j <= b@.len(),
                    b@ == s.spec_bytes(),
                    suf == b@.skip(start as int),
                    token_run_len(suf) == (j - start) + token_run_len(b@.skip(j as int)),
                decreases b@.len() - j,
            {
                proof {
                    assert(b@.skip(j as int)[0] == b@[j as int]);
                    assert(b@.skip(j as int).skip(1) =~= b@.skip(j + 1 as int));
                }
                j = j + 1;
            }
            proof {
                lemma_token_run(b@.skip(j as int));
                if j < b@.len() {
                    assert(b@.skip(j as int)[0] == b@[j as int]);
                }
                assert(token_run_len(b@.skip(j as int)) == 0);
                assert(token_run_len(suf) == j - start);
                lemma_token_run(suf);
                assert forall|k: int| start <= k < j implies b@[k] != 58 by {
                    assert(suf[k - start] != 58);
                }
            }
            let ghost tok = suf.take(token_run_len(suf));
            let ghost p0 = padded@;
            let tok_len = j - i;
            if tok_len < 4 {
                let mut z: usize = 0;
                while z < 4 - tok_len
                    invariant
                        0 <= z <= 4 - tok_len,
                        0 <= tok_len < 4,
                        padded@ == p0 + Seq::new(z as nat, |q: int| 48u8),
                        forall|k: int| 0 <= k < padded@.len() ==> is_digit(
                            #[trigger] padded@[k],
                            16,
                        ),
                    decreases 4 - tok_len - z,
                {
                    padded.push(48);
                    z = z + 1;
                    proof {
                        assert(padded@ =~= p0 + Seq::new(z as nat, |q: int| 48u8));
                    }
                }
            }
            let ghost p1 = padded@;
            while i < j
                invariant
                    start <= i <= j <= b@.len(),
                    b@ == s.spec_bytes(),
                    forall|k: int| 0 <= k < b@.len() ==> is_digit(#[trigger] b@[k], 16) || b@[k]
                        == 58,
                    suf == b@.skip(start as int),
                    token_run_len(suf) == j - start,
                    padded@ == p1 + b@.subrange(start as int, i as int),
                    forall|k: int| 0 <= k < p1.len() ==> is_digit(#[trigger] p1[k], 16),
                    forall|k: int| start <= k < j ==> b@[k] != 58,
                    forall|k: int| 0 <= k < padded@.len() ==> is_digit(#[trigger] padded@[k], 16),
                decreases j - i,
            {
                padded.push(b[i]);
                i = i + 1;
                proof {
                    assert(padded@ =~= p1 + b@.subrange(start as int, i as int));
                }
            }
            proof {
                assert(tok =~= b@.subrange(start as int, j as int));
                assert(padded@ =~= p0 + pad4(tok));
                assert(split_tokens(suf) == seq![tok] + split_tokens(suf.skip(j - start)));
                assert(suf.skip(j - start) =~= b@.skip(j as int));
                assert(split_tokens(suf).skip(1) =~= split_tokens(b@.skip(j as int)));
                assert(concat_pad4(split_tokens(suf)) == pad4(tok) + concat_pad4(
                    split_tokens(b@.skip(j as int)),
                ));
                assert(p0 + (pad4(tok) + concat_pad4(split_tokens(b@.skip(j as int)))) =~= (p0
                    + pad4(tok)) + concat_pad4(split_tokens(b@.skip(j as int))));
            }
        }
    }
    proof {
        assert(b@.skip(b@.len() as int) =~= Seq::<u8>::empty());
        assert(concat_pad4(Seq::<Seq<u8>>::empty()) =~= Seq::<u8>::empty());
        assert(padded@ + Seq::<u8>::empty() =~= padded@);
        assert(padded@ == total);
    }
    let mut acc: u64 = 0;
    let mut k: usize = 0;
    proof {
        assert(padded@.take(0) =~= Seq::<u8>::empty());
    }
    while k < padded.len()
        invariant
            0 <= k <= padded@.len(),
            padded@ == total,
            forall|q: int| 0 <= q < padded@.len() ==> is_digit(#[trigger] padded@[q], 16),
            digits_value(total, 16) < 0x10000000000000000,
            acc == digits_value(padded@.take(k as int), 16),
            0 <= acc,
        decreases padded@.len() - k,
    {
        let d = hex_val(padded[k]);
        proof {
            lemma_digits_value_nonneg(padded@.take(k as int), 16);
            lemma_digits_value_prefix_le(padded@, 16, k + 1 as int);
            assert(padded@.take(k + 1 as int).drop_last() =~= padded@.take(k as int));
            assert(padded@.take(k + 1 as int).last() == padded@[k as int]);
            assert(digits_value(padded@.take(k + 1 as int), 16) == acc * 16 + d);
        }
        acc = acc * 16 + (d as u64);
        k = k + 1;
    }
    proof {
        assert(padded@.take(padded@.len() as int) =~= padded@);
    }
    acc
}

/// The number of values the 48-bit AS field can take: an AS number is
/// always strictly below this bound.
pub const AS_BOUND: u64 = 0x1000000000000;

/// The packed identifier an ISD and an AS number map to, as a value.
pub open spec fn ia_of(isd: u16, as_: u64) -> int {
    isd * 0x1000000000000 + as_
}

/// The AS-number component of a packed identifier.
pub open spec fn ia_as(ia: u64) -> int {
    ia as int % 0x1000000000000
}

/// The ISD component of a packed identifier.
pub open spec fn ia_isd(ia: u64) -> int {
    ia as int / 0x1000000000000
}

/// Packs an ISD and an AS number into a 64-bit identifier.
pub fn make_ia(isd: u16, as_: u64) -> (r: u64)
    requires
        as_ < AS_BOUND,
    ensures
        r == ia_of(isd, as_),
{
    proof {
        assert(((isd as u64) << 48) | as_ == (isd as u64) * 0x1000000000000 + as_)
            by (bit_vector)
            requires
                as_ < 0x1000000000000,
        ;
    }
    ((isd as u64) << 48) | as_
}

/// Extracts the low 48 bits of an identifier: its AS-number component.
pub fn as_from_ia(ia: u64) -> (r: u64)
    ensures
        r == ia_as(ia),
        r < AS_BOUND,
{
    proof {
        assert((ia << 16) >> 16 == ia % 0x1000000000000) by (bit_vector);
        assert(ia % 0x1000000000000 < 0x1000000000000) by (bit_vector);
    }
    (ia << 16) >> 16
}

/// Extracts the high 16 bits of an identifier: its ISD component.
pub fn isd_from_ia(ia: u64) -> (r: u16)
    ensures
        r == ia_isd(ia),
{
    proof {
        assert(ia >> 48 == ia / 0x1000000000000) by (bit_vector);
        assert((ia >> 48) as u16 == ia >> 48) by (bit_vector);
    }
    (ia >> 48) as u16
}

/// Packing is lossless: unpacking an identifier packed from `isd` and `as_`
/// recovers both fields exactly, for every ISD and every AS number below
/// the 48-bit bound.
pub proof fn lemma_ia_round_trip(isd: u16, as_: u64, ia: u64)
    requires
        as_ < AS_BOUND,
        ia == ia_of(isd, as_),
    ensures
        ia_isd(ia) == isd,
        ia_as(ia) == as_,
{
    assert(ia / 0x1000000000000 == isd && ia % 0x1000000000000 == as_) by (bit_vector)
        requires
            as_ < 0x1000000000000,
            ia == (isd as u64) * 0x1000000000000 + as_,
    ;
}

/// One aligned four-digit chunk, entered with the begin flag set (or a
/// pending separator), emits its digits with leading zeros stripped — or
/// `0:` when it is all zeros — and hands the machine to the next chunk.
#[verifier::spinoff_prover]
#[verifier::rlimit(100)]
pub proof fn lemma_machine_chunk(s: Seq<u8>, p: int, begin0: bool, c: Seq<u8>, z: int)
    requires
        p % 4 == 0,
        0 <= p,
        p + 4 <= s.len(),
        p == 0 ==> begin0,
        c == s.subrange(p, p + 4),
        0 <= z <= 4,
        forall|i: int| 0 <= i < z ==> c[i] == 48,
        z < 4 ==> c[z] != 48,
    ensures
        as_hex_fmt_from(s, p, begin0, 0) == (if begin0 {
            Seq::<u8>::empty()
        } else {
            seq![58u8]
        }) + (if z == 4 {
            seq![48u8, 58u8]
        } else {
            c.skip(z)
        }) + as_hex_fmt_from(s, p + 4, z == 4, 0),
{
    let pre: Seq<u8> = if begin0 {
        Seq::empty()
    } else {
        seq![58u8]
    };
    let m4 = as_hex_fmt_from(s, p + 4, z == 4, 0);
    assert(s[p] == c[0] && s[p + 1] == c[1] && s[p + 2] == c[2] && s[p + 3] == c[3]);
    assert((p + 1) % 4 == 1 && (p + 2) % 4 == 2 && (p + 3) % 4 == 3) by {
        assert(p % 4 == 0);
    }
    if z == 0 {
        assert(as_hex_fmt_from(s, p + 3, false, 0) == seq![c[3]] + m4);
        assert(as_hex_fmt_from(s, p + 2, false, 0) == seq![c[2]] + (seq![c[3]] + m4));
        assert(as_hex_fmt_from(s, p + 1, false, 0) == seq![c[1]] + (seq![c[2]] + (seq![c[3]]
            + m4)));
        assert(as_hex_fmt_from(s, p, begin0, 0) == pre + seq![c[0]] + (seq![c[1]] + (seq![c[2]]
            + (seq![c[3]] + m4))));
        assert(pre + seq![c[0]] + (seq![c[1]] + (seq![c[2]] + (seq![c[3]] + m4))) =~= pre
            + c.skip(0) + m4);
    } else if z == 1 {
        assert(as_hex_fmt_from(s, p + 3, false, 0) == seq![c[3]] + m4);
        assert(as_hex_fmt_from(s, p + 2, false, 0) == seq![c[2]] + (seq![c[3]] + m4));
        assert(as_hex_fmt_from(s, p + 1, true, 1) == seq![c[1]] + (seq![c[2]] + (seq![c[3]]
            + m4)));
        assert(as_hex_fmt_from(s, p, begin0, 0) == pre + as_hex_fmt_from(s, p + 1, true, 1));
        assert(pre + (seq![c[1]] + (seq![c[2]] + (seq![c[3]] + m4))) =~= pre + c.skip(1) + m4);
    } else if z == 2 {
        assert(as_hex_fmt_from(s, p + 3, false, 0) == seq![c[3]] + m4);
        assert(as_hex_fmt_from(s, p + 2, true, 2) == seq![c[2]] + (seq![c[3]] + m4));
        assert(as_hex_fmt_from(s, p + 1, true, 1) == as_hex_fmt_from(s, p + 2, true, 2));
        assert(as_hex_fmt_from(s, p, begin0, 0) == pre + as_hex_fmt_from(s, p + 1, true, 1));
        assert(pre + (seq![c[2]] + (seq![c[3]] + m4)) =~= pre + c.skip(2) + m4);
    } else if z == 3 {
        assert(as_hex_fmt_from(s, p + 3, true, 3) == seq![c[3]] + m4);
        assert(as_hex_fmt_from(s, p + 2, true, 2) == as_hex_fmt_from(s, p + 3, true, 3));
        assert(as_hex_fmt_from(s, p + 1, true, 1) == as_hex_fmt_from(s, p + 2, true, 2));
        assert(as_hex_fmt_from(s, p, begin0, 0) == pre + as_hex_fmt_from(s, p + 1, true, 1));
        assert(pre + (seq![c[3]] + m4) =~= pre + c.skip(3) + m4);
    } else {
        assert(as_hex_fmt_from(s, p + 3, true, 3) == seq![48u8, 58u8] + m4);
        assert(as_hex_fmt_from(s, p + 2, true, 2) == as_hex_fmt_from(s, p + 3, true, 3));
        assert(as_hex_fmt_from(s, p + 1, true, 1) == as_hex_fmt_from(s, p + 2, true, 2));
        assert(as_hex_fmt_from(s, p, begin0, 0) == pre + as_hex_fmt_from(s, p + 1, true, 1));
        assert(pre + (seq![48u8, 58u8] + m4) =~= pre + seq![48u8, 58u8] + m4);
    }
}

/// For an AS number of twelve hex digits whose lowest group is nonzero,
/// the dotted-hex display is exactly the three 16-bit groups rendered
/// without leading zeros: the string-position chunking coincides with the
/// group boundaries.
#[verifier::spinoff_prover]
#[verifier::rlimit(100)]
pub proof fn lemma_as_dotted_hex_aligned(v: int)
    requires
        0x100000000000 <= v < 0x1000000000000,
        v % 0x10000 != 0,
    ensures
        spec_as_to_dotted_hex(v) == digits_of(v / 0x100000000, 16) + seq![58u8] + digits_of(
            v / 0x10000 % 0x10000,
            16,
        ) + seq![58u8] + digits_of(v % 0x10000, 16),
{
    let g0 = v / 0x100000000;
    let g1 = v / 0x10000 % 0x10000;
    let g2 = v % 0x10000;
    let x01 = v / 0x10000;
    vstd::arithmetic::div_mod::lemma_fundamental_div_mod(v, 0x10000);
    vstd::arithmetic::div_mod::lemma_fundamental_div_mod(x01, 0x10000);
    assert(x01 / 0x10000 == g0) by {
        vstd::arithmetic::div_mod::lemma_div_denominator(v, 0x10000, 0x10000);
    }
    assert(g0 >= 0x1000) by {
        vstd::arithmetic::div_mod::lemma_div_multiples_vanish(0x1000, 0x100000000);
        vstd::arithmetic::div_mod::lemma_div_is_ordered(0x100000000000, v, 0x100000000);
    }
    assert(g0 < 0x10000) by {
        vstd::arithmetic::div_mod::lemma_multiply_divide_lt(v, 0x100000000, 0x10000);
    }
    let c1 = seq![
        digit_byte(g1 / 0x1000),
        digit_byte(g1 / 0x100 % 16),
        digit_byte(g1 / 16 % 16),
        digit_byte(g1 % 16),
    ];
    let c2 = seq![
        digit_byte(g2 / 0x1000),
        digit_byte(g2 / 0x100 % 16),
        digit_byte(g2 / 16 % 16),
        digit_byte(g2 % 16),
    ];
    crate::grammar::lemma_digits_of_chunk(x01, g2);
    crate::grammar::lemma_digits_of_chunk(g0, g1);
    let d0 = digits_of(g0, 16);
    let d1 = digits_of(g1, 16);
    let d2 = digits_of(g2, 16);
    let s = digits_of(v, 16);
    assert(s == digits_of(x01, 16) + c2);
    assert(digits_of(x01, 16) == d0 + c1);
    assert(s =~= (d0 + c1) + c2);
    assert(d0.len() == 4) by {
        assert(crate::grammar::pow_of(16, 4) == 0x10000 && crate::grammar::pow_of(16, 3)
            == 0x1000) by {
            reveal_with_fuel(crate::grammar::pow_of, 5);
        }
        crate::grammar::lemma_digits_of_len(g0, 16, 4);
        crate::grammar::lemma_digits_of_len_lower(g0, 16, 4);
    }
    assert(s.len() == 12);
    assert(s.subrange(0, 4) =~= d0);
    assert(s.subrange(4, 8) =~= c1);
    assert(s.subrange(8, 12) =~= c2);
    crate::grammar::lemma_digits_of_bytes(g0, 16);
    crate::grammar::lemma_digits_of_inverse(g0, 16);
    crate::grammar::lemma_chunk_shape(g1);
    crate::grammar::lemma_chunk_shape(g2);
    assert forall|i: int| 0 <= i < 4 implies (48 <= #[trigger] c1[i] <= 57 || 97 <= c1[i] <= 102) by {
        vstd::arithmetic::div_mod::lemma_mod_bound(g1, 16);
        vstd::arithmetic::div_mod::lemma_mod_bound(g1 / 16, 16);
        vstd::arithmetic::div_mod::lemma_mod_bound(g1 / 0x100, 16);
        assert(g1 / 0x1000 < 16);
    }
    assert forall|i: int| 0 <= i < 4 implies (48 <= #[trigger] c2[i] <= 57 || 97 <= c2[i] <= 102) by {
        vstd::arithmetic::div_mod::lemma_mod_bound(g2, 16);
        vstd::arithmetic::div_mod::lemma_mod_bound(g2 / 16, 16);
        vstd::arithmetic::div_mod::lemma_mod_bound(g2 / 0x100, 16);
        assert(g2 / 0x1000 < 16);
    }
    lemma_machine_chunk(s, 0, true, d0, 0);
    let z2 = 4 - d2.len() as int;
    assert(g2 > 0);
    let m12 = as_hex_fmt_from(s, 12, false, 0);
    let m12t = as_hex_fmt_from(s, 12, true, 0);
    assert(m12 =~= Seq::<u8>::empty());
    assert(m12t =~= Seq::<u8>::empty());
    if g1 == 0 {
        lemma_machine_chunk(s, 4, false, c1, 4);
        lemma_machine_chunk(s, 8, true, c2, z2);
        assert(c2.skip(z2) == d2);
        assert(d1 =~= seq![48u8]);
        assert(as_hex_fmt_from(s, 0, true, 0) =~= d0 + seq![58u8] + d1 + seq![58u8] + d2);
    } else {
        let z1 = 4 - d1.len() as int;
        lemma_machine_chunk(s, 4, false, c1, z1);
        lemma_machine_chunk(s, 8, false, c2, z2);
        assert(c1.skip(z1) == d1);
        assert(c2.skip(z2) == d2);
        assert(as_hex_fmt_from(s, 0, true, 0) =~= d0 + seq![58u8] + d1 + seq![58u8] + d2);
    }
}

/// A byte the AS segment of the line grammar may contain: a hex digit or
/// a colon.
pub open spec fn as_seg_byte(b: u8) -> bool {
    is_digit(b, 16) || b == 58
}

/// A byte a bracketed host may contain: anything but the closing bracket.
pub open spec fn bracket_host_byte(b: u8) -> bool {
    b != 93
}

/// A byte a bare host may contain: anything but brackets and colons.
pub open spec fn bare_host_byte(b: u8) -> bool {
    b != 91 && b != 93 && b != 58
}

/// Length of the maximal prefix of hex digits and colons.
pub open spec fn as_seg_run_len(s: Seq<u8>) -> int
    decreases s.len(),
{
    if s.len() == 0 || !as_seg_byte(s[0]) {
        0
    } else {
        1 + as_seg_run_len(s.skip(1))
    }
}

/// Length of the maximal prefix without a closing bracket.
pub open spec fn bracket_host_run_len(s: Seq<u8>) -> int
    decreases s.len(),
{
    if s.len() == 0 || !bracket_host_byte(s[0]) {
        0
    } else {
        1 + bracket_host_run_len(s.skip(1))
    }
}

/// Length of the maximal prefix of bare-host bytes.
pub open spec fn bare_host_run_len(s: Seq<u8>) -> int
    decreases s.len(),
{
    if s.len() == 0 || !bare_host_byte(s[0]) {
        0
    } else {
        1 + bare_host_run_len(s.skip(1))
    }
}

/// Each run stays within `s`, its bytes satisfy the class, and it stops
/// at the first byte that does not.
pub proof fn lemma_line_runs(s: Seq<u8>)
    ensures
        0 <= as_seg_run_len(s) <= s.len(),
        forall|i: int| 0 <= i < as_seg_run_len(s) ==> as_seg_byte(s[i]),
        as_seg_run_len(s) < s.len() ==> !as_seg_byte(s[as_seg_run_len(s)]),
        0 <= bracket_host_run_len(s) <= s.len(),
        forall|i: int| 0 <= i < bracket_host_run_len(s) ==> bracket_host_byte(s[i]),
        bracket_host_run_len(s) < s.len() ==> !bracket_host_byte(s[bracket_host_run_len(s)]),
        0 <= bare_host_run_len(s) <= s.len(),
        forall|i: int| 0 <= i < bare_host_run_len(s) ==> bare_host_byte(s[i]),
        bare_host_run_len(s) < s.len() ==> !bare_host_byte(s[bare_host_run_len(s)]),
    decreases s.len(),
{
    if s.len() == 0 {
    } else {
        lemma_line_runs(s.skip(1));
        let ka = as_seg_run_len(s);
        if s.len() > 0 && as_seg_byte(s[0]) {
            assert forall|i: int| 0 <= i < ka implies as_seg_byte(s[i]) by {
                if i > 0 {
                    assert(as_seg_byte(s.skip(1)[i - 1]));
                }
            }
            if ka < s.len() {
                assert(!as_seg_byte(s.skip(1)[ka - 1]));
            }
        }
        let kb = bracket_host_run_len(s);
        if s.len() > 0 && bracket_host_byte(s[0]) {
            assert forall|i: int| 0 <= i < kb implies bracket_host_byte(s[i]) by {
                if i > 0 {
                    assert(bracket_host_byte(s.skip(1)[i - 1]));
                }
            }
            if kb < s.len() {
                assert(!bracket_host_byte(s.skip(1)[kb - 1]));
            }
        }
        let kc = bare_host_run_len(s);
        if s.len() > 0 && bare_host_byte(s[0]) {
            assert forall|i: int| 0 <= i < kc implies bare_host_byte(s[i]) by {
                if i > 0 {
                    assert(bare_host_byte(s.skip(1)[i - 1]));
                }
            }
            if kc < s.len() {
                assert(!bare_host_byte(s.skip(1)[kc - 1]));
            }
        }
    }
}

/// The optional `:port` tail of the line grammar: nothing, or a colon
/// followed by one or more digits reaching the end.
pub open spec fn spec_port_tail(s: Seq<u8>) -> Option<Option<Seq<u8>>> {
    if s.len() == 0 {
        Some(None)
    } else if s[0] == 58 && s.len() >= 2 && crate::grammar::digit_run_len(s.skip(1), 10)
        == s.skip(1).len() {
        Some(Some(s.skip(1)))
    } else {
        None
    }
}

/// The anchored line grammar `ISD-AS,HOST[:port]`: a decimal ISD, a dash,
/// a run of hex digits and colons, a comma, then either a bracketed host
/// (any bytes up to the closing bracket) or a bare one (no brackets, no
/// colon), and an optional trailing port.  Yields the ISD digits, the AS
/// text, the host text, and the port digits if present.
pub open spec fn spec_scion_line(s: Seq<u8>) -> Option<
    (Seq<u8>, Seq<u8>, Seq<u8>, Option<Seq<u8>>),
> {
    let k0 = crate::grammar::digit_run_len(s, 10);
    if k0 == 0 || k0 >= s.len() || s[k0] != 45 {
        None
    } else {
        let s2 = s.skip(k0 + 1);
        let k1 = as_seg_run_len(s2);
        if k1 == 0 || k1 >= s2.len() || s2[k1] != 44 {
            None
        } else {
            let s4 = s2.skip(k1 + 1);
            if starts_with_bracket(s4) {
                let k2 = bracket_host_run_len(s4.skip(1));
                if k2 == 0 || 1 + k2 >= s4.len() || s4[1 + k2] != 93 {
                    None
                } else {
                    match spec_port_tail(s4.skip(1 + k2 + 1)) {
                        None => None,
                        Some(pd) => Some(
                            (s.take(k0), s2.take(k1), s4.skip(1).take(k2), pd),
                        ),
                    }
                }
            } else {
                let k2 = bare_host_run_len(s4);
                if k2 == 0 {
                    None
                } else {
                    match spec_port_tail(s4.skip(k2)) {
                        None => None,
                        Some(pd) => Some((s.take(k0), s2.take(k1), s4.take(k2), pd)),
                    }
                }
            }
        }
    }
}

/// Does `s` begin with an opening bracket?
pub open spec fn starts_with_bracket(s: Seq<u8>) -> bool {
    s.len() > 0 && s[0] == 91
}

/// Digits with an optional leading plus sign, the whole text, with a
/// value at most `cap`: what the standard decimal parse of an unsigned
/// integer accepts.
pub open spec fn spec_plain_number(s: Seq<u8>, cap: int) -> bool {
    let d = if s.len() >= 1 && s[0] == 43 {
        s.skip(1)
    } else {
        s
    };
    d.len() >= 1 && crate::grammar::digit_run_len(d, 10) == d.len() && digits_value(d, 10) <= cap
}

/// The digit part of such a text.
pub open spec fn spec_plain_digits(s: Seq<u8>) -> Seq<u8> {
    if s.len() >= 1 && s[0] == 43 {
        s.skip(1)
    } else {
        s
    }
}

/// Advances from `start` over decimal digits.
fn scan_while_digit(b: &[u8], start: usize) -> (r: usize)
    requires
        start <= b@.len(),
    ensures
        start <= r <= b@.len(),
        forall|j: int| start <= j < r ==> is_digit(#[trigger] b@[j], 10),
        r < b@.len() ==> !is_digit(b@[r as int], 10),
{
    let mut i = start;
    while i < b.len() && 48 <= b[i] && b[i] <= 57
        invariant
            start <= i <= b@.len(),
            forall|j: int| start <= j < i ==> is_digit(#[trigger] b@[j], 10),
        decreases b@.len() - i,
    {
        i = i + 1;
    }
    i
}

/// Advances from `start` over hex digits and colons.
fn scan_while_as_seg(b: &[u8], start: usize) -> (r: usize)
    requires
        start <= b@.len(),
    ensures
        start <= r <= b@.len(),
        forall|j: int| start <= j < r ==> as_seg_byte(#[trigger] b@[j]),
        r < b@.len() ==> !as_seg_byte(b@[r as int]),
{
    let mut i = start;
    while i < b.len() && (b[i] == 58 || (48 <= b[i] && b[i] <= 57) || (97 <= b[i] && b[i] <= 102)
        || (65 <= b[i] && b[i] <= 70))
        invariant
            start <= i <= b@.len(),
            forall|j: int| start <= j < i ==> as_seg_byte(#[trigger] b@[j]),
        decreases b@.len() - i,
    {
        i = i + 1;
    }
    i
}

/// Advances from `start` up to the closing bracket.
fn scan_while_bracket_host(b: &[u8], start: usize) -> (r: usize)
    requires
        start <= b@.len(),
    ensures
        start <= r <= b@.len(),
        forall|j: int| start <= j < r ==> bracket_host_byte(#[trigger] b@[j]),
        r < b@.len() ==> !bracket_host_byte(b@[r as int]),
{
    let mut i = start;
    while i < b.len() && b[i] != 93
        invariant
            start <= i <= b@.len(),
            forall|j: int| start <= j < i ==> bracket_host_byte(#[trigger] b@[j]),
        decreases b@.len() - i,
    {
        i = i + 1;
    }
    i
}

/// Advances from `start` over bytes a bare host may contain.
fn scan_while_bare_host(b: &[u8], start: usize) -> (r: usize)
    requires
        start <= b@.len(),
    ensures
        start <= r <= b@.len(),
        forall|j: int| start <= j < r ==> bare_host_byte(#[trigger] b@[j]),
        r < b@.len() ==> !bare_host_byte(b@[r as int]),
{
    let mut i = start;
    while i < b.len() && b[i] != 91 && b[i] != 93 && b[i] != 58
        invariant
            start <= i <= b@.len(),
            forall|j: int| start <= j < i ==> bare_host_byte(#[trigger] b@[j]),
        decreases b@.len() - i,
    {
        i = i + 1;
    }
    i
}

/// The value of the decimal digits `b[start..end]`, for values that fit
/// the given cap.
fn digits_to_u64(b: &[u8], start: usize, end: usize, cap: u64) -> (r: u64)
    requires
        start <= end <= b@.len(),
        forall|j: int| start <= j < end ==> is_digit(#[trigger] b@[j], 10),
        digits_value(b@.subrange(start as int, end as int), 10) <= cap,
        cap <= 65535,
    ensures
        r == digits_value(b@.subrange(start as int, end as int), 10),
{
    let ghost whole = b@.subrange(start as int, end as int);
    let mut acc: u64 = 0;
    let mut i = start;
    proof {
        assert(b@.subrange(start as int, start as int) =~= whole.take(0));
        lemma_digits_value_nonneg(whole, 10);
    }
    while i < end
        invariant
            start <= i <= end <= b@.len(),
            cap <= 65535,
            whole == b@.subrange(start as int, end as int),
            forall|j: int| start <= j < end ==> is_digit(#[trigger] b@[j], 10),
            digits_value(whole, 10) <= cap,
            acc == digits_value(whole.take(i - start), 10),
            acc <= cap,
        decreases end - i,
    {
        let d = b[i] - 48;
        proof {
            lemma_digits_value_nonneg(whole.take(i - start), 10);
            lemma_digits_value_prefix_le(whole, 10, i + 1 - start);
            assert(whole.take(i + 1 - start).drop_last() =~= whole.take(i - start));
            assert(whole.take(i + 1 - start).last() == b@[i as int]);
            assert(digit_value(b@[i as int], 10) == d);
            assert(digits_value(whole.take(i + 1 - start), 10) == acc * 10 + d);
        }
        acc = acc * 10 + (d as u64);
        i = i + 1;
    }
    proof {
        assert(whole.take(end - start) =~= whole);
    }
    acc
}

/// Parses a whole SCION endpoint line `ISD-AS,HOST[:port]` in one sweep,
/// taking the port from `port_str` when the line carries none.  The host
/// may be any bracketed text, or bare text without brackets or colons; it
/// is returned as written, not validated.  Yields the packed identifier,
/// the ISD, the 48-bit AS number, the host text and the port.
#[verifier::spinoff_prover]
#[verifier::rlimit(100)]
pub fn parse_scion_impl(host_scion_addr: &str, port_str: &str) -> (r: (u64, u16, u64, String, u16))
    requires
        vstd::string::is_ascii(host_scion_addr),
        spec_scion_line(host_scion_addr.spec_bytes()) is Some,
        ({
            let line = spec_scion_line(host_scion_addr.spec_bytes()).unwrap();
            &&& digits_value(line.0, 10) <= 65535
            &&& split_tokens(line.1).len() >= 1
            &&& spec_as_from_dotted_hex(line.1) < 0x10000000000000000
            &&& match line.3 {
                Some(pd) => digits_value(pd, 10) <= 65535,
                None => spec_plain_number(port_str.spec_bytes(), 65535),
            }
        }),
    ensures
        ({
            let line = spec_scion_line(host_scion_addr.spec_bytes()).unwrap();
            let isd = digits_value(line.0, 10);
            let as48 = spec_as_from_dotted_hex(line.1) % 0x1000000000000;
            &&& r.0 == isd * 0x1000000000000 + as48
            &&& r.1 == isd
            &&& r.2 == as48
            &&& r.3@ == ascii_chars(line.2)
            &&& r.4 == match line.3 {
                Some(pd) => digits_value(pd, 10),
                None => digits_value(spec_plain_digits(port_str.spec_bytes()), 10),
            }
        }),
{
    let b = host_scion_addr.as_bytes();
    let blen = b.len();
    let ghost sb = host_scion_addr.spec_bytes();
    let ghost line = spec_scion_line(sb).unwrap();
    proof {
        vstd::string::is_ascii_spec_bytes(host_scion_addr);
        assert(sb.len() == blen);
    }
    // the ISD digits
    let k0 = scan_while_digit(b, 0);
    proof {
        crate::grammar::lemma_digit_run(sb, 10);
        let kk = crate::grammar::digit_run_len(sb, 10);
        if kk < k0 {
            assert(is_digit(sb[kk], 10));
        }
        if k0 < kk {
            assert(is_digit(sb[k0 as int], 10));
        }
        assert(kk == k0);
        assert(b@.subrange(0, k0 as int) =~= sb.take(k0 as int));
    }
    proof {
        assert(k0 < b@.len() && sb[k0 as int] == 45);
    }
    let isd64 = digits_to_u64(b, 0, k0, 65535);
    let isd = isd64 as u16;
    // the AS text
    let a_start = k0 + 1;
    let a_end = scan_while_as_seg(b, a_start);
    proof {
        let s2 = sb.skip(a_start as int);
        lemma_line_runs(s2);
        let kk = as_seg_run_len(s2);
        assert forall|j: int| 0 <= j < a_end - a_start implies as_seg_byte(#[trigger] s2[j]) by {
            assert(s2[j] == b@[a_start + j]);
        }
        if kk < a_end - a_start {
            assert(as_seg_byte(s2[kk]));
        }
        if a_end - a_start < kk {
            assert(as_seg_byte(s2[a_end - a_start]));
            assert(s2[a_end - a_start] == b@[a_end as int]);
        }
        assert(kk == a_end - a_start);
    }
    proof {
        assert(a_end < b@.len() && sb[a_end as int] == 44);
    }
    let as_str = host_scion_addr.substring_ascii(a_start, a_end);
    proof {
        vstd::string::is_ascii_spec_bytes(as_str);
        assert(as_str.spec_bytes() =~= sb.subrange(a_start as int, a_end as int)) by {
            assert forall|j: int| 0 <= j < a_end - a_start implies as_str.spec_bytes()[j] == sb[
                a_start + j
            ] by {
                assert(as_str@[j] == host_scion_addr@[a_start + j]);
            }
        }
        assert(sb.skip(a_start as int).take(a_end - a_start) =~= sb.subrange(
            a_start as int,
            a_end as int,
        ));
        assert(line.1 == as_str.spec_bytes());
    }
    let as_full = as_from_dotted_hex(as_str);
    let as48 = as_from_ia(as_full);
    let ia = make_ia(isd, as48);
    // the host text
    let h_start = a_end + 1;
    let ghost s4 = sb.skip(h_start as int);
    proof {
        crate::grammar::lemma_skip_skip(sb, a_start as int, a_end - a_start + 1);
        assert(sb.skip(a_start as int).skip(a_end - a_start + 1) == s4);
    }
    let bracketed = h_start < b.len() && b[h_start] == 91;
    proof {
        if s4.len() > 0 {
            assert(s4[0] == sb[h_start as int]);
        }
        assert(bracketed == starts_with_bracket(s4));
    }
    let hs: usize;
    let he: usize;
    let after: usize;
    if bracketed {
        hs = h_start + 1;
        he = scan_while_bracket_host(b, hs);
        proof {
            let inner = s4.skip(1);
            lemma_line_runs(inner);
            let kk = bracket_host_run_len(inner);
            assert forall|j: int| 0 <= j < he - hs implies bracket_host_byte(
                #[trigger] inner[j],
            ) by {
                assert(inner[j] == b@[hs + j]);
            }
            if kk < he - hs {
                assert(bracket_host_byte(inner[kk]));
            }
            if he - hs < kk {
                assert(bracket_host_byte(inner[he - hs]));
                assert(inner[he - hs] == b@[he as int]);
            }
            assert(kk == he - hs);
            assert(1 + kk < s4.len() && s4[1 + kk] == 93);
            assert(line.2 == s4.skip(1).take(he - hs));
            assert(s4.skip(1).take(he - hs) =~= sb.subrange(hs as int, he as int));
        }
        after = he + 1;
        proof {
            assert(s4.skip(1 + (he - hs) + 1) =~= sb.skip(after as int));
        }
    } else {
        hs = h_start;
        he = scan_while_bare_host(b, hs);
        after = he;
        proof {
            lemma_line_runs(s4);
            let kk = bare_host_run_len(s4);
            assert forall|j: int| 0 <= j < he - hs implies bare_host_byte(#[trigger] s4[j]) by {
                assert(s4[j] == b@[hs + j]);
            }
            if kk < he - hs {
                assert(bare_host_byte(s4[kk]));
            }
            if he - hs < kk {
                assert(bare_host_byte(s4[he - hs]));
                assert(s4[he - hs] == b@[he as int]);
            }
            assert(kk == he - hs);
            assert(s4.skip(kk) =~= sb.skip(after as int));
            assert(line.2 == s4.take(he - hs));
            assert(s4.take(he - hs) =~= sb.subrange(hs as int, he as int));
        }
    }
    let host = host_scion_addr.substring_ascii(hs, he);
    proof {
        assert(host@ =~= ascii_chars(line.2)) by {
            assert forall|j: int| 0 <= j < he - hs implies host@[j] == ascii_chars(line.2)[j] by {
                assert(host@[j] == host_scion_addr@[hs + j]);
                assert(line.2[j] == sb[hs + j]);
            }
        }
    }
    // the port: from the line when present, from `port_str` otherwise
    let ghost s5 = sb.skip(after as int);
    let port: u16;
    if after < b.len() {
        proof {
            assert(s5[0] == sb[after as int]);
            assert(s5.len() >= 2);
            crate::grammar::lemma_digit_run(s5.skip(1), 10);
            assert forall|j: int| after + 1 <= j < b@.len() implies is_digit(
                #[trigger] b@[j],
                10,
            ) by {
                assert(s5.skip(1)[j - after - 1] == b@[j]);
            }
            assert(b@.subrange(after + 1 as int, b@.len() as int) =~= s5.skip(1));
            assert(line.3 == Some(s5.skip(1)));
        }
        let pv = digits_to_u64(b, after + 1, b.len(), 65535);
        port = pv as u16;
    } else {
        proof {
            assert(s5.len() == 0);
            assert(line.3 is None);
        }
        let pb = port_str.as_bytes();
        let ghost pd = spec_plain_digits(port_str.spec_bytes());
        let st: usize = if pb.len() >= 1 && pb[0] == 43 {
            1
        } else {
            0
        };
        proof {
            crate::grammar::lemma_digit_run(pd, 10);
            assert(pd =~= pb@.subrange(st as int, pb@.len() as int));
            assert forall|j: int| st <= j < pb@.len() implies is_digit(#[trigger] pb@[j], 10) by {
                assert(pd[j - st] == pb@[j]);
            }
        }
        let pv = digits_to_u64(pb, st, pb.len(), 65535);
        port = pv as u16;
    }
    let host_string = String::from_str(host);
    (ia, isd, as48, host_string, port)
}

} // verus!
