//! ASCII text output: the canonical numeral writer, the IPv4 and IPv6
//! formatters, and the byte-to-string assembler.
//!
//! Formatters produce byte sequences described by spec functions over the
//! same numeral model the scanner is specified with; `ascii_string` turns
//! the finished bytes into a `String` character for character.

use vstd::prelude::*;
use vstd::arithmetic::div_mod::lemma_div_decreases;
use crate::grammar::digit_byte;
use crate::grammar::digits_of;

verus! {

/// The output alphabet of every formatter in this library: decimal and
/// lowercase hex digits and the punctuation of the address grammars.
pub open spec fn is_text_byte(b: u8) -> bool {
    (48 <= b <= 57) || (97 <= b <= 102) || b == 46 || b == 58 || b == 45 || b == 44 || b == 91
        || b == 93 || b == 37
}

/// The characters spelled by a byte sequence, one per byte.
pub open spec fn ascii_chars(bs: Seq<u8>) -> Seq<char> {
    Seq::new(bs.len(), |i: int| bs[i] as char)
}

/// The colon-separated lowercase-hex rendering of a group sequence, no
/// leading zeros within a group.
pub open spec fn join_hex(gs: Seq<u16>) -> Seq<u8>
    decreases gs.len(),
{
    if gs.len() == 0 {
        Seq::empty()
    } else if gs.len() == 1 {
        digits_of(gs[0] as int, 16)
    } else {
        digits_of(gs[0] as int, 16) + seq![58u8] + join_hex(gs.skip(1))
    }
}

/// The dotted-decimal rendering of four octets.
pub open spec fn spec_fmt_ipv4(o: Seq<u8>) -> Seq<u8> {
    digits_of(o[0] as int, 10) + seq![46u8] + digits_of(o[1] as int, 10) + seq![46u8] + digits_of(
        o[2] as int,
        10,
    ) + seq![46u8] + digits_of(o[3] as int, 10)
}

/// Length of the zero run beginning at index `i`.
pub open spec fn zrun_at(g: Seq<u16>, i: int) -> int
    decreases g.len() - i when i >= 0
{
    if 0 <= i < g.len() && g[i] == 0 {
        1 + zrun_at(g, i + 1)
    } else {
        0
    }
}

/// The left-to-right scan for the longest zero run: the best run is
/// replaced only by a strictly longer one, so the first longest run wins.
pub open spec fn best_zero_run(g: Seq<u16>, i: int, bs: int, bl: int) -> (int, int)
    decreases g.len() - i when i >= 0
{
    if i >= g.len() {
        (bs, bl)
    } else {
        let l = zrun_at(g, i);
        if l > bl {
            best_zero_run(g, i + 1, i, l)
        } else {
            best_zero_run(g, i + 1, bs, bl)
        }
    }
}

/// Are these eight groups an IPv4-mapped address `::ffff:a.b.c.d`?
pub open spec fn is_mapped_segs(g: Seq<u16>) -> bool {
    g[0] == 0 && g[1] == 0 && g[2] == 0 && g[3] == 0 && g[4] == 0 && g[5] == 0xffff
}

/// The canonical rendering of eight 16-bit groups: the IPv4-mapped form
/// prints its dotted-decimal suffix; otherwise the first longest zero run
/// of length at least two collapses to `::`, and all other groups print
/// as lowercase hex without leading zeros.
pub open spec fn spec_fmt_ipv6(g: Seq<u16>) -> Seq<u8> {
    if is_mapped_segs(g) {
        seq![58u8, 58u8, 102u8, 102u8, 102u8, 102u8, 58u8] + spec_fmt_ipv4(
            seq![
                (g[6] / 0x100) as u8,
                (g[6] % 0x100) as u8,
                (g[7] / 0x100) as u8,
                (g[7] % 0x100) as u8,
            ],
        )
    } else {
        let run = best_zero_run(g, 0, 0, 0);
        if run.1 > 1 {
            join_hex(g.take(run.0)) + seq![58u8, 58u8] + join_hex(g.skip(run.0 + run.1))
        } else {
            join_hex(g)
        }
    }
}

/// Appending a group to a nonempty sequence appends `:` and its hex
/// digits to the rendering.
pub proof fn lemma_join_hex_push(gs: Seq<u16>, x: u16)
    requires
        gs.len() >= 1,
    ensures
        join_hex(gs.push(x)) == join_hex(gs) + seq![58u8] + digits_of(x as int, 16),
    decreases gs.len(),
{
    let w = gs.push(x);
    if gs.len() == 1 {
        assert(w.len() == 2);
        assert(w.skip(1) =~= seq![x]);
        assert(join_hex(seq![x]) == digits_of(x as int, 16));
        assert(w[0] == gs[0]);
    } else {
        assert(w.skip(1) =~= gs.skip(1).push(x));
        lemma_join_hex_push(gs.skip(1), x);
        assert(w[0] == gs[0]);
        assert(join_hex(w) == digits_of(w[0] as int, 16) + seq![58u8] + join_hex(w.skip(1)));
        assert(digits_of(gs[0] as int, 16) + seq![58u8] + (join_hex(gs.skip(1)) + seq![58u8]
            + digits_of(x as int, 16)) =~= (digits_of(gs[0] as int, 16) + seq![58u8] + join_hex(
            gs.skip(1),
        )) + seq![58u8] + digits_of(x as int, 16));
    }
}

/// Appends the canonical numeral of `v` in the given radix.
pub fn write_digits(out: &mut Vec<u8>, v: u64, radix: u64)
    requires
        radix == 10 || radix == 16,
    ensures
        final(out)@ == old(out)@ + digits_of(v as int, radix as int),
        forall|i: int|
            old(out)@.len() <= i < final(out)@.len() ==> is_text_byte(#[trigger] final(out)@[i]),
    decreases v,
{
    proof {
        crate::grammar::lemma_digits_of_bytes(v as int, radix as int);
    }
    let d = (v % radix) as u8;
    let b: u8 = if d < 10 {
        48 + d
    } else {
        87 + d
    };
    proof {
        assert(b == digit_byte((v as int) % (radix as int)));
    }
    if v >= radix {
        proof {
            lemma_div_decreases(v as int, radix as int);
        }
        write_digits(out, v / radix, radix);
        out.push(b);
        proof {
            assert(old(out)@ + digits_of((v / radix) as int, radix as int).push(b) =~= old(out)@
                + digits_of((v / radix) as int, radix as int) + seq![b]);
            assert(digits_of(v as int, radix as int) =~= digits_of(
                (v / radix) as int,
                radix as int,
            ) + seq![b]);
        }
    } else {
        out.push(b);
        proof {
            assert((v as int) % (radix as int) == v as int);
            assert(digits_of(v as int, radix as int) =~= seq![b]);
            assert(out@ =~= old(out)@ + seq![b]);
        }
    }
}

/// Appends the dotted-decimal rendering of an IPv4 address.
pub fn write_ipv4(out: &mut Vec<u8>, o0: u8, o1: u8, o2: u8, o3: u8)
    ensures
        final(out)@ == old(out)@ + spec_fmt_ipv4(seq![o0, o1, o2, o3]),
        forall|i: int|
            old(out)@.len() <= i < final(out)@.len() ==> is_text_byte(#[trigger] final(out)@[i]),
{
    write_digits(out, o0 as u64, 10);
    out.push(46);
    write_digits(out, o1 as u64, 10);
    out.push(46);
    write_digits(out, o2 as u64, 10);
    out.push(46);
    write_digits(out, o3 as u64, 10);
    proof {
        assert(out@ =~= old(out)@ + spec_fmt_ipv4(seq![o0, o1, o2, o3]));
    }
}

/// Appends the colon-separated hex rendering of `g[from..to]`.
fn write_groups_hex(out: &mut Vec<u8>, g: &[u16; 8], from: usize, to: usize)
    requires
        from <= to <= 8,
    ensures
        final(out)@ == old(out)@ + join_hex(g@.subrange(from as int, to as int)),
        forall|i: int|
            old(out)@.len() <= i < final(out)@.len() ==> is_text_byte(#[trigger] final(out)@[i]),
{
    if from == to {
        proof {
            assert(join_hex(g@.subrange(from as int, to as int)) =~= Seq::<u8>::empty());
            assert(out@ =~= old(out)@ + Seq::<u8>::empty());
        }
        return ;
    }
    write_digits(out, g[from] as u64, 16);
    proof {
        assert(g@.subrange(from as int, from + 1 as int) =~= seq![g@[from as int]]);
        assert(join_hex(seq![g@[from as int]]) == digits_of(g@[from as int] as int, 16));
    }
    let mut i = from + 1;
    while i < to
        invariant
            from < i <= to,
            to <= 8,
            out@ == old(out)@ + join_hex(g@.subrange(from as int, i as int)),
            forall|k: int| old(out)@.len() <= k < out@.len() ==> is_text_byte(#[trigger] out@[k]),
        decreases to - i,
    {
        out.push(58);
        write_digits(out, g[i] as u64, 16);
        proof {
            lemma_join_hex_push(g@.subrange(from as int, i as int), g@[i as int]);
            assert(g@.subrange(from as int, i + 1 as int) =~= g@.subrange(
                from as int,
                i as int,
            ).push(g@[i as int]));
            assert(out@ =~= old(out)@ + join_hex(g@.subrange(from as int, i + 1 as int)));
        }
        i = i + 1;
    }
    proof {
        assert(out@ == old(out)@ + join_hex(g@.subrange(from as int, to as int)));
    }
}

/// Appends the canonical rendering of an IPv6 address given as its eight
/// segments.
pub fn write_ipv6(out: &mut Vec<u8>, ip: &crate::ip_v6_addr::Ipv6Addr)
    ensures
        final(out)@ == old(out)@ + spec_fmt_ipv6(ip.spec_segments()),
        forall|i: int|
            old(out)@.len() <= i < final(out)@.len() ==> is_text_byte(#[trigger] final(out)@[i]),
{
    let s = ip.segments();
    let ghost gs = ip.spec_segments();
    if s[0] == 0 && s[1] == 0 && s[2] == 0 && s[3] == 0 && s[4] == 0 && s[5] == 0xffff {
        out.push(58);
        out.push(58);
        out.push(102);
        out.push(102);
        out.push(102);
        out.push(102);
        out.push(58);
        write_ipv4(
            out,
            (s[6] / 0x100) as u8,
            (s[6] % 0x100) as u8,
            (s[7] / 0x100) as u8,
            (s[7] % 0x100) as u8,
        );
        proof {
            assert(out@ =~= old(out)@ + spec_fmt_ipv6(gs));
        }
        return ;
    }
    let mut best_start: usize = 0;
    let mut best_len: usize = 0;
    let mut i: usize = 0;
    while i < 8
        invariant
            0 <= i <= 8,
            gs.len() == 8,
            s@ == gs,
            0 <= best_start <= 8,
            0 <= best_len <= 8,
            best_start + best_len <= 8,
            best_zero_run(gs, 0, 0, 0) == best_zero_run(
                gs,
                i as int,
                best_start as int,
                best_len as int,
            ),
        decreases 8 - i,
    {
        let mut l: usize = 0;
        while i + l < 8 && s[i + l] == 0
            invariant
                0 <= i < 8,
                0 <= l <= 8 - i,
                s@ == gs,
                gs.len() == 8,
                zrun_at(gs, i as int) == l + zrun_at(gs, i + l as int),
            decreases 8 - i - l,
        {
            l = l + 1;
        }
        proof {
            assert(zrun_at(gs, i + l as int) == 0);
        }
        if l > best_len {
            best_start = i;
            best_len = l;
        }
        i = i + 1;
    }
    let ghost run = best_zero_run(gs, 0, 0, 0);
    proof {
        assert(run == (best_start as int, best_len as int));
    }
    if best_len > 1 {
        write_groups_hex(out, &s, 0, best_start);
        out.push(58);
        out.push(58);
        write_groups_hex(out, &s, best_start + best_len, 8);
        proof {
            assert(gs.take(run.0) =~= gs.subrange(0, best_start as int));
            assert(gs.skip(run.0 + run.1) =~= gs.subrange(best_start + best_len as int, 8));
            assert(out@ =~= old(out)@ + spec_fmt_ipv6(gs));
        }
    } else {
        write_groups_hex(out, &s, 0, 8);
        proof {
            assert(gs.subrange(0, 8) =~= gs);
            assert(out@ =~= old(out)@ + spec_fmt_ipv6(gs));
        }
    }
}

/// Turns formatter output into a `String`, one character per byte.
pub fn ascii_string(bytes: &Vec<u8>) -> (r: String)
    requires
        forall|i: int| 0 <= i < bytes@.len() ==> is_text_byte(#[trigger] bytes@[i]),
    ensures
        r@ == ascii_chars(bytes@),
{
    let mut s = String::new();
    let mut i: usize = 0;
    proof {
        assert(s@ =~= ascii_chars(bytes@.take(0)));
    }
    while i < bytes.len()
        invariant
            0 <= i <= bytes@.len(),
            forall|j: int| 0 <= j < bytes@.len() ==> is_text_byte(#[trigger] bytes@[j]),
            s@ == ascii_chars(bytes@.take(i as int)),
        decreases bytes@.len() - i,
    {
        let b = bytes[i];
        match b {
            48 => s.append("0"),
            49 => s.append("1"),
            50 => s.append("2"),
            51 => s.append("3"),
            52 => s.append("4"),
            53 => s.append("5"),
            54 => s.append("6"),
            55 => s.append("7"),
            56 => s.append("8"),
            57 => s.append("9"),
            97 => s.append("a"),
            98 => s.append("b"),
            99 => s.append("c"),
            100 => s.append("d"),
            101 => s.append("e"),
            102 => s.append("f"),
            46 => s.append("."),
            58 => s.append(":"),
            45 => s.append("-"),
            44 => s.append(","),
            91 => s.append("["),
            93 => s.append("]"),
            _ => s.append("%"),
        }
        proof {
            reveal_strlit("0");
            reveal_strlit("1");
            reveal_strlit("2");
            reveal_strlit("3");
            reveal_strlit("4");
            reveal_strlit("5");
            reveal_strlit("6");
            reveal_strlit("7");
            reveal_strlit("8");
            reveal_strlit("9");
            reveal_strlit("a");
            reveal_strlit("b");
            reveal_strlit("c");
            reveal_strlit("d");
            reveal_strlit("e");
            reveal_strlit("f");
            reveal_strlit(".");
            reveal_strlit(":");
            reveal_strlit("-");
            reveal_strlit(",");
            reveal_strlit("[");
            reveal_strlit("]");
            reveal_strlit("%");
            assert(s@ =~= ascii_chars(bytes@.take(i + 1 as int)));
        }
        i = i + 1;
    }
    proof {
        assert(bytes@.take(bytes@.len() as int) =~= bytes@);
    }
    s
}


/// The canonical rendering of an IP address: dotted decimal for V4, the
/// compressed colon-hex form for V6.
pub open spec fn spec_fmt_ip(ip: crate::ip_addr::IpAddr) -> Seq<u8> {
    match ip {
        crate::ip_addr::IpAddr::V4(a) => spec_fmt_ipv4(a@),
        crate::ip_addr::IpAddr::V6(a) => spec_fmt_ipv6(a.spec_segments()),
    }
}

/// Appends the canonical rendering of an IP address.
pub fn write_ip(out: &mut Vec<u8>, ip: &crate::ip_addr::IpAddr)
    ensures
        final(out)@ == old(out)@ + spec_fmt_ip(*ip),
        forall|i: int|
            old(out)@.len() <= i < final(out)@.len() ==> is_text_byte(#[trigger] final(out)@[i]),
{
    match ip {
        crate::ip_addr::IpAddr::V4(a) => {
            let o = a.octets();
            write_ipv4(out, o[0], o[1], o[2], o[3]);
            proof {
                assert(seq![o@[0], o@[1], o@[2], o@[3]] =~= a@);
            }
        },
        crate::ip_addr::IpAddr::V6(a) => {
            write_ipv6(out, a);
        },
    }
}

} // verus!
