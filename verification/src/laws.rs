//! The round-trip and canonicity laws of the library, stated over the
//! same spec functions the parsers and formatters are specified with.

use vstd::prelude::*;
use crate::grammar::digits_of;
use crate::grammar::is_digit;
use crate::grammar::lemma_digits_of_inverse;
use crate::grammar::lemma_digits_of_len;
use crate::grammar::lemma_read_formatted_number;
use crate::grammar::lemma_skip_concat;
use crate::grammar::lemma_skip_skip;
use crate::grammar::digits_value;
use crate::grammar::pow_of;
use crate::grammar::spec_read_number;
use crate::parser::spec_read_groups;
use crate::parser::spec_read_as;
use crate::parser::spec_read_ip;
use crate::parser::spec_read_ipv4;
use crate::parser::spec_read_scion;
use crate::parser::spec_read_socket_scion;
use crate::parser::spec_read_socket_v6;
use crate::parser::spec_read_socket;
use crate::parser::SpecSocket;
use crate::parser::spec_read_scope_id;
use crate::parser::SpecHost;
use crate::parser::spec_read_ipv6;
use crate::parser::spec_sep_group;
use crate::parser::spec_sep_ipv4;
use crate::parser::zero_groups;
use crate::parser::spec_read_socket_v4;
use crate::parser::starts_with;
use crate::text::best_zero_run;
use crate::text::is_mapped_segs;
use crate::text::join_hex;
use crate::text::spec_fmt_ipv4;
use crate::text::spec_fmt_ipv6;
use crate::sock_addr_v6::spec_fmt_socket_v6;
use crate::parser::spec_read_port;
use crate::text::zrun_at;
use crate::scion_addr::spec_format_as;

verus! {

/// A canonical dotted-decimal IPv4 literal, followed by anything that is
/// not a digit, parses back to exactly its four octets, consuming exactly
/// the literal.  In particular formatting inverts parsing: a canonical
/// IPv4 text equals the formatting of its own parse.
#[verifier::spinoff_prover]
#[verifier::rlimit(100)]
pub proof fn lemma_ipv4_round_trip(o: Seq<u8>, rest: Seq<u8>)
    requires
        o.len() == 4,
        rest.len() > 0 ==> !is_digit(rest[0], 10),
    ensures
        spec_read_ipv4(spec_fmt_ipv4(o) + rest) == Some((o, spec_fmt_ipv4(o).len() as int)),
{
    let d0 = digits_of(o[0] as int, 10);
    let d1 = digits_of(o[1] as int, 10);
    let d2 = digits_of(o[2] as int, 10);
    let d3 = digits_of(o[3] as int, 10);
    let t3 = d3 + rest;
    let r2 = seq![46u8] + t3;
    let t2 = d2 + r2;
    let r1 = seq![46u8] + t2;
    let t1 = d1 + r1;
    let r0 = seq![46u8] + t1;
    let t = d0 + r0;
    lemma_octet_len(o[0] as int);
    lemma_octet_len(o[1] as int);
    lemma_octet_len(o[2] as int);
    lemma_octet_len(o[3] as int);
    assert(t =~= spec_fmt_ipv4(o) + rest);
    lemma_read_formatted_number(o[0] as int, 10, r0, Some(3), false, 255);
    lemma_read_formatted_number(o[1] as int, 10, r1, Some(3), false, 255);
    lemma_read_formatted_number(o[2] as int, 10, r2, Some(3), false, 255);
    lemma_read_formatted_number(o[3] as int, 10, rest, Some(3), false, 255);
    let n0 = d0.len() as int;
    let n1 = d1.len() as int;
    let n2 = d2.len() as int;
    let n3 = d3.len() as int;
    lemma_skip_concat(d0, r0);
    lemma_skip_concat(seq![46u8], t1);
    lemma_skip_concat(d1, r1);
    lemma_skip_concat(seq![46u8], t2);
    lemma_skip_concat(d2, r2);
    lemma_skip_concat(seq![46u8], t3);
    lemma_skip_concat(d3, rest);
    // normalize the suffix shapes the grammar speaks of
    lemma_skip_skip(r0, 1, n1);
    lemma_skip_skip(r1, 1, n2);
    lemma_skip_skip(r2, 1, n3);
    assert(t.skip(n0) == r0);
    assert(t.skip(n0).skip(1) == t1);
    assert(t.skip(n0).skip(1 + n1) == r0.skip(1 + n1));
    assert(r0.skip(1 + n1) == t1.skip(n1));
    assert(t1.skip(n1) == r1);
    assert(t.skip(n0).skip(1 + n1).skip(1) == t2);
    assert(t.skip(n0).skip(1 + n1).skip(1 + n2) == r1.skip(1 + n2));
    assert(r1.skip(1 + n2) == t2.skip(n2));
    assert(t2.skip(n2) == r2);
    assert(t.skip(n0).skip(1 + n1).skip(1 + n2).skip(1) == t3);
    assert(r0[0] == 46 && r1[0] == 46 && r2[0] == 46);
    lemma_assemble_ipv4(t, o, n0, n1, n2, n3);
    assert(spec_fmt_ipv4(o).len() == n0 + 1 + n1 + 1 + n2 + 1 + n3);
}

/// Four successful octet reads separated by dots assemble into one
/// successful IPv4 read.
proof fn lemma_assemble_ipv4(t: Seq<u8>, o: Seq<u8>, n0: int, n1: int, n2: int, n3: int)
    requires
        o.len() == 4,
        spec_read_number(t, 10, Some(3), false, 255) == Some((o[0] as int, n0)),
        starts_with(t.skip(n0), 46),
        spec_read_number(t.skip(n0).skip(1), 10, Some(3), false, 255) == Some((o[1] as int, n1)),
        starts_with(t.skip(n0).skip(1 + n1), 46),
        spec_read_number(t.skip(n0).skip(1 + n1).skip(1), 10, Some(3), false, 255) == Some(
            (o[2] as int, n2),
        ),
        starts_with(t.skip(n0).skip(1 + n1).skip(1 + n2), 46),
        spec_read_number(t.skip(n0).skip(1 + n1).skip(1 + n2).skip(1), 10, Some(3), false, 255)
            == Some((o[3] as int, n3)),
    ensures
        spec_read_ipv4(t) == Some((o, n0 + 1 + n1 + 1 + n2 + 1 + n3)),
{
    assert(seq![(o[0] as int) as u8, (o[1] as int) as u8, (o[2] as int) as u8, (o[3] as int) as u8]
        =~= o);
}

/// An octet value has a numeral of at most three digits.
proof fn lemma_octet_len(v: int)
    requires
        0 <= v <= 255,
    ensures
        1 <= digits_of(v, 10).len() <= 3,
        forall|i: int| 0 <= i < digits_of(v, 10).len() ==> is_digit(
            #[trigger] digits_of(v, 10)[i],
            10,
        ),
        digits_value(digits_of(v, 10), 10) == v,
{
    assert(pow_of(10, 3) == 1000) by {
        reveal_with_fuel(pow_of, 4);
    }
    lemma_digits_of_len(v, 10, 3);
    lemma_digits_of_inverse(v, 10);
}

/// A canonical IPv4 socket text `a.b.c.d:port` parses back to exactly its
/// octets and port, consuming the whole text.
pub proof fn lemma_socket_v4_round_trip(o: Seq<u8>, port: u16)
    requires
        o.len() == 4,
    ensures
        ({
            let t = spec_fmt_ipv4(o) + seq![58u8] + digits_of(port as int, 10);
            spec_read_socket_v4(t) == Some(((o, port as int), t.len() as int))
        }),
{
    let pd = digits_of(port as int, 10);
    let t = spec_fmt_ipv4(o) + seq![58u8] + pd;
    let rest = seq![58u8] + pd;
    assert(t =~= spec_fmt_ipv4(o) + rest);
    lemma_ipv4_round_trip(o, rest);
    assert(t.skip(spec_fmt_ipv4(o).len() as int) =~= rest);
    assert(rest.skip(1) =~= pd);
    lemma_read_formatted_number(port as int, 10, Seq::empty(), None, true, 65535);
    assert(pd + Seq::<u8>::empty() =~= pd);
    lemma_digits_of_inverse(port as int, 10);
}

/// Eight segments with no two consecutive zero segments render without
/// any compression: an isolated zero segment is never collapsed to `::`.
pub proof fn lemma_isolated_zero_not_compressed(g: Seq<u16>)
    requires
        g.len() == 8,
        forall|i: int| 0 <= i < 8 ==> zrun_at(g, i) <= 1,
    ensures
        spec_fmt_ipv6(g) == join_hex(g),
{
    assert(!is_mapped_segs(g)) by {
        if is_mapped_segs(g) {
            lemma_zrun_nonneg(g, 5);
            assert(zrun_at(g, 4) == 1 + zrun_at(g, 5));
            assert(zrun_at(g, 3) == 2 + zrun_at(g, 5));
        }
    }
    lemma_best_run_bounded(g, 0, 0, 0);
}

/// Zero-run lengths are never negative.
proof fn lemma_zrun_nonneg(g: Seq<u16>, i: int)
    requires
        i >= 0,
    ensures
        zrun_at(g, i) >= 0,
    decreases g.len() - i,
{
    if 0 <= i < g.len() && g[i] == 0 {
        lemma_zrun_nonneg(g, i + 1);
    }
}

/// The zero-run scan never reports a longer run than the longest run
/// present.
proof fn lemma_best_run_bounded(g: Seq<u16>, i: int, bs: int, bl: int)
    requires
        forall|j: int| 0 <= j < g.len() ==> zrun_at(g, j) <= 1,
        i >= 0,
        bl <= 1,
    ensures
        best_zero_run(g, i, bs, bl).1 <= 1,
    decreases g.len() - i,
{
    if i >= g.len() {
    } else {
        let l = zrun_at(g, i);
        if l > bl {
            lemma_best_run_bounded(g, i + 1, i, l);
        } else {
            lemma_best_run_bounded(g, i + 1, bs, bl);
        }
    }
}

/// A text without any dot cannot begin with an IPv4 literal.
proof fn lemma_no_dot_no_ipv4(s: Seq<u8>)
    requires
        forall|i: int| 0 <= i < s.len() ==> s[i] != 46,
    ensures
        spec_read_ipv4(s) is None,
{
    crate::grammar::lemma_read_number_bounds(s, 10, Some(3), false, 255);
    match spec_read_number(s, 10, Some(3), false, 255) {
        None => {},
        Some((a, n0)) => {
            if starts_with(s.skip(n0), 46) {
                assert(s.skip(n0)[0] == s[n0]);
            }
        },
    }
}

/// Every byte of a hex-group rendering is a hex digit or a colon.
proof fn lemma_join_hex_bytes(gs: Seq<u16>)
    ensures
        forall|i: int| 0 <= i < join_hex(gs).len() ==> (is_digit(#[trigger] join_hex(gs)[i], 16)
            || join_hex(gs)[i] == 58),
    decreases gs.len(),
{
    if gs.len() == 0 {
    } else if gs.len() == 1 {
        crate::grammar::lemma_digits_of_bytes(gs[0] as int, 16);
        crate::grammar::lemma_digits_of_inverse(gs[0] as int, 16);
    } else {
        let d = digits_of(gs[0] as int, 16);
        crate::grammar::lemma_digits_of_bytes(gs[0] as int, 16);
        crate::grammar::lemma_digits_of_inverse(gs[0] as int, 16);
        lemma_join_hex_bytes(gs.skip(1));
        let w = join_hex(gs);
        assert forall|i: int| 0 <= i < w.len() implies (is_digit(#[trigger] w[i], 16) || w[i]
            == 58) by {
            if i < d.len() {
                assert(w[i] == d[i]);
            } else if i == d.len() {
                assert(w[i] == 58);
            } else {
                assert(w[i] == join_hex(gs.skip(1))[i - d.len() - 1]);
            }
        }
    }
}

/// A group value has a numeral of at most four hex digits that evaluates
/// back to it.
proof fn lemma_group_facts(v: int)
    requires
        0 <= v <= 0xffff,
    ensures
        1 <= digits_of(v, 16).len() <= 4,
        forall|i: int| 0 <= i < digits_of(v, 16).len() ==> is_digit(
            #[trigger] digits_of(v, 16)[i],
            16,
        ),
        digits_value(digits_of(v, 16), 16) == v,
{
    assert(pow_of(16, 4) == 65536) by {
        reveal_with_fuel(pow_of, 5);
    }
    lemma_digits_of_len(v, 16, 4);
    lemma_digits_of_inverse(v, 16);
}

/// Reading colon-separated hex groups out of their own rendering yields
/// exactly those groups, stopping at the end of the rendering.  `rest` is
/// what follows: nothing, or a `::` compression (whose own text contains
/// no dot).
#[verifier::spinoff_prover]
#[verifier::rlimit(100)]
proof fn lemma_read_join_groups(gs: Seq<u16>, slots: int, first: bool, rest: Seq<u8>)
    requires
        0 <= gs.len() <= slots,
        rest.len() == 0 || (!is_digit(rest[0], 16) && (rest[0] != 58 || rest.len() == 1
            || !is_digit(rest[1], 16))),
        forall|i: int| 0 <= i < rest.len() ==> rest[i] != 46,
    ensures
        ({
            let t = (if first {
                join_hex(gs)
            } else {
                seq![58u8] + join_hex(gs)
            }) + rest;
            spec_read_groups(t, slots, first) == (
                gs,
                t.len() - rest.len() - (if !first && gs.len() == 0 {
                    1int
                } else {
                    0int
                }),
                false,
            )
        }),
    decreases gs.len(),
{
    let t = (if first {
        join_hex(gs)
    } else {
        seq![58u8] + join_hex(gs)
    }) + rest;
    assert(spec_read_ipv4(t) is None && (t.len() > 0 ==> spec_read_ipv4(t.skip(1)) is None)) by {
        lemma_join_hex_bytes(gs);
        assert forall|i: int| 0 <= i < t.len() implies t[i] != 46 by {
            let j = join_hex(gs);
            if first {
                if i < j.len() {
                    assert(t[i] == j[i]);
                } else {
                    assert(t[i] == rest[i - j.len()]);
                }
            } else {
                if i == 0 {
                } else if i < 1 + j.len() {
                    assert(t[i] == (seq![58u8] + j)[i]);
                } else {
                    assert(t[i] == rest[i - j.len() - 1]);
                }
            }
        }
        lemma_no_dot_no_ipv4(t);
        if t.len() > 0 {
            assert forall|i: int| 0 <= i < t.skip(1).len() implies t.skip(1)[i] != 46 by {
                assert(t.skip(1)[i] == t[i + 1]);
            }
            lemma_no_dot_no_ipv4(t.skip(1));
        }
    }
    if gs.len() == 0 {
        if slots > 0 {
            // no group can be read: the text is empty, or starts with the
            // colon of `rest` (or the separator) followed by a non-digit
            assert(join_hex(gs) =~= Seq::<u8>::empty());
            if first {
                assert(t =~= rest);
                crate::grammar::lemma_digit_run(t, 16);
                if rest.len() > 0 {
                    assert(!is_digit(t[0], 16));
                }
                assert(spec_sep_group(t, first) is None);
            } else {
                assert(t =~= seq![58u8] + rest);
                assert(t.skip(1) =~= rest);
                crate::grammar::lemma_digit_run(t.skip(1), 16);
                if t[0] == 58 && rest.len() > 0 {
                    assert(!is_digit(rest[0], 16));
                }
                assert(spec_sep_group(t, first) is None);
            }
        }
        assert(spec_read_groups(t, slots, first).0 =~= gs);
    } else {
        let g0 = gs[0];
        let d = digits_of(g0 as int, 16);
        let j1 = join_hex(gs.skip(1));
        let rest1 = (if gs.len() > 1 {
            seq![58u8] + j1
        } else {
            Seq::<u8>::empty()
        }) + rest;
        lemma_group_facts(g0 as int);
        assert(rest1.len() > 0 ==> !is_digit(rest1[0], 16)) by {
            if gs.len() > 1 {
                assert(rest1[0] == 58);
            } else if rest.len() > 0 {
                assert(rest1 =~= rest);
                assert(!is_digit(rest[0], 16));
            }
        }
        lemma_read_formatted_number(g0 as int, 16, rest1, Some(4), true, 0xffff);
        // the spec reads the group after the separator, then recurses
        let td = d + rest1;
        if first {
            assert(t =~= td);
        } else {
            assert(t =~= seq![58u8] + td);
            assert(t[0] == 58);
            crate::grammar::lemma_skip_concat(seq![58u8], td);
            assert(t.skip(1) == td);
        }
        crate::grammar::lemma_skip_concat(d, rest1);
        let n: int = (if first {
            0int
        } else {
            1int
        }) + d.len();
        assert(spec_sep_group(t, first) == Some((g0 as int, n))) by {
            if !first {
                crate::grammar::lemma_skip_skip(t, 1, d.len() as int);
            }
        }
        assert(t.skip(n) == rest1) by {
            if !first {
                crate::grammar::lemma_skip_skip(t, 1, d.len() as int);
            }
        }
        lemma_read_join_groups(gs.skip(1), slots - 1, false, rest);
        let t2 = (if gs.len() > 1 {
            seq![58u8] + j1
        } else {
            seq![58u8] + join_hex(gs.skip(1))
        }) + rest;
        assert(join_hex(gs.skip(1)) =~= j1);
        if gs.len() > 1 {
            assert(rest1 =~= t2);
        } else {
            assert(join_hex(gs.skip(1)) =~= Seq::<u8>::empty());
            assert(rest1 =~= rest);
            assert(t2 =~= seq![58u8] + rest);
        }
        if gs.len() > 1 {
            let rec = spec_read_groups(rest1, slots - 1, false);
            assert(rec == (gs.skip(1), rest1.len() - rest.len(), false));
            assert(spec_read_groups(t, slots, first).0 =~= gs) by {
                assert(seq![gs[0]] + gs.skip(1) =~= gs);
            }
        } else {
            // the recursion sees `:rest` (or just `rest` when it is empty)
            let rec = spec_read_groups(rest1, slots - 1, false);
            if rest.len() == 0 {
                assert(rest1 =~= Seq::<u8>::empty());
                if slots - 1 > 0 {
                    crate::grammar::lemma_digit_run(rest1, 16);
                    assert(spec_sep_group(rest1, false) is None);
                    assert(spec_sep_ipv4(rest1, false) is None);
                }
                assert(rec == (Seq::<u16>::empty(), 0int, false));
            } else {
                // the leftover text is `rest` itself: its leading colon is
                // followed by nothing or by another colon, so no further
                // group or embedded literal can be read
                assert(rec == (Seq::<u16>::empty(), 0int, false)) by {
                    if slots - 1 > 0 {
                        assert(rest1 =~= rest);
                        assert forall|i: int| 0 <= i < rest.skip(1).len() implies rest.skip(1)[i]
                            != 46 by {
                            assert(rest.skip(1)[i] == rest[i + 1]);
                        }
                        lemma_no_dot_no_ipv4(rest.skip(1));
                        assert(spec_sep_ipv4(rest1, false) is None);
                        crate::grammar::lemma_digit_run(rest.skip(1), 16);
                        if rest.len() > 1 {
                            assert(rest.skip(1)[0] == rest[1]);
                        }
                        assert(spec_sep_group(rest1, false) is None);
                    }
                }
            }
            assert(spec_read_groups(t, slots, first).0 =~= gs) by {
                assert(seq![gs[0]] + Seq::<u16>::empty() =~= gs);
            }
        }
    }
}

/// The zero run at `i` stays within the sequence and covers only zeros.
proof fn lemma_zrun_zeros(g: Seq<u16>, i: int)
    requires
        0 <= i <= g.len(),
    ensures
        0 <= zrun_at(g, i),
        i + zrun_at(g, i) <= g.len(),
        forall|j: int| i <= j < i + zrun_at(g, i) ==> g[j] == 0,
    decreases g.len() - i,
{
    if 0 <= i < g.len() && g[i] == 0 {
        lemma_zrun_zeros(g, i + 1);
    }
}

/// The run the scan reports lies within the sequence and covers only
/// zeros.
proof fn lemma_best_run_props(g: Seq<u16>, i: int, bs: int, bl: int)
    requires
        0 <= i,
        0 <= bs,
        0 <= bl,
        bs + bl <= g.len(),
        forall|j: int| bs <= j < bs + bl ==> g[j] == 0,
    ensures
        ({
            let r = best_zero_run(g, i, bs, bl);
            0 <= r.0 && 0 <= r.1 && r.0 + r.1 <= g.len() && (forall|j: int|
                r.0 <= j < r.0 + r.1 ==> g[j] == 0)
        }),
    decreases g.len() - i,
{
    if i >= g.len() {
    } else {
        let l = zrun_at(g, i);
        lemma_zrun_zeros(g, i);
        if l > bl {
            lemma_best_run_props(g, i + 1, i, l);
        } else {
            lemma_best_run_props(g, i + 1, bs, bl);
        }
    }
}

/// Formatting inverts parsing for every IPv6 address: the canonical text
/// of eight segments parses back to exactly those segments, consuming the
/// whole text.
pub proof fn lemma_ipv6_round_trip(g: Seq<u16>)
    requires
        g.len() == 8,
    ensures
        spec_read_ipv6(spec_fmt_ipv6(g)) == Some((g, spec_fmt_ipv6(g).len() as int)),
{
    lemma_ipv6_reads_back(g, Seq::empty());
    assert(spec_fmt_ipv6(g) + Seq::<u8>::empty() =~= spec_fmt_ipv6(g));
}

/// The canonical text of eight segments, followed by anything that is no
/// hex digit, colon or dot, parses back to exactly those segments,
/// consuming exactly the text.
#[verifier::spinoff_prover]
#[verifier::rlimit(100)]
pub proof fn lemma_ipv6_reads_back(g: Seq<u16>, rest: Seq<u8>)
    requires
        g.len() == 8,
        rest.len() == 0 || (!is_digit(rest[0], 16) && rest[0] != 58),
        forall|i: int| 0 <= i < rest.len() ==> rest[i] != 46,
    ensures
        spec_read_ipv6(spec_fmt_ipv6(g) + rest) == Some(
            (g, spec_fmt_ipv6(g).len() as int),
        ),
{
    let t = spec_fmt_ipv6(g) + rest;
    if is_mapped_segs(g) {
        lemma_ipv6_round_trip_mapped(g, rest);
    } else {
        let run = best_zero_run(g, 0, 0, 0);
        lemma_best_run_props(g, 0, 0, 0);
        if run.1 > 1 {
            let head = g.take(run.0);
            let tail = g.skip(run.0 + run.1);
            let jh = join_hex(head);
            let jt = join_hex(tail);
            let mid = seq![58u8, 58u8] + (jt + rest);
            assert(t =~= jh + mid);
            assert forall|i: int| 0 <= i < mid.len() implies mid[i] != 46 by {
                lemma_join_hex_bytes(tail);
                if 2 <= i < 2 + jt.len() {
                    assert(mid[i] == jt[i - 2]);
                } else if i >= 2 + jt.len() {
                    assert(mid[i] == rest[i - 2 - jt.len()]);
                }
            }
            lemma_read_join_groups(head, 8, true, mid);
            let h = spec_read_groups(jh + mid, 8, true);
            assert(h == (head, jh.len() as int, false));
            assert(head.len() == run.0 && run.0 + run.1 <= 8 && run.1 >= 2);
            assert(head.len() < 8);
            crate::grammar::lemma_skip_concat(jh, mid);
            let s1 = (jh + mid).skip(jh.len() as int);
            assert(s1 == mid);
            assert(mid[0] == 58);
            assert(mid.skip(1)[0] == mid[1]);
            assert(mid[1] == 58);
            crate::grammar::lemma_skip_concat(seq![58u8, 58u8], jt + rest);
            assert(mid.skip(2) == jt + rest);
            lemma_read_join_groups(tail, 8 - head.len() as int - 1, true, rest);
            let tr = spec_read_groups(jt + rest, 8 - head.len() as int - 1, true);
            assert(tr == (tail, jt.len() as int, false));
            assert(head + zero_groups(8 - head.len() - tail.len()) + tail =~= g);
            assert(spec_read_ipv6(t) == Some((g, jh.len() + 2 + jt.len() as int)));
            assert(spec_fmt_ipv6(g).len() == jh.len() + 2 + jt.len());
        } else {
            lemma_read_join_groups(g, 8, true, rest);
            assert(t =~= join_hex(g) + rest);
            let h = spec_read_groups(join_hex(g) + rest, 8, true);
            assert(h == (g, join_hex(g).len() as int, false));
        }
    }
}

/// The mapped form `::ffff:a.b.c.d` parses back to its segments.
#[verifier::spinoff_prover]
#[verifier::rlimit(100)]
proof fn lemma_ipv6_round_trip_mapped(g: Seq<u16>, rest: Seq<u8>)
    requires
        g.len() == 8,
        is_mapped_segs(g),
        rest.len() == 0 || (!is_digit(rest[0], 16) && rest[0] != 58),
        forall|i: int| 0 <= i < rest.len() ==> rest[i] != 46,
    ensures
        spec_read_ipv6(spec_fmt_ipv6(g) + rest) == Some(
            (g, spec_fmt_ipv6(g).len() as int),
        ),
{
    let o = seq![
        (g[6] / 0x100) as u8,
        (g[6] % 0x100) as u8,
        (g[7] / 0x100) as u8,
        (g[7] % 0x100) as u8,
    ];
    let f4 = spec_fmt_ipv4(o);
    let pre = seq![58u8, 58u8, 102u8, 102u8, 102u8, 102u8, 58u8];
    let t = spec_fmt_ipv6(g) + rest;
    assert(t =~= pre + (f4 + rest));
    lemma_ipv4_round_trip(o, rest);
    // the head pass reads nothing: the text begins with a colon
    assert(t[0] == 58);
    crate::grammar::lemma_digit_run(t, 10);
    crate::grammar::lemma_digit_run(t, 16);
    assert(spec_read_ipv4(t) is None);
    assert(spec_sep_group(t, true) is None);
    let h = spec_read_groups(t, 8, true);
    assert(h == (Seq::<u16>::empty(), 0int, false));
    assert(t.skip(0) =~= t);
    assert(t.skip(1)[0] == t[1]);
    assert(t[1] == 58);
    // after the `::`, one hex group `ffff` and then the embedded literal
    let u = t.skip(2);
    let dffff = seq![102u8, 102u8, 102u8, 102u8];
    let restu = seq![58u8] + (f4 + rest);
    assert(u =~= dffff + restu);
    assert(digits_of(0xffff, 16) =~= dffff) by {
        reveal_with_fuel(digits_of, 5);
    }
    assert(restu[0] == 58);
    lemma_read_formatted_number(0xffff, 16, restu, Some(4), true, 0xffff);
    assert(spec_read_number(u, 16, Some(4), true, 0xffff) == Some((0xffff as int, 4int)));
    assert(u[0] == 102);
    crate::grammar::lemma_digit_run(u, 10);
    assert(spec_read_ipv4(u) is None) by {
        crate::grammar::lemma_read_number_bounds(u, 10, Some(3), false, 255);
    }
    crate::grammar::lemma_skip_concat(dffff, restu);
    assert(u.skip(4) == restu);
    // the embedded IPv4 attempt at the second slot succeeds
    crate::grammar::lemma_skip_concat(seq![58u8], f4 + rest);
    assert(restu.skip(1) == f4 + rest);
    assert(spec_sep_ipv4(restu, false) == Some((o, 1 + f4.len() as int)));
    let tr = spec_read_groups(u, 7, true);
    let s6 = (o[0] * 0x100 + o[1]) as u16;
    let s7 = (o[2] * 0x100 + o[3]) as u16;
    assert(spec_read_groups(restu, 6, false) == (seq![s6, s7], 1 + f4.len() as int, true));
    assert(tr == (seq![0xffffu16, s6, s7], 5 + f4.len() as int, true));
    assert(s6 == g[6] && s7 == g[7]);
    assert(Seq::<u16>::empty() + zero_groups(5) + seq![0xffffu16, s6, s7] =~= g);
    assert(spec_read_ipv6(t) == Some((g, 7 + f4.len() as int)));
    assert(spec_fmt_ipv6(g).len() == 7 + f4.len());
}

/// Formatting inverts parsing at the IP level as well: the dispatch tries
/// IPv4 first, and an IPv6 rendering never begins like an IPv4 literal.
pub proof fn lemma_ip_round_trip_v4(o: Seq<u8>)
    requires
        o.len() == 4,
    ensures
        spec_read_ip(spec_fmt_ipv4(o)) == Some(
            (SpecHost::V4(o), spec_fmt_ipv4(o).len() as int),
        ),
{
    lemma_ipv4_round_trip(o, Seq::empty());
    assert(spec_fmt_ipv4(o) + Seq::<u8>::empty() =~= spec_fmt_ipv4(o));
}

/// The canonical text of an IPv6 address is never read as IPv4: the
/// mapped form begins with a colon, and every other form contains no dot.
pub proof fn lemma_ip_round_trip_v6(g: Seq<u16>)
    requires
        g.len() == 8,
    ensures
        spec_read_ip(spec_fmt_ipv6(g)) == Some(
            (SpecHost::V6(g), spec_fmt_ipv6(g).len() as int),
        ),
{
    let t = spec_fmt_ipv6(g);
    lemma_ipv6_round_trip(g);
    assert(spec_read_ipv4(t) is None) by {
        if is_mapped_segs(g) {
            assert(t[0] == 58);
            crate::grammar::lemma_read_number_bounds(t, 10, Some(3), false, 255);
            crate::grammar::lemma_digit_run(t, 10);
        } else {
            let run = best_zero_run(g, 0, 0, 0);
            if run.1 > 1 {
                let jh = join_hex(g.take(run.0));
                let jt = join_hex(g.skip(run.0 + run.1));
                assert(t == jh + seq![58u8, 58u8] + jt);
                lemma_join_hex_bytes(g.take(run.0));
                lemma_join_hex_bytes(g.skip(run.0 + run.1));
                assert forall|i: int| 0 <= i < t.len() implies t[i] != 46 by {
                    if i < jh.len() {
                        assert(t[i] == jh[i]);
                    } else if i < jh.len() + 2 {
                        assert(t[i] == (jh + seq![58u8, 58u8])[i]);
                    } else {
                        assert(t[i] == jt[i - jh.len() - 2]);
                    }
                }
                lemma_no_dot_no_ipv4(t);
            } else {
                lemma_join_hex_bytes(g);
                lemma_no_dot_no_ipv4(t);
            }
        }
    }
}

/// Formatting inverts parsing for a SCION address whose AS number does
/// not exceed nine.  Such an AS number reads the same in decimal and in
/// hex, so its canonical decimal display parses back to itself; larger
/// values in the legacy BGP range display as decimals that the hex
/// grammar would misread, so they are left out here.  `rest` is what
/// follows the address: nothing, or a `:port` — the latter only behind an
/// IPv4 host, since an IPv6 host read would swallow the port text.
#[verifier::spinoff_prover]
#[verifier::rlimit(100)]
pub proof fn lemma_scion_round_trip_small_as(isd: u16, as_: u64, h: SpecHost, rest: Seq<u8>)
    requires
        as_ <= 9,
        h matches SpecHost::V4(o) ==> o.len() == 4 && (rest.len() == 0 || rest[0] == 58),
        h matches SpecHost::V6(g) ==> g.len() == 8 && rest.len() == 0,
    ensures
        ({
            let f = spec_fmt_scion_of(isd, as_, h);
            spec_read_scion(f + rest) == Some(
                ((isd * 0x1000000000000 + as_, h), f.len() as int),
            )
        }),
{
    let di = digits_of(isd as int, 10);
    let da = spec_format_as(as_ as int);
    let fh = match h {
        SpecHost::V4(o) => spec_fmt_ipv4(o),
        SpecHost::V6(g) => spec_fmt_ipv6(g),
    };
    let f = spec_fmt_scion_of(isd, as_, h);
    let t = f + rest;
    assert(da =~= seq![(48 + as_) as u8]) by {
        assert(digits_of(as_ as int, 10) =~= seq![crate::grammar::digit_byte(as_ as int)]);
    }
    let r1 = seq![44u8] + (fh + rest);
    let rr = seq![45u8] + (da + r1);
    assert(t =~= di + rr);
    assert(pow_of(10, 5) == 100000) by {
        reveal_with_fuel(pow_of, 6);
    }
    lemma_digits_of_len(isd as int, 10, 5);
    lemma_digits_of_inverse(isd as int, 10);
    assert(rr[0] == 45);
    lemma_read_formatted_number(isd as int, 10, rr, Some(6), true, 65535);
    crate::grammar::lemma_skip_concat(di, rr);
    crate::grammar::lemma_skip_concat(seq![45u8], da + r1);
    assert(spec_read_number(t, 10, Some(6), true, 65535) == Some((isd as int, di.len() as int)));
    assert(t.skip(di.len() as int) == rr);
    assert(rr.skip(1) == da + r1);
    // the single-digit AS reads as a short hex form
    lemma_digits_of_inverse(as_ as int, 16);
    assert(digits_of(as_ as int, 16) =~= da);
    assert(r1[0] == 44);
    lemma_read_formatted_number(as_ as int, 16, r1, Some(4), true, 0xffff);
    crate::grammar::lemma_skip_concat(da, r1);
    assert((da + r1).skip(da.len() as int) == r1);
    assert(spec_read_as(da + r1) == Some((as_ as int, 1int)));
    assert(da.len() == 1);
    crate::grammar::lemma_skip_skip(rr, 1, 1);
    assert(rr.skip(2int) == (da + r1).skip(1));
    crate::grammar::lemma_skip_concat(seq![44u8], fh + rest);
    assert(r1.skip(1) == fh + rest);
    let s3 = fh + rest;
    assert(s3.len() > 0 ==> s3[0] != 91) by {
        lemma_fmt_host_first_byte(h);
        if fh.len() > 0 {
            assert(s3[0] == fh[0]);
        }
    }
    assert(spec_read_ip(s3) == Some((h, fh.len() as int))) by {
        match h {
            SpecHost::V4(o) => {
                lemma_ipv4_round_trip(o, rest);
                assert(spec_fmt_ipv4(o) + rest == s3);
            },
            SpecHost::V6(g) => {
                lemma_ip_round_trip_v6(g);
                assert(fh + rest =~= fh);
            },
        }
    }
    assert(s3.skip(0) =~= s3);
    crate::grammar::lemma_skip_concat(fh, rest);
    let s4 = s3.skip(fh.len() as int);
    assert(s4 == rest);
    assert(rest.len() > 0 ==> rest[0] != 93) by {
        if rest.len() > 0 {
            assert(rest[0] == 58);
        }
    }
    assert(f.len() == di.len() + 1 + 1 + 1 + fh.len());
}

/// The canonical display of a SCION address, assembled from its parts.
pub open spec fn spec_fmt_scion_of(isd: u16, as_: u64, h: SpecHost) -> Seq<u8> {
    digits_of(isd as int, 10) + seq![45u8] + spec_format_as(as_ as int) + seq![44u8] + (match h {
        SpecHost::V4(o) => spec_fmt_ipv4(o),
        SpecHost::V6(g) => spec_fmt_ipv6(g),
    })
}

/// Formatting inverts parsing for a SCION socket address with an IPv4
/// host and an AS number not exceeding nine.
pub proof fn lemma_socket_scion_round_trip_small_as(isd: u16, as_: u64, o: Seq<u8>, port: u16)
    requires
        as_ <= 9,
        o.len() == 4,
    ensures
        ({
            let t = spec_fmt_scion_of(isd, as_, SpecHost::V4(o)) + seq![58u8] + digits_of(
                port as int,
                10,
            );
            spec_read_socket_scion(t) == Some(
                ((isd * 0x1000000000000 + as_, SpecHost::V4(o), port as int), t.len() as int),
            )
        }),
{
    let f = spec_fmt_scion_of(isd, as_, SpecHost::V4(o));
    let pd = digits_of(port as int, 10);
    let rest = seq![58u8] + pd;
    let t = f + seq![58u8] + pd;
    assert(t =~= f + rest);
    lemma_scion_round_trip_small_as(isd, as_, SpecHost::V4(o), rest);
    crate::grammar::lemma_skip_concat(f, rest);
    assert((f + rest).skip(f.len() as int) == rest);
    crate::grammar::lemma_skip_concat(seq![58u8], pd);
    assert(rest.skip(1) == pd);
    lemma_read_formatted_number(port as int, 10, Seq::empty(), None, true, 65535);
    assert(pd + Seq::<u8>::empty() =~= pd);
    lemma_digits_of_inverse(port as int, 10);
}

/// The canonical text of a host never begins with a bracket.
proof fn lemma_fmt_host_first_byte(h: SpecHost)
    requires
        (h matches SpecHost::V4(o) && o.len() == 4) || (h matches SpecHost::V6(g) && g.len()
            == 8),
    ensures
        ({
            let fh = match h {
                SpecHost::V4(o) => spec_fmt_ipv4(o),
                SpecHost::V6(g) => spec_fmt_ipv6(g),
            };
            fh.len() > 0 ==> fh[0] != 91
        }),
{
    match h {
        SpecHost::V4(o) => {
            let d0 = digits_of(o[0] as int, 10);
            lemma_digits_of_inverse(o[0] as int, 10);
            assert(spec_fmt_ipv4(o)[0] == d0[0]);
        },
        SpecHost::V6(g) => {
            let t = spec_fmt_ipv6(g);
            if is_mapped_segs(g) {
                assert(t[0] == 58);
            } else {
                let run = best_zero_run(g, 0, 0, 0);
                if run.1 > 1 {
                    let jh = join_hex(g.take(run.0));
                    let jt = join_hex(g.skip(run.0 + run.1));
                    lemma_join_hex_bytes(g.take(run.0));
                    if jh.len() > 0 {
                        assert(t[0] == jh[0]);
                    } else {
                        assert(t[0] == (jh + seq![58u8, 58u8])[0]);
                        assert(t[0] == 58);
                    }
                } else {
                    lemma_join_hex_bytes(g);
                    if t.len() > 0 {
                        assert(t[0] == join_hex(g)[0]);
                    }
                }
            }
        },
    }
}

/// A full-form AS text `g0:g1:g2` of canonical hex groups parses back to
/// the packed 48-bit value, consuming exactly the three groups.
#[verifier::spinoff_prover]
#[verifier::rlimit(100)]
proof fn lemma_read_as_full(g0: int, g1: int, g2: int, rest: Seq<u8>)
    requires
        0 <= g0 < 0x10000,
        0 <= g1 < 0x10000,
        0 <= g2 < 0x10000,
        rest.len() == 0 || (rest[0] != 58 && !is_digit(rest[0], 16)),
    ensures
        ({
            let da = digits_of(g0, 16) + seq![58u8] + digits_of(g1, 16) + seq![58u8] + digits_of(
                g2,
                16,
            );
            spec_read_as(da + rest) == Some((g0 * 0x100000000 + g1 * 0x10000 + g2, da.len() as int))
        }),
{
    let d0 = digits_of(g0, 16);
    let d1 = digits_of(g1, 16);
    let d2 = digits_of(g2, 16);
    let t2 = d2 + rest;
    let r1 = seq![58u8] + t2;
    let t1 = d1 + r1;
    let r0 = seq![58u8] + t1;
    let t = d0 + r0;
    let da = d0 + seq![58u8] + d1 + seq![58u8] + d2;
    assert(t =~= da + rest);
    lemma_group_facts(g0);
    lemma_group_facts(g1);
    lemma_group_facts(g2);
    assert(r0[0] == 58 && r1[0] == 58);
    lemma_read_formatted_number(g0, 16, r0, Some(4), true, 0xffff);
    lemma_read_formatted_number(g1, 16, r1, Some(4), true, 0xffff);
    lemma_read_formatted_number(g2, 16, rest, Some(4), true, 0xffff);
    let n0 = d0.len() as int;
    let n1 = d1.len() as int;
    let n2 = d2.len() as int;
    crate::grammar::lemma_skip_concat(d0, r0);
    crate::grammar::lemma_skip_concat(seq![58u8], t1);
    crate::grammar::lemma_skip_concat(d1, r1);
    crate::grammar::lemma_skip_concat(seq![58u8], t2);
    crate::grammar::lemma_skip_concat(d2, rest);
    crate::grammar::lemma_skip_skip(r0, 1, n1);
    assert(t.skip(n0) == r0);
    assert(r0.skip(1) == t1);
    assert(r0.skip(1 + n1) == t1.skip(n1));
    assert(t1.skip(n1) == r1);
    assert(r1.skip(1) == t2);
    assert(t2.skip(n2) == rest);
    // the second colon is present, so the full form is taken
    assert(spec_read_as(t) == Some((g0 * 0x100000000 + g1 * 0x10000 + g2, n0 + 1 + n1 + 1 + n2)));
    assert(da.len() == n0 + 1 + n1 + 1 + n2);
}

/// Formatting inverts parsing for a SCION address whose AS number has a
/// full twelve-digit hex form with a nonzero lowest group: there the
/// dotted-hex display aligns with the 16-bit groups and parses back
/// exactly.  `rest` is as in the small-AS law.
#[verifier::spinoff_prover]
#[verifier::rlimit(100)]
pub proof fn lemma_scion_round_trip_hex_as(isd: u16, as_: u64, h: SpecHost, rest: Seq<u8>)
    requires
        0x100000000000 <= as_ < 0x1000000000000,
        as_ % 0x10000 != 0,
        h matches SpecHost::V4(o) ==> o.len() == 4 && (rest.len() == 0 || rest[0] == 58),
        h matches SpecHost::V6(g) ==> g.len() == 8 && rest.len() == 0,
    ensures
        ({
            let f = spec_fmt_scion_of(isd, as_, h);
            spec_read_scion(f + rest) == Some(
                ((isd * 0x1000000000000 + as_, h), f.len() as int),
            )
        }),
{
    let di = digits_of(isd as int, 10);
    let da = spec_format_as(as_ as int);
    let fh = match h {
        SpecHost::V4(o) => spec_fmt_ipv4(o),
        SpecHost::V6(g) => spec_fmt_ipv6(g),
    };
    let f = spec_fmt_scion_of(isd, as_, h);
    let t = f + rest;
    let g0 = as_ as int / 0x100000000;
    let g1 = as_ as int / 0x10000 % 0x10000;
    let g2 = as_ as int % 0x10000;
    crate::scion_parse_utils::lemma_as_dotted_hex_aligned(as_ as int);
    assert(da == digits_of(g0, 16) + seq![58u8] + digits_of(g1, 16) + seq![58u8] + digits_of(
        g2,
        16,
    ));
    assert(as_ == g0 * 0x100000000 + g1 * 0x10000 + g2) by {
        let x01 = as_ as int / 0x10000;
        vstd::arithmetic::div_mod::lemma_fundamental_div_mod(as_ as int, 0x10000);
        vstd::arithmetic::div_mod::lemma_fundamental_div_mod(x01, 0x10000);
        vstd::arithmetic::div_mod::lemma_div_denominator(as_ as int, 0x10000, 0x10000);
    }
    let r1 = seq![44u8] + (fh + rest);
    let rr = seq![45u8] + (da + r1);
    assert(t =~= di + rr);
    assert(pow_of(10, 5) == 100000) by {
        reveal_with_fuel(pow_of, 6);
    }
    lemma_digits_of_len(isd as int, 10, 5);
    lemma_digits_of_inverse(isd as int, 10);
    assert(rr[0] == 45);
    lemma_read_formatted_number(isd as int, 10, rr, Some(6), true, 65535);
    crate::grammar::lemma_skip_concat(di, rr);
    crate::grammar::lemma_skip_concat(seq![45u8], da + r1);
    assert(spec_read_number(t, 10, Some(6), true, 65535) == Some((isd as int, di.len() as int)));
    assert(t.skip(di.len() as int) == rr);
    assert(rr.skip(1) == da + r1);
    assert(r1[0] == 44);
    lemma_read_as_full(g0, g1, g2, r1);
    assert(spec_read_as(da + r1) == Some((as_ as int, da.len() as int)));
    crate::grammar::lemma_skip_skip(rr, 1, da.len() as int);
    crate::grammar::lemma_skip_concat(da, r1);
    assert(rr.skip(1 + da.len() as int) == (da + r1).skip(da.len() as int));
    assert((da + r1).skip(da.len() as int) == r1);
    crate::grammar::lemma_skip_concat(seq![44u8], fh + rest);
    assert(r1.skip(1) == fh + rest);
    let s3 = fh + rest;
    assert(s3.len() > 0 ==> s3[0] != 91) by {
        lemma_fmt_host_first_byte(h);
        if fh.len() > 0 {
            assert(s3[0] == fh[0]);
        }
    }
    assert(spec_read_ip(s3) == Some((h, fh.len() as int))) by {
        match h {
            SpecHost::V4(o) => {
                lemma_ipv4_round_trip(o, rest);
                assert(spec_fmt_ipv4(o) + rest == s3);
            },
            SpecHost::V6(g) => {
                lemma_ip_round_trip_v6(g);
                assert(fh + rest =~= fh);
            },
        }
    }
    assert(s3.skip(0) =~= s3);
    crate::grammar::lemma_skip_concat(fh, rest);
    assert(s3.skip(fh.len() as int) == rest);
    assert(rest.len() > 0 ==> rest[0] != 93) by {
        if rest.len() > 0 {
            assert(rest[0] == 58);
        }
    }
    assert(f.len() == di.len() + 1 + da.len() + 1 + fh.len());
}

/// Formatting inverts parsing for a SCION socket address with an IPv4
/// host and a twelve-hex-digit AS number with nonzero lowest group.
pub proof fn lemma_socket_scion_round_trip_hex_as(isd: u16, as_: u64, o: Seq<u8>, port: u16)
    requires
        0x100000000000 <= as_ < 0x1000000000000,
        as_ % 0x10000 != 0,
        o.len() == 4,
    ensures
        ({
            let t = spec_fmt_scion_of(isd, as_, SpecHost::V4(o)) + seq![58u8] + digits_of(
                port as int,
                10,
            );
            spec_read_socket_scion(t) == Some(
                ((isd * 0x1000000000000 + as_, SpecHost::V4(o), port as int), t.len() as int),
            )
        }),
{
    let f = spec_fmt_scion_of(isd, as_, SpecHost::V4(o));
    let pd = digits_of(port as int, 10);
    let rest = seq![58u8] + pd;
    let t = f + seq![58u8] + pd;
    assert(t =~= f + rest);
    lemma_scion_round_trip_hex_as(isd, as_, SpecHost::V4(o), rest);
    crate::grammar::lemma_skip_concat(f, rest);
    assert((f + rest).skip(f.len() as int) == rest);
    crate::grammar::lemma_skip_concat(seq![58u8], pd);
    assert(rest.skip(1) == pd);
    lemma_read_formatted_number(port as int, 10, Seq::empty(), None, true, 65535);
    assert(pd + Seq::<u8>::empty() =~= pd);
    lemma_digits_of_inverse(port as int, 10);
}

/// Formatting inverts parsing for an IPv6 socket address: its canonical
/// text parses back to its address, scope id and port, consuming the
/// whole text (the flow label of a parsed endpoint is always zero, so
/// the value is equal whenever the flow label was zero to begin with).
#[verifier::spinoff_prover]
#[verifier::rlimit(100)]
pub proof fn lemma_socket_v6_round_trip(sa: crate::sock_addr_v6::SocketAddrV6)
    ensures
        spec_read_socket_v6(spec_fmt_socket_v6(sa)) == Some(
            (
                (sa.spec_ip().spec_segments(), sa.spec_scope_id() as int, sa.spec_port() as int),
                spec_fmt_socket_v6(sa).len() as int,
            ),
        ),
{
    let g = sa.spec_ip().spec_segments();
    let scope = sa.spec_scope_id();
    let port = sa.spec_port();
    let f6 = spec_fmt_ipv6(g);
    let dport = digits_of(port as int, 10);
    let dscope = digits_of(scope as int, 10);
    let rest_b = seq![93u8, 58u8] + dport;
    let rest_a = (if scope != 0 {
        seq![37u8] + dscope
    } else {
        Seq::<u8>::empty()
    }) + rest_b;
    let t = spec_fmt_socket_v6(sa);
    assert(t =~= seq![91u8] + (f6 + rest_a));
    lemma_digits_of_inverse(port as int, 10);
    lemma_digits_of_inverse(scope as int, 10);
    crate::grammar::lemma_digits_of_bytes(port as int, 10);
    crate::grammar::lemma_digits_of_bytes(scope as int, 10);
    assert(rest_a.len() > 0 && !is_digit(rest_a[0], 16) && rest_a[0] != 58) by {
        if scope != 0 {
            assert(rest_a[0] == 37);
        } else {
            assert(rest_a =~= rest_b);
            assert(rest_a[0] == 93);
        }
    }
    assert forall|i: int| 0 <= i < rest_a.len() implies rest_a[i] != 46 by {
        if scope != 0 {
            if 1 <= i < 1 + dscope.len() {
                assert(rest_a[i] == dscope[i - 1]);
            } else if i >= 1 + dscope.len() {
                assert(rest_a[i] == rest_b[i - 1 - dscope.len()]);
                if i >= 1 + dscope.len() + 2 {
                    assert(rest_b[i - 1 - dscope.len()] == dport[i - 3 - dscope.len()]);
                }
            }
        } else {
            assert(rest_a[i] == rest_b[i]);
            if i >= 2 {
                assert(rest_b[i] == dport[i - 2]);
            }
        }
    }
    lemma_ipv6_reads_back(g, rest_a);
    assert(t[0] == 91);
    crate::grammar::lemma_skip_concat(seq![91u8], f6 + rest_a);
    assert(t.skip(1) == f6 + rest_a);
    crate::grammar::lemma_skip_concat(f6, rest_a);
    crate::grammar::lemma_skip_skip(t, 1, f6.len() as int);
    let s1 = t.skip(1 + f6.len() as int);
    assert(s1 == rest_a);
    let n1: int = if scope != 0 {
        1 + dscope.len() as int
    } else {
        0int
    };
    if scope != 0 {
        assert(rest_a =~= seq![37u8] + (dscope + rest_b));
        assert(rest_a[0] == 37);
        crate::grammar::lemma_skip_concat(seq![37u8], dscope + rest_b);
        assert(rest_a.skip(1) == dscope + rest_b);
        assert(rest_b[0] == 93);
        lemma_read_formatted_number(scope as int, 10, rest_b, None, true, 0xffffffff);
        crate::grammar::lemma_skip_concat(dscope, rest_b);
        assert(spec_read_scope_id(rest_a) == Some((scope as int, n1)));
        crate::grammar::lemma_skip_skip(rest_a, 1, dscope.len() as int);
        assert(rest_a.skip(n1) == (dscope + rest_b).skip(dscope.len() as int));
        assert((dscope + rest_b).skip(dscope.len() as int) == rest_b);
    } else {
        assert(rest_a =~= rest_b);
        assert(rest_a[0] == 93);
        assert(spec_read_scope_id(rest_a) is None);
        assert(rest_a.skip(0) =~= rest_b);
    }
    let s2 = s1.skip(n1);
    assert(s2 == rest_b);
    assert(rest_b[0] == 93);
    crate::grammar::lemma_skip_concat(seq![93u8, 58u8], dport);
    assert(rest_b.skip(1)[0] == rest_b[1]);
    assert(rest_b.skip(1).skip(1) =~= rest_b.skip(2));
    assert(rest_b.skip(2) == dport);
    lemma_read_formatted_number(port as int, 10, Seq::empty(), None, true, 65535);
    assert(dport + Seq::<u8>::empty() =~= dport);
    assert(rest_b.skip(1) =~= seq![58u8] + dport);
    crate::grammar::lemma_skip_concat(seq![58u8], dport);
    assert(spec_read_port(rest_b.skip(1)) == Some((port as int, 1 + dport.len() as int)));
    assert(t.len() == 1 + f6.len() + n1 + 1 + (1 + dport.len()));
}

/// The three socket grammars are not confusable on canonical texts: the
/// full dispatch yields the same value each family's own round trip
/// gives.  An IPv4 socket text is taken by the first reader; an IPv6
/// socket text begins with a bracket, which the IPv4 reader refuses; a
/// SCION socket text begins with the ISD digits and a dash, which
/// neither IP reader accepts.
#[verifier::spinoff_prover]
#[verifier::rlimit(100)]
pub proof fn lemma_socket_dispatch(t: Seq<u8>)
    ensures
        spec_read_socket_v4(t) matches Some(vn) ==> spec_read_socket(t) == Some(
            (SpecSocket::V4(vn.0.0, vn.0.1), vn.1),
        ),
        t.len() > 0 && t[0] == 91 ==> (spec_read_socket_v6(t) matches Some(vn)
            ==> spec_read_socket(t) == Some((SpecSocket::V6(vn.0.0, vn.0.1, vn.0.2), vn.1))),
        t.len() > 0 && is_digit(t[0], 10) && (forall|i: int|
            0 <= i < crate::grammar::digit_run_len(t, 10) + 1 ==> t[i] != 46) ==> (
        spec_read_socket_scion(t) matches Some(vn) ==> spec_read_socket(t) == Some(
            (SpecSocket::Scion(vn.0.0, vn.0.1, vn.0.2), vn.1),
        )),
{
    if t.len() > 0 && t[0] == 91 {
        crate::grammar::lemma_digit_run(t, 10);
        assert(spec_read_ipv4(t) is None);
        assert(spec_read_socket_v4(t) is None);
    }
    if t.len() > 0 && is_digit(t[0], 10) && (forall|i: int|
        0 <= i < crate::grammar::digit_run_len(t, 10) + 1 ==> t[i] != 46) {
        // the leading digits are not followed by a dot, so no IPv4 (and
        // hence no IPv4 socket) can be read, and no bracket opens a V6
        // socket
        crate::grammar::lemma_read_number_bounds(t, 10, Some(3), false, 255);
        crate::grammar::lemma_digit_run(t, 10);
        match spec_read_number(t, 10, Some(3), false, 255) {
            None => {},
            Some((a, n0)) => {
                if starts_with(t.skip(n0), 46) {
                    assert(t.skip(n0)[0] == t[n0]);
                }
            },
        }
        assert(spec_read_ipv4(t) is None);
        assert(spec_read_socket_v4(t) is None);
        assert(t[0] != 91);
        assert(spec_read_socket_v6(t) is None);
    }
}

} // verus!
