//! The shared numeral model: ASCII digits, maximal digit runs, the value of
//! a digit string, and the canonical digit string of a value.
//!
//! Both directions of the library are stated over these functions: the
//! scanner's bounded numeric read consumes a maximal digit run, and the
//! formatters emit `digits_of`, the canonical (no leading zero) numeral.

use vstd::prelude::*;
use vstd::arithmetic::div_mod::lemma_div_decreases;
use vstd::arithmetic::div_mod::lemma_fundamental_div_mod;
use vstd::arithmetic::div_mod::lemma_multiply_divide_lt;

verus! {

/// Is `b` an ASCII digit of the given radix (10 or 16)?  Hex accepts both
/// cases; decimal only `0`-`9`.
pub open spec fn is_digit(b: u8, radix: int) -> bool {
    (48 <= b <= 57) || (radix == 16 && (97 <= b <= 102 || 65 <= b <= 70))
}

/// The numeric value of an ASCII digit (0 for bytes that are no digit).
pub open spec fn digit_value(b: u8, radix: int) -> int {
    if 48 <= b <= 57 {
        b - 48
    } else if radix == 16 && 97 <= b <= 102 {
        b - 87
    } else if radix == 16 && 65 <= b <= 70 {
        b - 55
    } else {
        0
    }
}

/// Length of the maximal digit prefix of `s`.
pub open spec fn digit_run_len(s: Seq<u8>, radix: int) -> int
    decreases s.len(),
{
    if s.len() == 0 || !is_digit(s[0], radix) {
        0
    } else {
        1 + digit_run_len(s.skip(1), radix)
    }
}

/// The value of a digit string, most significant digit first.
pub open spec fn digits_value(s: Seq<u8>, radix: int) -> int
    decreases s.len(),
{
    if s.len() == 0 {
        0
    } else {
        digits_value(s.drop_last(), radix) * radix + digit_value(s.last(), radix)
    }
}

/// The ASCII byte of digit `d` (lowercase letters above 9).
pub open spec fn digit_byte(d: int) -> u8 {
    if d < 10 {
        (48 + d) as u8
    } else {
        (87 + d) as u8
    }
}

/// The canonical numeral of `v` in the given radix: most significant digit
/// first, no leading zero, `"0"` for zero itself.
pub open spec fn digits_of(v: int, radix: int) -> Seq<u8>
    decreases v,
    when radix >= 2
    via digits_of_decreases
{
    if v < radix {
        seq![digit_byte(v)]
    } else {
        digits_of(v / radix, radix).push(digit_byte(v % radix))
    }
}

#[via_fn]
proof fn digits_of_decreases(v: int, radix: int) {
    if v >= radix {
        lemma_div_decreases(v, radix);
    }
}

/// Iterated multiplication, used to bound numeral lengths.
pub open spec fn pow_of(radix: int, k: int) -> int
    decreases k,
{
    if k <= 0 {
        1
    } else {
        radix * pow_of(radix, k - 1)
    }
}

/// What the scanner's bounded numeric read yields on `s`: the value and
/// byte count of the maximal digit prefix, or nothing when there is no
/// digit, the run is longer than `max_digits`, the value exceeds `cap`, or
/// a forbidden leading zero appears.
pub open spec fn spec_read_number(
    s: Seq<u8>,
    radix: int,
    max_digits: Option<usize>,
    allow_zero_prefix: bool,
    cap: int,
) -> Option<(int, int)> {
    let k = digit_run_len(s, radix);
    if k == 0 {
        None
    } else if match max_digits {
        Some(m) => k > m,
        None => false,
    } {
        None
    } else if digits_value(s.take(k), radix) > cap {
        None
    } else if !allow_zero_prefix && k > 1 && s[0] == 48 {
        None
    } else {
        Some((digits_value(s.take(k), radix), k))
    }
}

/// Skipping the first part of a concatenation leaves the second part.
pub proof fn lemma_skip_concat<A>(a: Seq<A>, b: Seq<A>)
    ensures
        (a + b).skip(a.len() as int) == b,
{
    assert((a + b).skip(a.len() as int) =~= b);
}

/// Two skips compose into one.
pub proof fn lemma_skip_skip<A>(s: Seq<A>, a: int, b: int)
    requires
        0 <= a,
        0 <= b,
        a + b <= s.len(),
    ensures
        s.skip(a).skip(b) == s.skip(a + b),
{
    assert(s.skip(a).skip(b) =~= s.skip(a + b));
}

/// A successful numeric read has a nonnegative value and consumes at
/// least one byte, staying within `s`.
pub proof fn lemma_read_number_bounds(
    s: Seq<u8>,
    radix: int,
    max_digits: Option<usize>,
    allow_zero_prefix: bool,
    cap: int,
)
    requires
        radix == 10 || radix == 16,
    ensures
        spec_read_number(s, radix, max_digits, allow_zero_prefix, cap) matches Some(vn) ==> 0
            <= vn.0 && 0 < vn.1 <= s.len(),
{
    lemma_digit_run(s, radix);
    lemma_digits_value_nonneg(s.take(digit_run_len(s, radix)), radix);
}

/// The maximal digit run is within bounds, consists of digits, and stops at
/// the first non-digit.
pub proof fn lemma_digit_run(s: Seq<u8>, radix: int)
    ensures
        0 <= digit_run_len(s, radix) <= s.len(),
        forall|i: int| 0 <= i < digit_run_len(s, radix) ==> is_digit(s[i], radix),
        digit_run_len(s, radix) < s.len() ==> !is_digit(s[digit_run_len(s, radix)], radix),
    decreases s.len(),
{
    if s.len() == 0 || !is_digit(s[0], radix) {
    } else {
        lemma_digit_run(s.skip(1), radix);
        let k = digit_run_len(s, radix);
        assert forall|i: int| 0 <= i < k implies is_digit(s[i], radix) by {
            if i > 0 {
                assert(is_digit(s.skip(1)[i - 1], radix));
            }
        }
        if k < s.len() {
            assert(!is_digit(s.skip(1)[k - 1], radix));
        }
    }
}

/// A digit block followed by a non-digit has exactly that block as its
/// maximal digit run.
pub proof fn lemma_digit_run_of_concat(d: Seq<u8>, t: Seq<u8>, radix: int)
    requires
        forall|i: int| 0 <= i < d.len() ==> is_digit(d[i], radix),
        t.len() > 0 ==> !is_digit(t[0], radix),
    ensures
        digit_run_len(d + t, radix) == d.len(),
    decreases d.len(),
{
    if d.len() == 0 {
        assert(d + t =~= t);
    } else {
        assert((d + t)[0] == d[0]);
        assert((d + t).skip(1) =~= d.skip(1) + t);
        lemma_digit_run_of_concat(d.skip(1), t, radix);
    }
}

/// Digit-string values are never negative.
pub proof fn lemma_digits_value_nonneg(s: Seq<u8>, radix: int)
    requires
        radix >= 0,
    ensures
        digits_value(s, radix) >= 0,
    decreases s.len(),
{
    if s.len() == 0 {
    } else {
        lemma_digits_value_nonneg(s.drop_last(), radix);
        let a = digits_value(s.drop_last(), radix);
        assert(a * radix >= 0) by (nonlinear_arith)
            requires
                a >= 0,
                radix >= 0,
        ;
    }
}

/// The value of a prefix never exceeds the value of the whole digit string.
pub proof fn lemma_digits_value_prefix_le(s: Seq<u8>, radix: int, i: int)
    requires
        radix >= 1,
        0 <= i <= s.len(),
    ensures
        digits_value(s.take(i), radix) <= digits_value(s, radix),
    decreases s.len(),
{
    if i == s.len() {
        assert(s.take(i) =~= s);
    } else {
        assert(s.drop_last().take(i) =~= s.take(i));
        lemma_digits_value_prefix_le(s.drop_last(), radix, i);
        let a = digits_value(s.drop_last(), radix);
        lemma_digits_value_nonneg(s.drop_last(), radix);
        assert(a * radix >= a) by (nonlinear_arith)
            requires
                a >= 0,
                radix >= 1,
        ;
    }
}

/// A string of `k` digits has value below `pow_of(radix, k)`.
pub proof fn lemma_digits_value_bound(s: Seq<u8>, radix: int)
    requires
        radix == 10 || radix == 16 || radix == 256,
    ensures
        digits_value(s, radix) < pow_of(radix, s.len() as int),
    decreases s.len(),
{
    if s.len() == 0 {
    } else {
        lemma_digits_value_bound(s.drop_last(), radix);
        let a = digits_value(s.drop_last(), radix);
        let p = pow_of(radix, s.len() - 1);
        assert(digit_value(s.last(), radix) <= radix - 1);
        assert(a * radix <= (p - 1) * radix) by (nonlinear_arith)
            requires
                a <= p - 1,
                radix >= 1,
        ;
        assert((p - 1) * radix + (radix - 1) < p * radix) by (nonlinear_arith)
            requires
                radix >= 1,
        ;
    }
}

/// `pow_of` is positive for the radixes in use.
pub proof fn lemma_pow_of_pos(radix: int, k: int)
    requires
        radix >= 1,
    ensures
        pow_of(radix, k) >= 1,
    decreases k,
{
    if k <= 0 {
    } else {
        lemma_pow_of_pos(radix, k - 1);
        let p = pow_of(radix, k - 1);
        assert(radix * p >= 1) by (nonlinear_arith)
            requires
                radix >= 1,
                p >= 1,
        ;
    }
}

/// The canonical numeral of `v` consists of digits, has no leading zero
/// (except the single digit of zero itself), and evaluates back to `v`.
pub proof fn lemma_digits_of_inverse(v: int, radix: int)
    requires
        0 <= v,
        radix == 10 || radix == 16,
    ensures
        digits_of(v, radix).len() >= 1,
        forall|i: int| 0 <= i < digits_of(v, radix).len() ==> is_digit(
            #[trigger] digits_of(v, radix)[i],
            radix,
        ),
        digits_value(digits_of(v, radix), radix) == v,
        v > 0 ==> digits_of(v, radix)[0] != 48,
        v == 0 ==> digits_of(v, radix) =~= seq![48u8],
    decreases v,
{
    if v < radix {
        let e = seq![digit_byte(v)];
        assert(digits_of(v, radix) =~= e);
        assert(e.len() == 1);
        assert(e.last() == digit_byte(v));
        assert(e.drop_last() =~= Seq::<u8>::empty());
        assert(digits_value(Seq::<u8>::empty(), radix) == 0);
        assert(digits_value(e, radix) == 0 * radix + digit_value(digit_byte(v), radix));
    } else {
        lemma_div_decreases(v, radix);
        vstd::arithmetic::div_mod::lemma_div_pos_is_pos(v, radix);
        lemma_digits_of_inverse(v / radix, radix);
        let d = digits_of(v / radix, radix);
        let w = digits_of(v, radix);
        assert(w =~= d.push(digit_byte(v % radix)));
        assert(w.drop_last() =~= d);
        assert(w.last() == digit_byte(v % radix));
        vstd::arithmetic::div_mod::lemma_mod_bound(v, radix);
        assert(digit_value(digit_byte(v % radix), radix) == v % radix);
        lemma_fundamental_div_mod(v, radix);
        assert(w[0] == d[0]);
        assert(v / radix > 0) by {
            vstd::arithmetic::div_mod::lemma_div_non_zero(v, radix);
        }
    }
}

/// Canonical numerals consist of decimal digits and lowercase hex
/// letters only.
pub proof fn lemma_digits_of_bytes(v: int, radix: int)
    requires
        0 <= v,
        radix == 10 || radix == 16,
    ensures
        forall|i: int| 0 <= i < digits_of(v, radix).len() ==> (48 <= #[trigger] digits_of(
            v,
            radix,
        )[i] <= 57 || 97 <= digits_of(v, radix)[i] <= 102),
    decreases v,
{
    if v < radix {
    } else {
        lemma_div_decreases(v, radix);
        vstd::arithmetic::div_mod::lemma_div_pos_is_pos(v, radix);
        vstd::arithmetic::div_mod::lemma_mod_bound(v, radix);
        lemma_digits_of_bytes(v / radix, radix);
        let d = digits_of(v / radix, radix);
        let w = digits_of(v, radix);
        assert(w =~= d.push(digit_byte(v % radix)));
        assert forall|i: int| 0 <= i < w.len() implies (48 <= #[trigger] w[i] <= 57 || 97 <= w[i]
            <= 102) by {
            if i < d.len() {
                assert(w[i] == d[i]);
            }
        }
    }
}

/// A value below `pow_of(radix, k)` has a numeral of at most `k` digits.
pub proof fn lemma_digits_of_len(v: int, radix: int, k: int)
    requires
        0 <= v < pow_of(radix, k),
        radix == 10 || radix == 16,
        k >= 1,
    ensures
        digits_of(v, radix).len() <= k,
    decreases k,
{
    if v < radix {
    } else {
        assert(pow_of(radix, k) == radix * pow_of(radix, k - 1));
        if k == 1 {
            assert(pow_of(radix, 1) == radix * pow_of(radix, 0));
            assert(false);
        }
        lemma_multiply_divide_lt(v, radix, pow_of(radix, k - 1));
        lemma_div_decreases(v, radix);
        vstd::arithmetic::div_mod::lemma_div_pos_is_pos(v, radix);
        lemma_digits_of_len(v / radix, radix, k - 1);
    }
}

/// Reading a canonical numeral followed by a non-digit yields exactly its
/// value, consuming exactly its digits.
pub proof fn lemma_read_formatted_number(
    v: int,
    radix: int,
    rest: Seq<u8>,
    max_digits: Option<usize>,
    allow_zero_prefix: bool,
    cap: int,
)
    requires
        radix == 10 || radix == 16,
        0 <= v <= cap,
        rest.len() > 0 ==> !is_digit(rest[0], radix),
        match max_digits {
            Some(m) => digits_of(v, radix).len() <= m,
            None => true,
        },
    ensures
        spec_read_number(digits_of(v, radix) + rest, radix, max_digits, allow_zero_prefix, cap)
            == Some((v, digits_of(v, radix).len() as int)),
{
    let d = digits_of(v, radix);
    let s = d + rest;
    lemma_digits_of_inverse(v, radix);
    lemma_digit_run_of_concat(d, rest, radix);
    let k = digit_run_len(s, radix);
    assert(k == d.len());
    assert(s.take(k) =~= d);
    if v == 0 {
        assert(k == 1);
    } else {
        assert(s[0] == d[0]);
        assert(s[0] != 48);
    }
}

/// Appending one digit to a numeral: for positive `a`, the numeral of
/// `a * radix + d` is the numeral of `a` with the digit appended.
pub proof fn lemma_digits_of_push(a: int, d: int, radix: int)
    requires
        a >= 1,
        0 <= d < radix,
        radix == 10 || radix == 16,
    ensures
        digits_of(a * radix + d, radix) == digits_of(a, radix).push(digit_byte(d)),
{
    let v = a * radix + d;
    assert(v >= radix) by (nonlinear_arith)
        requires
            v == a * radix + d,
            a >= 1,
            0 <= d < radix,
            radix >= 2,
    ;
    assert(v / radix == a && v % radix == d) by {
        lemma_fundamental_div_mod(v, radix);
        vstd::arithmetic::div_mod::lemma_fundamental_div_mod_converse(v, radix, a, d);
    }
}

/// A value at least `pow_of(radix, k - 1)` has a numeral of at least `k`
/// digits.
pub proof fn lemma_digits_of_len_lower(v: int, radix: int, k: int)
    requires
        v >= pow_of(radix, k - 1),
        radix == 10 || radix == 16,
        k >= 1,
    ensures
        digits_of(v, radix).len() >= k,
    decreases k,
{
    if k == 1 {
    } else {
        assert(pow_of(radix, k - 1) == radix * pow_of(radix, k - 2));
        lemma_pow_of_pos(radix, k - 2);
        assert(v >= radix) by (nonlinear_arith)
            requires
                v >= radix * pow_of(radix, k - 2),
                pow_of(radix, k - 2) >= 1,
                radix >= 2,
        ;
        assert(v / radix >= pow_of(radix, k - 2)) by {
            vstd::arithmetic::div_mod::lemma_div_multiples_vanish(pow_of(radix, k - 2), radix);
            vstd::arithmetic::div_mod::lemma_div_is_ordered(
                radix * pow_of(radix, k - 2),
                v,
                radix,
            );
        }
        lemma_digits_of_len_lower(v / radix, radix, k - 1);
    }
}

/// Splitting off the low sixteen bits of a value appends their four hex
/// digits (zero-padded) to the numeral of the rest.
pub proof fn lemma_digits_of_chunk(x: int, y: int)
    requires
        x >= 1,
        0 <= y < 0x10000,
    ensures
        digits_of(x * 0x10000 + y, 16) == digits_of(x, 16) + seq![
            digit_byte(y / 0x1000),
            digit_byte(y / 0x100 % 16),
            digit_byte(y / 16 % 16),
            digit_byte(y % 16),
        ],
{
    let e3 = y / 0x1000;
    let e2 = y / 0x100 % 16;
    let e1 = y / 16 % 16;
    let e0 = y % 16;
    assert(y / 16 / 16 == y / 0x100) by {
        vstd::arithmetic::div_mod::lemma_div_denominator(y, 16, 16);
    }
    assert(y / 0x100 / 16 == y / 0x1000) by {
        vstd::arithmetic::div_mod::lemma_div_denominator(y, 0x100, 16);
    }
    lemma_fundamental_div_mod(y, 16);
    lemma_fundamental_div_mod(y / 16, 16);
    lemma_fundamental_div_mod(y / 0x100, 16);
    assert(y / 0x1000 < 16);
    assert(y / 0x1000 % 16 == y / 0x1000) by {
        vstd::arithmetic::div_mod::lemma_small_mod((y / 0x1000) as nat, 16nat);
    }
    let v1 = x * 16 + e3;
    let v2 = v1 * 16 + e2;
    let v3 = v2 * 16 + e1;
    let v4 = v3 * 16 + e0;
    lemma_digits_of_push(x, e3, 16);
    lemma_digits_of_push(v1, e2, 16);
    lemma_digits_of_push(v2, e1, 16);
    lemma_digits_of_push(v3, e0, 16);
    assert(v4 == x * 0x10000 + y) by (nonlinear_arith)
        requires
            v1 == x * 16 + e3,
            v2 == v1 * 16 + e2,
            v3 == v2 * 16 + e1,
            v4 == v3 * 16 + e0,
            y == 0x1000 * e3 + 0x100 * e2 + 16 * e1 + e0,
    ;
    assert(y == 0x1000 * e3 + 0x100 * e2 + 16 * e1 + e0);
    assert(digits_of(v4, 16) =~= digits_of(x, 16) + seq![
        digit_byte(e3),
        digit_byte(e2),
        digit_byte(e1),
        digit_byte(e0),
    ]);
}

/// The four zero-padded hex digits of a sixteen-bit value: their leading
/// zeros end exactly where its natural numeral begins.
pub proof fn lemma_chunk_shape(y: int)
    requires
        0 <= y < 0x10000,
    ensures
        ({
            let c = seq![
                digit_byte(y / 0x1000),
                digit_byte(y / 0x100 % 16),
                digit_byte(y / 16 % 16),
                digit_byte(y % 16),
            ];
            if y == 0 {
                forall|i: int| 0 <= i < 4 ==> c[i] == 48
            } else {
                let z = 4 - digits_of(y, 16).len() as int;
                0 <= z <= 3 && (forall|i: int| 0 <= i < z ==> c[i] == 48) && c[z] != 48
                    && c.skip(z) =~= digits_of(y, 16)
            }
        }),
{
    let c = seq![
        digit_byte(y / 0x1000),
        digit_byte(y / 0x100 % 16),
        digit_byte(y / 16 % 16),
        digit_byte(y % 16),
    ];
    if y == 0 {
    } else if y < 16 {
        assert(digits_of(y, 16) =~= seq![digit_byte(y)]);
        assert(c.skip(3) =~= seq![digit_byte(y % 16)]);
        assert(y % 16 == y) by {
            vstd::arithmetic::div_mod::lemma_small_mod(y as nat, 16nat);
        }
    } else if y < 0x100 {
        lemma_digits_of_push(y / 16, y % 16, 16);
        lemma_fundamental_div_mod(y, 16);
        assert(y / 16 < 16);
        assert(y / 16 >= 1);
        assert(digits_of(y / 16, 16) =~= seq![digit_byte(y / 16)]);
        assert(y / 16 % 16 == y / 16) by {
            vstd::arithmetic::div_mod::lemma_small_mod((y / 16) as nat, 16nat);
        }
        assert(digits_of(y, 16) =~= seq![digit_byte(y / 16), digit_byte(y % 16)]);
        assert(c.skip(2) =~= seq![digit_byte(y / 16 % 16), digit_byte(y % 16)]);
        assert(digit_byte(y / 16) != 48);
    } else if y < 0x1000 {
        lemma_digits_of_push(y / 16, y % 16, 16);
        lemma_digits_of_push(y / 0x100, y / 16 % 16, 16);
        lemma_fundamental_div_mod(y, 16);
        lemma_fundamental_div_mod(y / 16, 16);
        assert(y / 16 / 16 == y / 0x100) by {
            vstd::arithmetic::div_mod::lemma_div_denominator(y, 16, 16);
        }
        assert(1 <= y / 0x100 < 16);
        assert(digits_of(y / 0x100, 16) =~= seq![digit_byte(y / 0x100)]);
        assert(y / 0x100 % 16 == y / 0x100) by {
            vstd::arithmetic::div_mod::lemma_small_mod((y / 0x100) as nat, 16nat);
        }
        assert(y / 16 == (y / 0x100) * 16 + y / 16 % 16);
        assert(digits_of(y / 16, 16) =~= seq![digit_byte(y / 0x100), digit_byte(y / 16 % 16)]);
        assert(digits_of(y, 16) =~= seq![
            digit_byte(y / 0x100),
            digit_byte(y / 16 % 16),
            digit_byte(y % 16),
        ]);
        assert(c.skip(1) =~= seq![
            digit_byte(y / 0x100 % 16),
            digit_byte(y / 16 % 16),
            digit_byte(y % 16),
        ]);
        assert(digit_byte(y / 0x100 % 16) != 48);
    } else {
        // the four digits are the numeral itself
        let e3 = y / 0x1000;
        assert(e3 >= 1);
        lemma_digits_of_push(y / 16, y % 16, 16);
        lemma_digits_of_push(y / 0x100, y / 16 % 16, 16);
        lemma_digits_of_push(y / 0x1000, y / 0x100 % 16, 16);
        lemma_fundamental_div_mod(y, 16);
        lemma_fundamental_div_mod(y / 16, 16);
        lemma_fundamental_div_mod(y / 0x100, 16);
        assert(y / 16 / 16 == y / 0x100) by {
            vstd::arithmetic::div_mod::lemma_div_denominator(y, 16, 16);
        }
        assert(y / 0x100 / 16 == y / 0x1000) by {
            vstd::arithmetic::div_mod::lemma_div_denominator(y, 0x100, 16);
        }
        assert(1 <= y / 0x1000 < 16);
        assert(digits_of(y / 0x1000, 16) =~= seq![digit_byte(y / 0x1000)]);
        assert(y / 0x100 == (y / 0x1000) * 16 + y / 0x100 % 16);
        assert(y / 16 == (y / 0x100) * 16 + y / 16 % 16);
        assert(digits_of(y / 0x100, 16) =~= seq![
            digit_byte(y / 0x1000),
            digit_byte(y / 0x100 % 16),
        ]);
        assert(digits_of(y / 16, 16) =~= seq![
            digit_byte(y / 0x1000),
            digit_byte(y / 0x100 % 16),
            digit_byte(y / 16 % 16),
        ]);
        assert(digits_of(y, 16) =~= c);
        assert(c.skip(0) =~= c);
        assert(digit_byte(y / 0x1000) != 48);
    }
}

} // verus!
