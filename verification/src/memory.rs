//! Memory sizes written with a unit (`200M`, `1.5G`, `512KB`).
use vstd::prelude::*;
use vstd::arithmetic::power2::{pow2, lemma_pow2_unfold, lemma_pow2_adds, lemma_pow2_strictly_increases, lemma2_to64, lemma2_to64_rest};
use vstd::arithmetic::div_mod::{lemma_fundamental_div_mod_converse_mod, lemma_fundamental_div_mod_converse_div, lemma_div_denominator, lemma_hoist_over_denominator, lemma_div_is_ordered,
    lemma_fundamental_div_mod};
use crate::process::ProcessError;
use crate::text::{decimal, chars_of, concat2, is_alphabetic, owned, str_eq, string_from_chars, to_uppercase, trim,
    trim_spec, unicode_alphabetic, unicode_uppercase};

verus! {

/// `10^n`.
pub open spec fn pow10(n: nat) -> nat
    decreases n,
{
    if n == 0 { 1 } else { 10 * pow10((n - 1) as nat) }
}

pub open spec fn is_digit(c: char) -> bool {
    '0' <= c && c <= '9'
}

pub open spec fn digit_of(c: char) -> nat {
    (c as int - '0' as int) as nat
}

pub open spec fn all_digits(s: Seq<char>) -> bool {
    forall|i: int| 0 <= i < s.len() ==> is_digit(#[trigger] s[i])
}

/// The number written by a run of decimal digits.
pub open spec fn digits_value(s: Seq<char>) -> nat
    decreases s.len(),
{
    if s.len() == 0 { 0 } else { 10 * digits_value(s.drop_last()) + digit_of(s.last()) }
}

/// The number of leading decimal digits of `s`.
pub open spec fn digit_run(s: Seq<char>) -> nat
    decreases s.len(),
{
    if s.len() > 0 && is_digit(s[0]) { 1 + digit_run(s.drop_first()) } else { 0 }
}

/// A decimal number as the standard float parser reads it, for text without
/// letters: an optional sign, then digits with at most one decimal point and
/// at least one digit. Gives whether it is negative, its integer digits and
/// its fraction digits.
pub open spec fn number_parts(s: Seq<char>) -> Option<(bool, Seq<char>, Seq<char>)> {
    let signed = s.len() > 0 && (s[0] == '-' || s[0] == '+');
    let neg = s.len() > 0 && s[0] == '-';
    let r = if signed { s.skip(1) } else { s };
    let k = digit_run(r);
    let rest = r.skip(k as int);
    if rest.len() == 0 {
        if k > 0 { Some((neg, r, Seq::empty())) } else { None }
    } else if rest[0] == '.' && all_digits(rest.skip(1)) && (k > 0 || rest.len() > 1) {
        Some((neg, r.subrange(0, k as int), rest.skip(1)))
    } else {
        None
    }
}

/// The bytes in a unit, by its uppercased name.
pub open spec fn unit_bytes(unit: Seq<char>) -> Option<nat> {
    if unit == ""@ {
        Some(1)
    } else if unit == "K"@ || unit == "KB"@ {
        Some(1024)
    } else if unit == "M"@ || unit == "MB"@ {
        Some(1024 * 1024)
    } else if unit == "G"@ || unit == "GB"@ {
        Some(1024 * 1024 * 1024)
    } else {
        None
    }
}

/// Index of the first letter of `s` (its length if it has none).
pub open spec fn first_letter(s: Seq<char>) -> nat
    decreases s.len(),
{
    if s.len() > 0 && !unicode_alphabetic(s[0]) { 1 + first_letter(s.drop_first()) } else { 0 }
}

/// `a / b` rounded to the nearest integer, a tie going to the even one.
pub open spec fn round_half_even(a: nat, b: nat) -> nat {
    let q = a / b;
    let r = a % b;
    if 2 * r > b || (2 * r == b && q % 2 == 1) { q + 1 } else { q }
}

/// The position of the highest set bit of `w` (0 for 0 and 1).
pub open spec fn log2_floor(w: nat) -> nat
    decreases w,
{
    if w <= 1 { 0 } else { 1 + log2_floor(w / 2) }
}

/// The bytes the amount `p / d` gives when it is held as a double (53
/// significant bits, rounded to nearest, a tie to even) and then cut to an
/// unsigned 64-bit integer: rounded down, and `u64::MAX` from `2^64` on.
/// The amount is rounded at the bit `2^(e - 52)`, where `2^e` is the
/// highest power of two not above it (at `2^-53` below 1, where only
/// rounding up to 1 matters).
pub open spec fn double_bytes(p: nat, d: nat) -> nat {
    let w = p / d;
    if w >= pow2(64) {
        u64::MAX as nat
    } else if w > 0 && log2_floor(w) >= 52 {
        let s = (log2_floor(w) - 52) as nat;
        let r = round_half_even(p, d * pow2(s)) * pow2(s);
        if r >= pow2(64) { u64::MAX as nat } else { r }
    } else {
        let u: nat = if w == 0 { 53 } else { (52 - log2_floor(w)) as nat };
        round_half_even(p * pow2(u), d) / pow2(u)
    }
}

/// What a memory string means: a number of bytes (the amount read as a
/// double and cut to an integer, see `double_bytes`; negative amounts give
/// 0), or the text of the error.
pub open spec fn memory_bytes(s: Seq<char>) -> Result<nat, Seq<char>> {
    let t = trim_spec(s);
    if t.len() == 0 {
        Err("empty memory string"@)
    } else {
        let k = first_letter(t);
        let num = t.subrange(0, k as int);
        let unit = unicode_uppercase(trim_spec(t.skip(k as int)));
        if num.len() == 0 {
            Err("no numeric value in memory string: "@ + t)
        } else {
            match number_parts(num) {
                None => Err("invalid number in memory string: "@ + num),
                Some((neg, ip, fp)) => match unit_bytes(unit) {
                    None => Err("unknown memory suffix: "@ + unit),
                    Some(m) => Ok(if neg {
                        0
                    } else {
                        double_bytes((digits_value(ip) * pow10(fp.len()) + digits_value(fp)) * m, pow10(fp.len()))
                    }),
                },
            }
        }
    }
}

proof fn lemma_pow10_pos(n: nat)
    ensures
        pow10(n) > 0,
    decreases n,
{
    if n > 0 { lemma_pow10_pos((n - 1) as nat); }
}

/// A digit run written first-digit-first.
proof fn lemma_digits_value_first(s: Seq<char>)
    requires
        s.len() > 0,
    ensures
        digits_value(s) == digit_of(s[0]) * pow10((s.len() - 1) as nat) + digits_value(s.drop_first()),
    decreases s.len(),
{
    if s.len() == 1 {
        assert(s.drop_last().len() == 0);
        assert(s.drop_first().len() == 0);
        assert(s.last() == s[0]);
        assert(pow10(0) == 1);
        assert(digits_value(s.drop_last()) == 0);
        assert(digits_value(s.drop_first()) == 0);
        assert(digit_of(s[0]) * pow10(0) == digit_of(s[0])) by (nonlinear_arith) requires pow10(0) == 1;
    } else {
        let d = s.drop_last();
        lemma_digits_value_first(d);
        assert(d[0] == s[0]);
        assert(d.drop_first() =~= s.drop_first().drop_last());
        assert(s.drop_first().last() == s.last());
        let p = pow10((d.len() - 1) as nat);
        let x = digit_of(s[0]);
        let q = digits_value(s.drop_first().drop_last());
        let l = digit_of(s.last());
        assert(pow10((s.len() - 1) as nat) == 10 * p);
        assert(digits_value(d) == x * p + q);
        assert(digits_value(s) == 10 * digits_value(d) + l);
        assert(digits_value(s.drop_first()) == 10 * q + l);
        assert(10 * (x * p) == x * (10 * p)) by (nonlinear_arith);
        assert(digits_value(s) == x * pow10((s.len() - 1) as nat) + digits_value(s.drop_first()));
    }
}

proof fn lemma_digits_value_bound(s: Seq<char>)
    requires
        all_digits(s),
    ensures
        digits_value(s) < pow10(s.len()),
    decreases s.len(),
{
    if s.len() > 0 {
        let d = s.drop_last();
        assert(all_digits(d)) by {
            assert forall|i: int| 0 <= i < d.len() implies is_digit(#[trigger] d[i]) by {
                assert(d[i] == s[i]);
            }
        }
        lemma_digits_value_bound(d);
        assert(is_digit(s[s.len() - 1]));
        assert(digits_value(d) + 1 <= pow10(d.len()));
        assert(10 * digits_value(d) + 10 <= 10 * pow10(d.len())) by (nonlinear_arith)
            requires digits_value(d) + 1 <= pow10(d.len());
    }
}

/// Dividing by `10 * p` in two steps.
proof fn lemma_floor_step(a: int, b: int, p: int)
    requires
        a >= 0,
        b >= 0,
        p > 0,
    ensures
        (a * p + b) / (10 * p) == (a + b / p) / 10,
{
    lemma_hoist_over_denominator(b, a, p as nat);
    assert(b + a * p == a * p + b);
    assert(a * p >= 0) by (nonlinear_arith) requires a >= 0, p > 0;
    lemma_div_denominator(a * p + b, p, 10);
    assert(p * 10 == 10 * p);
}

/// `x / d` and `x % d` from a quotient and remainder.
proof fn lemma_qr(x: int, d: int, q: int, r: int)
    requires
        d > 0,
        0 <= r < d,
        x == q * d + r,
    ensures
        x / d == q,
        x % d == r,
{
    lemma_fundamental_div_mod_converse_div(x, d, q, r);
    lemma_fundamental_div_mod_converse_mod(x, d, q, r);
}

/// Whether `10 * p` divides `a * p + b`, in two steps.
proof fn lemma_mod_step(a: int, b: int, p: int)
    requires
        a >= 0,
        b >= 0,
        p > 0,
    ensures
        ((a * p + b) % (10 * p) == 0) == (b % p == 0 && (a + b / p) % 10 == 0),
{
    let q = b / p;
    let r = b % p;
    lemma_fundamental_div_mod(b, p);
    assert(q >= 0) by (nonlinear_arith) requires b >= 0, p > 0, q == b / p;
    let big = a + q;
    lemma_fundamental_div_mod(big, 10);
    let t = big / 10;
    let z = big % 10;
    assert(a * p + b == t * (10 * p) + (z * p + r)) by (nonlinear_arith)
        requires b == p * q + r, big == a + q, big == 10 * t + z;
    assert(0 <= z * p + r < 10 * p) by (nonlinear_arith)
        requires 0 <= z < 10, 0 <= r < p;
    lemma_qr(a * p + b, 10 * p, t, z * p + r);
    assert((z * p + r == 0) == (z == 0 && r == 0)) by (nonlinear_arith)
        requires 0 <= z, 0 <= r, p > 0;
}

/// The fraction digits `v[lo..hi]` of a number scaled by `mult`: the whole
/// part, and whether nothing is left over. Computed last digit first; each
/// step is `(mult * digit + previous) / 10`.
fn frac_floor_exact(v: &Vec<char>, lo: usize, hi: usize, mult: u128) -> (r: (u128, bool))
    requires
        lo <= hi <= v@.len(),
        all_digits(v@.subrange(lo as int, hi as int)),
        0 < mult <= 0x20_0000_0000_0000_0000_0000,
    ensures
        r.0 == (digits_value(v@.subrange(lo as int, hi as int)) * mult) / (pow10((hi - lo) as nat) as int),
        r.1 == ((digits_value(v@.subrange(lo as int, hi as int)) * mult) % (pow10((hi - lo) as nat) as int) == 0),
        r.0 < mult,
{
    let mut g: u128 = 0;
    let mut ex: bool = true;
    let mut k: usize = hi;
    proof {
        assert(v@.subrange(hi as int, hi as int).len() == 0);
        assert(digits_value(v@.subrange(hi as int, hi as int)) == 0);
        assert(pow10(0) == 1);
    }
    while k > lo
        invariant
            lo <= k <= hi <= v@.len(),
            all_digits(v@.subrange(lo as int, hi as int)),
            0 < mult <= 0x20_0000_0000_0000_0000_0000,
            g == (digits_value(v@.subrange(k as int, hi as int)) * mult) / (pow10((hi - k) as nat) as int),
            ex == ((digits_value(v@.subrange(k as int, hi as int)) * mult) % (pow10((hi - k) as nat) as int) == 0),
            g < mult,
        decreases k - lo,
    {
        let c = v[k - 1];
        proof {
            assert(v@.subrange(lo as int, hi as int)[k - 1 - lo] == c);
        }
        let d: u128 = (c as u128) - ('0' as u128);
        let ghost tail = v@.subrange(k as int, hi as int);
        let ghost s = v@.subrange(k - 1, hi as int);
        let ghost j: nat = (hi - k) as nat;
        let ghost p = pow10(j);
        proof {
            lemma_pow10_pos(j);
            assert(s.drop_first() =~= tail);
            assert(s[0] == c);
            lemma_digits_value_first(s);
            assert(digits_value(s) == d * p + digits_value(tail));
            assert((hi - (k - 1)) as nat == j + 1);
            assert(pow10(j + 1) == 10 * p);
            assert(digits_value(s) * mult == (d * mult) * p + digits_value(tail) * mult) by (nonlinear_arith)
                requires digits_value(s) == d * p + digits_value(tail);
            assert(digits_value(tail) * mult >= 0) by (nonlinear_arith) requires mult > 0;
            assert(d * mult >= 0) by (nonlinear_arith) requires d >= 0, mult > 0;
            lemma_floor_step(d * mult, digits_value(tail) * mult, p as int);
            lemma_mod_step(d * mult, digits_value(tail) * mult, p as int);
            assert(d <= 9);
            assert(mult * d + g < 10 * mult) by (nonlinear_arith)
                requires d <= 9, g < mult;
            assert((mult * d + g) / 10 < mult) by (nonlinear_arith)
                requires mult * d + g < 10 * mult, mult > 0;
            assert(mult * d == d * mult) by (nonlinear_arith);
        }
        let t: u128 = mult * d + g;
        ex = ex && t % 10 == 0;
        g = t / 10;
        k = k - 1;
    }
    (g, ex)
}

/// The number written by the digits `v[lo..hi]`, saturated at `u128::MAX`.
fn wide_digits(v: &Vec<char>, lo: usize, hi: usize) -> (n: u128)
    requires
        lo <= hi <= v@.len(),
        all_digits(v@.subrange(lo as int, hi as int)),
    ensures
        n == (if digits_value(v@.subrange(lo as int, hi as int)) > u128::MAX {
            u128::MAX as nat
        } else {
            digits_value(v@.subrange(lo as int, hi as int))
        }),
{
    let mut n: u128 = 0;
    let mut k: usize = lo;
    while k < hi
        invariant
            lo <= k <= hi <= v@.len(),
            all_digits(v@.subrange(lo as int, hi as int)),
            n == (if digits_value(v@.subrange(lo as int, k as int)) > u128::MAX {
                u128::MAX as nat
            } else {
                digits_value(v@.subrange(lo as int, k as int))
            }),
        decreases hi - k,
    {
        let c = v[k];
        proof {
            assert(v@.subrange(lo as int, hi as int)[k - lo] == c);
            let s = v@.subrange(lo as int, k + 1);
            assert(s.drop_last() =~= v@.subrange(lo as int, k as int));
            assert(s.last() == c);
        }
        let d: u128 = (c as u128) - ('0' as u128);
        if n > (u128::MAX - d) / 10 {
            n = u128::MAX;
        } else {
            n = 10 * n + d;
        }
        k = k + 1;
    }
    n
}

/// `2^n` for `n` up to 100.
fn pow2_wide(n: u32) -> (p: u128)
    requires
        n <= 100,
    ensures
        p == pow2(n as nat),
{
    proof {
        lemma2_to64();
        lemma2_to64_rest();
        lemma_pow2_adds(50, 50);
    }
    let mut p: u128 = 1;
    let mut k: u32 = 0;
    while k < n
        invariant
            k <= n <= 100,
            p == pow2(k as nat),
            pow2(100) == 0x10_0000_0000_0000_0000_0000_0000,
        decreases n - k,
    {
        proof {
            lemma_pow2_unfold((k + 1) as nat);
            if k + 1 < 100 { lemma_pow2_strictly_increases((k + 1) as nat, 100); }
        }
        p = p * 2;
        k = k + 1;
    }
    p
}

/// The highest power of two not above `w` brackets it.
proof fn lemma_log2(w: nat)
    requires
        w >= 1,
    ensures
        pow2(log2_floor(w)) <= w < pow2(log2_floor(w) + 1),
    decreases w,
{
    lemma2_to64();
    if w >= 2 {
        lemma_log2(w / 2);
        let e = log2_floor(w / 2);
        lemma_pow2_unfold(e + 1);
        lemma_pow2_unfold(e + 2);
    }
}

/// The highest set bit of `w`.
fn log2_of(w: u128) -> (e: u32)
    requires
        1 <= w < 0x1_0000_0000_0000_0000,
    ensures
        e == log2_floor(w as nat),
        e < 64,
{
    proof {
        lemma_log2(w as nat);
        lemma2_to64();
        if log2_floor(w as nat) >= 64 {
            if log2_floor(w as nat) > 64 { lemma_pow2_strictly_increases(64, log2_floor(w as nat)); }
        }
    }
    let mut x: u128 = w;
    let mut e: u32 = 0;
    while x > 1
        invariant
            x >= 1,
            e + log2_floor(x as nat) == log2_floor(w as nat),
            log2_floor(w as nat) < 64,
        decreases x,
    {
        x = x / 2;
        e = e + 1;
    }
    e
}

/// Rounding `a / b` half to even, read off `2a / b` and whether it is exact.
proof fn lemma_rne_double(a: nat, b: nat)
    requires
        b > 0,
    ensures
        ({
            let f = (2 * a) / b;
            let ex = (2 * a) % b == 0;
            round_half_even(a, b) == f / 2 + (if f % 2 == 1 && (!ex || (f / 2) % 2 == 1) { 1nat } else { 0nat })
        }),
{
    let ai = a as int;
    let bi = b as int;
    let q: int = ai / bi;
    let r: int = ai % bi;
    lemma_fundamental_div_mod(ai, bi);
    assert(q >= 0) by (nonlinear_arith) requires ai >= 0, bi > 0, q == ai / bi;
    if 2 * r < b {
        assert(2 * ai == (2 * q) * bi + 2 * r) by (nonlinear_arith) requires ai == bi * q + r;
        lemma_qr(2 * ai, bi, 2 * q, 2 * r);
        lemma_qr(2 * q, 2, q, 0);
    } else {
        assert(2 * ai == (2 * q + 1) * bi + (2 * r - bi)) by (nonlinear_arith) requires ai == bi * q + r;
        lemma_qr(2 * ai, bi, 2 * q + 1, 2 * r - bi);
        lemma_qr(2 * q + 1, 2, q, 1);
    }
}

/// `x` divisible by `d * c` in two steps.
proof fn lemma_mod_two_step(x: int, d: int, c: int)
    requires
        x >= 0,
        d > 0,
        c > 0,
    ensures
        (x % (d * c) == 0) == (x % d == 0 && (x / d) % c == 0),
        x / (d * c) == (x / d) / c,
{
    lemma_fundamental_div_mod(x, d);
    let y = x / d;
    let rem = x % d;
    assert(y >= 0) by (nonlinear_arith) requires x >= 0, d > 0, y == x / d;
    lemma_fundamental_div_mod(y, c);
    let t = y / c;
    let z = y % c;
    assert(x == t * (d * c) + (d * z + rem)) by (nonlinear_arith)
        requires x == d * y + rem, y == c * t + z;
    assert(0 <= d * z + rem < d * c) by (nonlinear_arith)
        requires 0 <= z < c, 0 <= rem < d;
    lemma_qr(x, d * c, t, d * z + rem);
    assert((d * z + rem == 0) == (z == 0 && rem == 0)) by (nonlinear_arith)
        requires 0 <= z, 0 <= rem, d > 0;
}

/// For a number with integer digits `v[i0..i1]` (worth `ipv`) and fraction
/// digits `v[f0..f1]`, scaled by `mult`: its whole part and whether it is
/// whole.
fn floor_exact(v: &Vec<char>, i0: usize, i1: usize, f0: usize, f1: usize, ipv: u128, mult: u128) -> (r: (u128, bool))
    requires
        i0 <= i1 <= v@.len(),
        f0 <= f1 <= v@.len(),
        all_digits(v@.subrange(f0 as int, f1 as int)),
        ipv as nat == digits_value(v@.subrange(i0 as int, i1 as int)),
        0 < mult <= 0x20_0000_0000_0000_0000_0000,
        ipv * mult < 0x4000_0000_0000_0000_0000_0000_0000_0000,
    ensures
        ({
            let d = pow10((f1 - f0) as nat);
            let p = (digits_value(v@.subrange(i0 as int, i1 as int)) * d + digits_value(v@.subrange(f0 as int, f1 as int))) * mult;
            &&& r.0 == p / (d as int)
            &&& r.1 == (p % (d as int) == 0)
        }),
{
    let (g, ex) = frac_floor_exact(v, f0, f1, mult);
    let ghost d = pow10((f1 - f0) as nat);
    let ghost fpv = digits_value(v@.subrange(f0 as int, f1 as int));
    let ghost fm = fpv * mult;
    proof {
        lemma_pow10_pos((f1 - f0) as nat);
        assert(fm >= 0) by (nonlinear_arith) requires fpv >= 0, mult > 0, fm == fpv * mult;
        lemma_fundamental_div_mod(fm, d as int);
        let rr = fm % (d as int);
        let p = (ipv * d + fpv) * mult;
        assert(p == (ipv * mult + g) * d + rr) by (nonlinear_arith)
            requires p == (ipv * d + fpv) * mult, fm == fpv * mult, fm == d * g + rr;
        lemma_qr(p, d as int, ipv * mult + g, rr);
    }
    (ipv * mult + g, ex)
}

/// The bytes of the number with integer digits `v[i0..i1]` and fraction
/// digits `v[f0..f1]` in units of `mult` bytes, as a double gives them (see
/// `double_bytes`).
fn scale_double(v: &Vec<char>, i0: usize, i1: usize, f0: usize, f1: usize, mult: u64) -> (n: u64)
    requires
        i0 <= i1 <= v@.len(),
        f0 <= f1 <= v@.len(),
        all_digits(v@.subrange(i0 as int, i1 as int)),
        all_digits(v@.subrange(f0 as int, f1 as int)),
        0 < mult <= 1024 * 1024 * 1024,
    ensures
        ({
            let d = pow10((f1 - f0) as nat);
            n == double_bytes(((digits_value(v@.subrange(i0 as int, i1 as int)) * d
                + digits_value(v@.subrange(f0 as int, f1 as int))) * mult) as nat, d)
        }),
{
    let ghost d = pow10((f1 - f0) as nat);
    let ghost ipv_s = digits_value(v@.subrange(i0 as int, i1 as int));
    let ghost fpv = digits_value(v@.subrange(f0 as int, f1 as int));
    let ghost p: nat = ((ipv_s * d + fpv) * mult) as nat;
    let m: u128 = mult as u128;
    let ipv = wide_digits(v, i0, i1);
    proof {
        lemma_pow10_pos((f1 - f0) as nat);
        lemma2_to64();
        assert(p >= ipv_s * d) by (nonlinear_arith)
            requires p == (ipv_s * d + fpv) * mult, mult >= 1, fpv >= 0, ipv_s >= 0, d >= 1;
        assert(p / d >= ipv_s) by {
            vstd::arithmetic::div_mod::lemma_div_is_ordered((ipv_s * d) as int, p as int, d as int);
            vstd::arithmetic::div_mod::lemma_div_by_multiple(ipv_s as int, d as int);
        }
    }
    if ipv >= 0x1_0000_0000_0000_0000 {
        return u64::MAX;
    }
    proof {
        assert(ipv == ipv_s);
        assert(ipv * m < 0x1_0000_0000_0000_0000 * 0x4000_0001) by (nonlinear_arith)
            requires ipv < 0x1_0000_0000_0000_0000, m <= 0x4000_0000;
    }
    let (w, _) = floor_exact(v, i0, i1, f0, f1, ipv, m);
    if w >= 0x1_0000_0000_0000_0000 {
        return u64::MAX;
    }
    proof {
        // w bounds the integer part scaled by mult.
        assert(w == p / d);
        lemma_fundamental_div_mod(p as int, d as int);
        assert(p < (w + 1) * d) by (nonlinear_arith)
            requires p == d * w + p % d, p % d < d;
        assert(ipv * m * d <= p) by (nonlinear_arith)
            requires p == (ipv * d + fpv) * m, fpv >= 0, m >= 0, ipv >= 0, d >= 0;
        assert(ipv * m <= w) by (nonlinear_arith)
            requires ipv * m * d <= p, p < (w + 1) * d, d > 0;
    }
    let small = if w == 0 { true } else { log2_of(w) < 52 };
    if small {
        let u: u32 = if w == 0 { 53 } else { 52 - log2_of(w) };
        let p2u = pow2_wide(u);
        let ghost e1: nat = if w == 0 { 0 } else { (log2_floor(w as nat) + 1) as nat };
        proof {
            lemma2_to64();
            lemma2_to64_rest();
            lemma_pow2_unfold((u + 1) as nat);
            if u < 53 { lemma_pow2_strictly_increases(u as nat, 53); }
            assert(p2u <= pow2(53));
            if w > 0 {
                lemma_log2(w as nat);
                lemma_pow2_adds(e1, (u + 1) as nat);
                assert(e1 + (u + 1) == 54);
            }
            assert(m * 2 * p2u <= 0x4000_0000 * 2 * 0x20_0000_0000_0000) by (nonlinear_arith)
                requires m <= 0x4000_0000, p2u <= 0x20_0000_0000_0000;
        }
        let mt: u128 = m * 2 * p2u;
        proof {
            assert(p2u >= 1) by { if u > 0 { lemma_pow2_strictly_increases(0, u as nat); } }
            assert(mt > 0) by (nonlinear_arith) requires mt == m * 2 * p2u, m > 0, p2u >= 1;
            assert(mt == mult * pow2((u + 1) as nat)) by (nonlinear_arith)
                requires mt == m * 2 * p2u, p2u == pow2(u as nat), pow2((u + 1) as nat) == 2 * pow2(u as nat), m == mult;
            if w > 0 {
                let aa = ipv * m;
                let pu = pow2((u + 1) as nat);
                assert(ipv * mt == aa * pu) by (nonlinear_arith)
                    requires aa == ipv * m, mt == mult * pu, m == mult;
                assert(aa * pu <= w * pu) by (nonlinear_arith) requires aa <= w, pu >= 0;
                assert(w * pu < pow2(e1) * pu) by (nonlinear_arith) requires w < pow2(e1), pu > 0;
                assert(w + 1 <= pow2(e1));
                assert((w + 1) * pu <= pow2(e1) * pu) by (nonlinear_arith) requires w + 1 <= pow2(e1), pu >= 0;
            } else {
                assert(ipv * m == 0);
                assert(ipv == 0) by (nonlinear_arith) requires ipv * m == 0, m > 0, ipv >= 0;
            }
        }
        let (f, exf) = floor_exact(v, i0, i1, f0, f1, ipv, mt);
        let ghost a: nat = p * pow2(u as nat);
        proof {
            assert((ipv_s * d + fpv) * mt == 2 * a) by (nonlinear_arith)
                requires p == (ipv_s * d + fpv) * mult, mt == mult * (2 * pow2(u as nat)), a == p * pow2(u as nat),
                    pow2((u + 1) as nat) == 2 * pow2(u as nat);
            lemma_rne_double(a, d);
            // f stays small: f < 2^54.
            assert(f * d <= 2 * a) by {
                lemma_fundamental_div_mod((2 * a) as int, d as int);
            }
            let pu = pow2((u + 1) as nat);
            assert(2 * a == p * pu) by (nonlinear_arith) requires a == p * pow2(u as nat), pu == 2 * pow2(u as nat);
            assert(p * pu < (w + 1) * d * pu) by (nonlinear_arith) requires p < (w + 1) * d, pu > 0;
            assert((w + 1) * pu <= pow2(54));
            assert((w + 1) * d * pu <= pow2(54) * d) by (nonlinear_arith) requires (w + 1) * pu <= pow2(54), d > 0;
            assert(f < pow2(54)) by (nonlinear_arith) requires f * d <= 2 * a, 2 * a < pow2(54) * d, d > 0;
        }
        let up: u128 = if f % 2 == 1 && (!exf || (f / 2) % 2 == 1) { 1 } else { 0 };
        let q: u128 = f / 2 + up;
        proof {
            assert(q <= pow2(54));
            assert(q / p2u <= q) by (nonlinear_arith) requires p2u >= 1, q >= 0;
            assert(q / p2u < 0x1_0000_0000_0000_0000);
        }
        (q / p2u) as u64
    } else {
        let e = log2_of(w);
        let s: u32 = e - 52;
        let p2s = pow2_wide(s);
        proof {
            lemma_log2(w as nat);
            assert(pow2(s as nat) >= 1) by { if s > 0 { lemma_pow2_strictly_increases(0, s as nat); } }
            assert(ipv * (m * 2) < 0x1_0000_0000_0000_0000 * 0x8000_0000) by (nonlinear_arith)
                requires ipv * m <= w, w < 0x1_0000_0000_0000_0000;
        }
        let (f, exf) = floor_exact(v, i0, i1, f0, f1, ipv, m * 2);
        proof {
            assert((ipv_s * d + fpv) * (m * 2) == 2 * p) by (nonlinear_arith)
                requires p == (ipv_s * d + fpv) * mult, m == mult;
            lemma_mod_two_step((2 * p) as int, d as int, pow2(s as nat) as int);
            assert(d * pow2(s as nat) > 0) by (nonlinear_arith) requires d > 0, pow2(s as nat) >= 1;
            lemma_rne_double(p, d * pow2(s as nat));
            lemma_fundamental_div_mod((2 * p) as int, d as int);
            assert(f * d <= 2 * p);
            assert(f < 2 * (w + 1)) by (nonlinear_arith) requires f * d <= 2 * p, p < (w + 1) * d, d > 0;
        }
        let fs: u128 = f / p2s;
        let ex2: bool = exf && f % p2s == 0;
        let up: u128 = if fs % 2 == 1 && (!ex2 || (fs / 2) % 2 == 1) { 1 } else { 0 };
        let q: u128 = fs / 2 + up;
        proof {
            assert(fs <= f) by (nonlinear_arith) requires fs == f / p2s, p2s >= 1, f >= 0;
            lemma_pow2_strictly_increases(s as nat, 12);
            lemma2_to64();
            assert(q * p2s <= (0x1_0000_0000_0000_0001 + 1) * 0x1000) by (nonlinear_arith)
                requires q <= fs / 2 + 1, fs <= f, f < 2 * (w + 1), w < 0x1_0000_0000_0000_0000, p2s <= 0x1000, p2s >= 1;
        }
        let r: u128 = q * p2s;
        if r >= 0x1_0000_0000_0000_0000 {
            u64::MAX
        } else {
            r as u64
        }
    }
}

/// The multiplier of an uppercased unit name.
fn unit_multiplier(unit: &str) -> (m: Option<u64>)
    ensures
        m matches Some(x) ==> unit_bytes(unit@) == Some(x as nat),
        m is None ==> unit_bytes(unit@) is None,
{
    proof {
        reveal_strlit("");
        reveal_strlit("K");
        reveal_strlit("KB");
        reveal_strlit("M");
        reveal_strlit("MB");
        reveal_strlit("G");
        reveal_strlit("GB");
    }
    if str_eq(unit, "") {
        Some(1)
    } else if str_eq(unit, "K") || str_eq(unit, "KB") {
        Some(1024)
    } else if str_eq(unit, "M") || str_eq(unit, "MB") {
        Some(1024 * 1024)
    } else if str_eq(unit, "G") || str_eq(unit, "GB") {
        Some(1024 * 1024 * 1024)
    } else {
        None
    }
}

proof fn lemma_first_letter(s: Seq<char>, k: int)
    requires
        0 <= k <= s.len(),
        forall|i: int| 0 <= i < k ==> !unicode_alphabetic(#[trigger] s[i]),
        k < s.len() ==> unicode_alphabetic(s[k]),
    ensures
        first_letter(s) == k,
    decreases s.len(),
{
    if k > 0 {
        let d = s.drop_first();
        assert forall|i: int| 0 <= i < k - 1 implies !unicode_alphabetic(#[trigger] d[i]) by {
            assert(d[i] == s[i + 1]);
        }
        if k < s.len() { assert(d[k - 1] == s[k]); }
        assert(!unicode_alphabetic(s[0]));
        lemma_first_letter(d, k - 1);
    }
}

proof fn lemma_digit_run(s: Seq<char>, k: int)
    requires
        0 <= k <= s.len(),
        forall|i: int| 0 <= i < k ==> is_digit(#[trigger] s[i]),
        k < s.len() ==> !is_digit(s[k]),
    ensures
        digit_run(s) == k,
    decreases s.len(),
{
    if k > 0 {
        let d = s.drop_first();
        assert forall|i: int| 0 <= i < k - 1 implies is_digit(#[trigger] d[i]) by {
            assert(d[i] == s[i + 1]);
        }
        if k < s.len() { assert(d[k - 1] == s[k]); }
        assert(is_digit(s[0]));
        lemma_digit_run(d, k - 1);
    }
}

/// Reads the number in `v[lo..hi]` (see `number_parts`): whether it is
/// negative, and the bounds of its integer and fraction digits.
fn read_number(v: &Vec<char>, lo: usize, hi: usize) -> (r: Option<(bool, usize, usize, usize, usize)>)
    requires
        lo <= hi <= v@.len(),
    ensures
        match r {
            None => number_parts(v@.subrange(lo as int, hi as int)) is None,
            Some((neg, i0, i1, f0, f1)) => {
                &&& i0 <= i1 <= v@.len()
                &&& f0 <= f1 <= v@.len()
                &&& all_digits(v@.subrange(i0 as int, i1 as int))
                &&& all_digits(v@.subrange(f0 as int, f1 as int))
                &&& number_parts(v@.subrange(lo as int, hi as int))
                    == Some((neg, v@.subrange(i0 as int, i1 as int), v@.subrange(f0 as int, f1 as int)))
            },
        },
{
    let ghost s = v@.subrange(lo as int, hi as int);
    let signed = lo < hi && (v[lo] == '-' || v[lo] == '+');
    let neg = lo < hi && v[lo] == '-';
    let start: usize = if signed { lo + 1 } else { lo };
    let ghost r = if signed { s.skip(1) } else { s };
    proof {
        assert(r =~= v@.subrange(start as int, hi as int));
    }
    let mut k: usize = start;
    while k < hi && '0' <= v[k] && v[k] <= '9'
        invariant
            start <= k <= hi <= v@.len(),
            forall|i: int| start <= i < k ==> is_digit(#[trigger] v@[i]),
        decreases hi - k,
    {
        k = k + 1;
    }
    proof {
        assert forall|i: int| 0 <= i < k - start implies is_digit(#[trigger] r[i]) by {
            assert(r[i] == v@[start + i]);
        }
        if k < hi { assert(r[k - start] == v@[k as int]); }
        lemma_digit_run(r, k - start);
        assert(r.skip(k - start) =~= v@.subrange(k as int, hi as int));
        assert(all_digits(v@.subrange(start as int, k as int))) by {
            assert forall|i: int| 0 <= i < k - start implies is_digit(#[trigger] v@.subrange(start as int, k as int)[i]) by {
                assert(v@.subrange(start as int, k as int)[i] == v@[start + i]);
            }
        }
    }
    if k == hi {
        if k > start {
            proof {
                assert(v@.subrange(hi as int, hi as int) =~= Seq::<char>::empty());
            }
            return Some((neg, start, hi, hi, hi));
        }
        return None;
    }
    if v[k] != '.' {
        proof { assert(r.skip(k - start)[0] == v@[k as int]); }
        return None;
    }
    let mut j: usize = k + 1;
    while j < hi && '0' <= v[j] && v[j] <= '9'
        invariant
            k + 1 <= j <= hi <= v@.len(),
            forall|i: int| k + 1 <= i < j ==> is_digit(#[trigger] v@[i]),
        decreases hi - j,
    {
        j = j + 1;
    }
    let ghost rest = v@.subrange(k as int, hi as int);
    proof {
        assert(rest[0] == '.');
        assert(rest.skip(1) =~= v@.subrange(k + 1, hi as int));
    }
    if j < hi {
        proof {
            assert(rest.skip(1)[j - k - 1] == v@[j as int]);
            assert(!all_digits(rest.skip(1)));
        }
        return None;
    }
    if k == start && j == k + 1 {
        proof { assert(rest.len() == 1); }
        return None;
    }
    proof {
        assert(all_digits(v@.subrange(k + 1, hi as int))) by {
            assert forall|i: int| 0 <= i < hi - k - 1 implies is_digit(#[trigger] v@.subrange(k + 1, hi as int)[i]) by {
                assert(v@.subrange(k + 1, hi as int)[i] == v@[k + 1 + i]);
            }
        }
        assert(r.subrange(0, k - start) =~= v@.subrange(start as int, k as int));
    }
    Some((neg, start, k, k + 1, hi))
}

/// Parses a memory size: a number (fractions allowed) followed by an
/// optional unit `K`/`KB`, `M`/`MB` or `G`/`GB` (any case; powers of 1024),
/// surrounding whitespace ignored. The amount is read as a double: its
/// bytes are those of the nearest double, rounded down; a negative amount
/// gives 0 and one from `2^64` on gives `u64::MAX` (see `double_bytes`).
pub fn parse_memory_string(s: &str) -> (r: Result<u64, ProcessError>)
    ensures
        match memory_bytes(s@) {
            Ok(n) => r == Ok::<u64, ProcessError>(n as u64),
            Err(m) => r matches Err(ProcessError::InvalidCommand(t)) && t@ == m,
        },
{
    proof {
        reveal_strlit("empty memory string");
        reveal_strlit("no numeric value in memory string: ");
        reveal_strlit("invalid number in memory string: ");
        reveal_strlit("unknown memory suffix: ");
    }
    let t = trim(s);
    let v = chars_of(t.as_str());
    let n = v.len();
    if n == 0 {
        return Err(ProcessError::InvalidCommand(owned("empty memory string")));
    }
    let mut k: usize = 0;
    while k < n && !is_alphabetic(v[k])
        invariant
            k <= n == v@.len(),
            forall|i: int| 0 <= i < k ==> !unicode_alphabetic(#[trigger] v@[i]),
        decreases n - k,
    {
        k = k + 1;
    }
    proof {
        lemma_first_letter(v@, k as int);
    }
    let rest = string_from_chars(v.as_slice(), k, n);
    let unit_trimmed = trim(rest.as_str());
    let unit = to_uppercase(unit_trimmed.as_str());
    proof {
        assert(rest@ =~= t@.skip(k as int));
    }
    if k == 0 {
        return Err(ProcessError::InvalidCommand(concat2("no numeric value in memory string: ", t.as_str())));
    }
    match read_number(&v, 0, k) {
        None => {
            let num = string_from_chars(v.as_slice(), 0, k);
            Err(ProcessError::InvalidCommand(concat2("invalid number in memory string: ", num.as_str())))
        },
        Some((neg, i0, i1, f0, f1)) => {
            match unit_multiplier(unit.as_str()) {
                None => Err(ProcessError::InvalidCommand(concat2("unknown memory suffix: ", unit.as_str()))),
                Some(mult) => {
                    if neg {
                        Ok(0)
                    } else {
                        Ok(scale_double(&v, i0, i1, f0, f1, mult))
                    }
                },
            }
        },
    }
}

} // verus!

verus! {

/// What a memory check does next.
#[derive(Debug, PartialEq, Eq, Structural)]
pub enum MemoryWatch {
    /// The process is gone or no longer running: stop watching it.
    Stop,
    /// It runs without a known pid: check again later.
    Idle,
    /// Measure the memory of this pid.
    Measure(u32),
}

/// Decides a memory check from the process's table entry (its status and
/// pid, `None` if it is gone).
pub fn memory_watch(entry: Option<(crate::protocol::ProcessStatus, Option<u32>)>) -> (w: MemoryWatch)
    ensures
        w == (match entry {
            None => MemoryWatch::Stop,
            Some((status, pid)) => if status == crate::protocol::ProcessStatus::Online
                || status == crate::protocol::ProcessStatus::Starting {
                match pid { Some(p) => MemoryWatch::Measure(p), None => MemoryWatch::Idle }
            } else {
                MemoryWatch::Stop
            },
        }),
{
    match entry {
        None => MemoryWatch::Stop,
        Some((status, pid)) => {
            if status.is_running() {
                match pid {
                    Some(p) => MemoryWatch::Measure(p),
                    None => MemoryWatch::Idle,
                }
            } else {
                MemoryWatch::Stop
            }
        },
    }
}

/// Whether a measured resident size breaks the limit (it must exceed it).
pub fn memory_exceeded(rss: u64, max_bytes: u64) -> (r: bool)
    ensures
        r == (rss > max_bytes),
{
    rss > max_bytes
}

/// The report of a process restarted for using too much memory.
pub fn memory_limit_message(name: &str, rss: u64, max_bytes: u64) -> (r: String)
    ensures
        r@ == "memory limit exceeded for '"@ + name@ + "': "@ + decimal(rss as nat) + " bytes > "@
            + decimal(max_bytes as nat) + " bytes, restarting"@,
{
    let a = concat2("memory limit exceeded for '", name);
    let b = concat2(a.as_str(), "': ");
    let r1 = crate::text::decimal_string(rss);
    let c = concat2(b.as_str(), r1.as_str());
    let d = concat2(c.as_str(), " bytes > ");
    let m1 = crate::text::decimal_string(max_bytes);
    let e = concat2(d.as_str(), m1.as_str());
    let r = concat2(e.as_str(), " bytes, restarting");
    assert(r@ =~= "memory limit exceeded for '"@ + name@ + "': "@ + decimal(rss as nat) + " bytes > "@
            + decimal(max_bytes as nat) + " bytes, restarting"@);
    r
}

/// The report of a memory limit that cannot be read.
pub fn invalid_max_memory_message(name: &str, detail: &str) -> (r: String)
    ensures
        r@ == "invalid max_memory for '"@ + name@ + "': "@ + detail@,
{
    let a = concat2("invalid max_memory for '", name);
    let b = concat2(a.as_str(), "': ");
    let r = concat2(b.as_str(), detail);
    assert(r@ =~= "invalid max_memory for '"@ + name@ + "': "@ + detail@);
    r
}

} // verus!
