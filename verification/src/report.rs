//! Numbers and texts of the command line: what the tables show, and what is read from
//! arguments and files.

use vstd::prelude::*;
use vstd::arithmetic::power2::pow2;
use vstd::string::*;
use crate::cli;

verus! {

/// One above the largest odd whole number that a double holds.
pub const DOUBLE_LIMIT: u128 = 0x20_0000_0000_0000;

/// The whole number nearest to a quotient, the even one where two are equally near.
pub open spec fn nearest(n: nat, d: nat) -> nat {
    let q = n / d;
    let r = n % d;
    if r + r < d || (r + r == d && q % 2 == 0) {
        q
    } else {
        q + 1
    }
}

/// How many binary digits of a whole number a double has no room for.
pub open spec fn excess_bits(c: nat) -> nat
    decreases c,
{
    if c < DOUBLE_LIMIT {
        0
    } else {
        1 + excess_bits(c / 2)
    }
}

/// The double nearest to a whole number.
pub open spec fn as_double(c: nat) -> nat {
    let unit = pow2(excess_bits(c));
    nearest(c, unit) * unit
}

/// How often a number must be doubled for its quotient to fill a double's digits.
pub open spec fn scale_bits(n: nat, d: nat) -> nat
    decreases d * DOUBLE_LIMIT - n,
{
    if n == 0 || 2 * n >= d * DOUBLE_LIMIT {
        0
    } else {
        1 + scale_bits(2 * n, d)
    }
}

/// A whole number, divided as a double by another one and rounded to a decimal fraction: how
/// many of the fractions there are. The quotient is at least one and below the limit of
/// exact whole numbers.
pub open spec fn rounded_quotient(c: nat, d: nat, fractions: nat) -> nat {
    let n = as_double(c);
    let unit = pow2(scale_bits(n, d));
    nearest(nearest(n * unit, d) * fractions, unit)
}

/// A decimal digit as text.
pub open spec fn digit_text(d: nat) -> Seq<char> {
    if d == 0 {
        "0"@
    } else if d == 1 {
        "1"@
    } else if d == 2 {
        "2"@
    } else if d == 3 {
        "3"@
    } else if d == 4 {
        "4"@
    } else if d == 5 {
        "5"@
    } else if d == 6 {
        "6"@
    } else if d == 7 {
        "7"@
    } else if d == 8 {
        "8"@
    } else {
        "9"@
    }
}

/// A whole number in decimal notation.
pub open spec fn decimal_text(n: nat) -> Seq<char>
    decreases n,
{
    if n < 10 {
        digit_text(n)
    } else {
        decimal_text(n / 10) + digit_text(n % 10)
    }
}

/// A number of tenths with one decimal place.
pub open spec fn tenths_text(v: nat) -> Seq<char> {
    decimal_text(v / 10) + "."@ + digit_text(v % 10)
}

/// A number of hundredths with two decimal places.
pub open spec fn hundredths_text(v: nat) -> Seq<char> {
    decimal_text(v / 100) + "."@ + digit_text(v / 10 % 10) + digit_text(v % 10)
}

/// What [`fmt_constraints`] writes.
pub open spec fn constraints_text(c: nat) -> Seq<char> {
    if c >= 1_000_000 {
        hundredths_text(rounded_quotient(c, 1_000_000, 100)) + "M"@
    } else if c >= 1_000 {
        tenths_text(rounded_quotient(c, 1_000, 10)) + "K"@
    } else {
        decimal_text(c)
    }
}

/// What [`fmt_bytes`] writes.
pub open spec fn bytes_text(b: nat) -> Seq<char> {
    if b >= 1_048_576 {
        hundredths_text(rounded_quotient(b, 1_048_576, 100)) + " MB"@
    } else if b >= 1024 {
        tenths_text(rounded_quotient(b, 1024, 10)) + " KB"@
    } else {
        decimal_text(b) + " B"@
    }
}

fn nearest_even(n: u128, d: u128) -> (r: u128)
    requires
        d > 0,
        n < 0xffff_ffff_ffff_ffff_ffff_ffff_ffff_ffff,
    ensures
        r == nearest(n as nat, d as nat),
{
    let q: u128 = n / d;
    let rest: u128 = n % d;
    assert(q <= n) by (nonlinear_arith)
        requires
            q == n / d,
            d > 0,
    ;
    if rest < d - rest || (rest == d - rest && q % 2 == 0) {
        q
    } else {
        q + 1
    }
}

/// The double nearest to a whole number.
fn double_of(c: u64) -> (r: u128)
    ensures
        r == as_double(c as nat),
        r <= 2 * c,
{
    let mut rest: u64 = c;
    let mut unit: u128 = 1;
    let ghost mut e: nat = 0;
    proof {
        vstd::arithmetic::power2::lemma2_to64();
    }
    while rest as u128 >= DOUBLE_LIMIT
        invariant
            unit == pow2(e),
            excess_bits(c as nat) == e + excess_bits(rest as nat),
            unit * rest <= c,
            unit >= 1,
            rest <= c,
            rest as nat >= DOUBLE_LIMIT / 2 || e == 0,
        decreases rest,
    {
        let next: u64 = rest / 2;
        proof {
            assert(unit < 0x1000) by (nonlinear_arith)
                requires
                    unit * rest <= c,
                    rest >= 0x20_0000_0000_0000,
                    c <= 0xffff_ffff_ffff_ffff,
            ;
            assert((2 * unit) * next <= unit * rest) by (nonlinear_arith)
                requires
                    2 * next <= rest,
            ;
            vstd::arithmetic::power2::lemma_pow2_unfold(e + 1);
            e = e + 1;
        }
        rest = next;
        unit = unit * 2;
    }
    proof {
        if e > 0 {
            assert(unit < 0x1000) by (nonlinear_arith)
                requires
                    unit * rest <= c,
                    rest >= 0x10_0000_0000_0000,
                    c <= 0xffff_ffff_ffff_ffff,
            ;
            assert(unit <= c) by (nonlinear_arith)
                requires
                    unit * rest <= c,
                    rest >= 1,
            ;
        } else {
            assert(unit == 1);
        }
    }
    let count = nearest_even(c as u128, unit);
    proof {
        let q = c as nat / unit as nat;
        vstd::arithmetic::div_mod::lemma_fundamental_div_mod(c as int, unit as int);
        assert(count <= q + 1);
        assert((q + 1) * unit <= c + unit) by (nonlinear_arith)
            requires
                c == unit * q + c as nat % unit as nat,
        ;
        assert(count * unit <= (q + 1) * unit) by (nonlinear_arith)
            requires
                count <= q + 1,
        ;
        if c == 0 {
            assert(count * unit == 0) by (nonlinear_arith)
                requires
                    count == 0,
            ;
        }
    }
    count * unit
}

/// A whole number, divided as a double by another one and rounded to a decimal fraction.
fn quotient(c: u64, d: u64, fractions: u64) -> (r: u128)
    requires
        0 < d <= c,
        1000 <= d <= 1_048_576,
        0 < fractions <= 100,
    ensures
        r == rounded_quotient(c as nat, d as nat, fractions as nat),
{
    let n = double_of(c);
    let full: u128 = d as u128 * DOUBLE_LIMIT;
    let mut scaled: u128 = n;
    let mut unit: u128 = 1;
    let ghost mut k: nat = 0;
    proof {
        vstd::arithmetic::power2::lemma2_to64();
        assert(full <= 1_048_576 * 0x20_0000_0000_0000);
        lemma_double_is_positive(c as nat);
    }
    while 2 * scaled < full
        invariant
            n == as_double(c as nat),
            0 < n,
            full == d * DOUBLE_LIMIT,
            full <= 1_048_576 * 0x20_0000_0000_0000,
            unit == pow2(k),
            unit >= 1,
            scaled == n * unit,
            n <= scaled,
            unit <= scaled,
            scaled <= full || scaled == n,
            n <= 0x2_0000_0000_0000_0000,
            scale_bits(n as nat, d as nat) == k + scale_bits(scaled as nat, d as nat),
        decreases full - scaled,
    {
        proof {
            assert(scale_bits(scaled as nat, d as nat) == 1 + scale_bits(
                (2 * scaled) as nat,
                d as nat,
            ));
            assert(2 * (n * unit) == n * (2 * unit)) by (nonlinear_arith);
            vstd::arithmetic::power2::lemma_pow2_unfold(k + 1);
            k = k + 1;
        }
        scaled = scaled * 2;
        unit = unit * 2;
    }
    assert(scale_bits(scaled as nat, d as nat) == 0);
    let mantissa = nearest_even(scaled, d as u128);
    proof {
        let q = scaled as nat / d as nat;
        assert(q <= scaled / 1000) by (nonlinear_arith)
            requires
                q == scaled as nat / d as nat,
                d >= 1000,
        ;
        assert(mantissa <= q + 1);
        assert(mantissa * fractions <= mantissa * 100) by (nonlinear_arith)
            requires
                fractions <= 100,
        ;
    }
    nearest_even(mantissa * fractions as u128, unit)
}

/// The double nearest to a positive number is positive.
proof fn lemma_double_is_positive(c: nat)
    requires
        0 < c,
    ensures
        as_double(c) > 0,
{
    let unit = pow2(excess_bits(c));
    lemma_excess_leaves_digits(c);
    vstd::arithmetic::power2::lemma_pow2_pos(excess_bits(c));
    assert(c / unit >= 1) by (nonlinear_arith)
        requires
            unit <= c,
            unit > 0,
    ;
    assert(nearest(c, unit) * unit > 0) by (nonlinear_arith)
        requires
            nearest(c, unit) >= 1,
            unit > 0,
    ;
}

/// The digits that a double has no room for are fewer than all.
proof fn lemma_excess_leaves_digits(c: nat)
    requires
        0 < c,
    ensures
        pow2(excess_bits(c)) <= c,
    decreases c,
{
    vstd::arithmetic::power2::lemma2_to64();
    if c >= DOUBLE_LIMIT {
        lemma_excess_leaves_digits(c / 2);
        vstd::arithmetic::power2::lemma_pow2_unfold(excess_bits(c));
    }
}

/// Append a decimal digit.
fn push_digit(out: &mut String, d: u128)
    requires
        d < 10,
    ensures
        final(out)@ == old(out)@ + digit_text(d as nat),
{
    if d == 0 {
        out.append("0");
    } else if d == 1 {
        out.append("1");
    } else if d == 2 {
        out.append("2");
    } else if d == 3 {
        out.append("3");
    } else if d == 4 {
        out.append("4");
    } else if d == 5 {
        out.append("5");
    } else if d == 6 {
        out.append("6");
    } else if d == 7 {
        out.append("7");
    } else if d == 8 {
        out.append("8");
    } else {
        out.append("9");
    }
}

/// Append a whole number in decimal notation.
pub(crate) fn push_decimal(out: &mut String, n: u128)
    ensures
        final(out)@ == old(out)@ + decimal_text(n as nat),
    decreases n,
{
    if n < 10 {
        push_digit(out, n);
    } else {
        push_decimal(out, n / 10);
        push_digit(out, n % 10);
        assert(old(out)@ + decimal_text((n / 10) as nat) + digit_text((n % 10) as nat)
            =~= old(out)@ + decimal_text(n as nat));
    }
}

/// A number of tenths with one decimal place.
fn tenths(v: u128) -> (r: String)
    ensures
        r@ == tenths_text(v as nat),
{
    let mut out = String::new();
    push_decimal(&mut out, v / 10);
    out.append(".");
    push_digit(&mut out, v % 10);
    assert(out@ =~= tenths_text(v as nat));
    out
}

/// A number of hundredths with two decimal places.
fn hundredths(v: u128) -> (r: String)
    ensures
        r@ == hundredths_text(v as nat),
{
    let mut out = String::new();
    push_decimal(&mut out, v / 100);
    out.append(".");
    push_digit(&mut out, v / 10 % 10);
    push_digit(&mut out, v % 10);
    assert(out@ =~= hundredths_text(v as nat));
    out
}

/// A number of constraints, in thousands or millions where it is large.
pub fn fmt_constraints(c: usize) -> (r: String)
    ensures
        r@ == constraints_text(c as nat),
{
    if c >= 1_000_000 {
        hundredths(quotient(c as u64, 1_000_000, 100)).concat("M")
    } else if c >= 1_000 {
        tenths(quotient(c as u64, 1_000, 10)).concat("K")
    } else {
        let mut out = String::new();
        push_decimal(&mut out, c as u128);
        assert(out@ =~= decimal_text(c as nat));
        out
    }
}

/// A number of bytes, in kilobytes or megabytes where it is large.
pub fn fmt_bytes(b: usize) -> (r: String)
    ensures
        r@ == bytes_text(b as nat),
{
    if b >= 1_048_576 {
        hundredths(quotient(b as u64, 1_048_576, 100)).concat(" MB")
    } else if b >= 1024 {
        tenths(quotient(b as u64, 1024, 10)).concat(" KB")
    } else {
        let mut out = String::new();
        push_decimal(&mut out, b as u128);
        assert(out@ =~= decimal_text(b as nat));
        out.concat(" B")
    }
}

/// A number of kilobytes.
pub fn fmt_mem_kb(kb: u64) -> (r: String)
    requires
        kb * 1024 <= usize::MAX,
    ensures
        r@ == bytes_text((kb * 1024) as nat),
{
    fmt_bytes(kb as usize * 1024)
}

/// Rounding gives the nearest whole number: no multiple of the divisor is nearer to the number,
/// the distance is at most half the divisor, and of two that are equally near it gives the even
/// one.
pub proof fn rounding_gives_the_nearest(n: nat, d: nat, other: nat)
    requires
        d > 0,
    ensures
        ({
            let near = n - nearest(n, d) * d;
            let far = n - other * d;
            &&& -(d as int) <= 2 * near <= d
            &&& (if near < 0 {
                -near
            } else {
                near
            }) <= (if far < 0 {
                -far
            } else {
                far
            })
            &&& 2 * near == d || 2 * near == -d ==> nearest(n, d) % 2 == 0
        }),
{
    let q = n / d;
    let r = n % d;
    vstd::arithmetic::div_mod::lemma_fundamental_div_mod(n as int, d as int);
    assert(d * q == q * d && (q + 1) * d == q * d + d) by (nonlinear_arith);
    if other <= q {
        assert(other * d <= q * d) by (nonlinear_arith)
            requires
                other <= q,
        ;
    } else {
        assert((q + 1) * d <= other * d) by (nonlinear_arith)
            requires
                q + 1 <= other,
        ;
    }
}

/// A digit is one character: its code is 48 above the digit.
proof fn lemma_digit_text(d: nat)
    requires
        d < 10,
    ensures
        digit_text(d).len() == 1,
        digit_text(d)[0] as int == 48 + d,
{
    reveal_strlit("0");
    reveal_strlit("1");
    reveal_strlit("2");
    reveal_strlit("3");
    reveal_strlit("4");
    reveal_strlit("5");
    reveal_strlit("6");
    reveal_strlit("7");
    reveal_strlit("8");
    reveal_strlit("9");
}

/// Decimal notation is read back as the number, and has no zero in front but for zero itself.
pub proof fn decimal_text_is_read_back(n: nat)
    ensures
        cli::digits_value(decimal_text(n)) == Some(n),
        decimal_text(n).len() > 0,
        n > 0 ==> decimal_text(n)[0] != '0',
    decreases n,
{
    if n < 10 {
        lemma_digit_text(n);
    } else {
        decimal_text_is_read_back(n / 10);
        lemma_digit_text(n % 10);
        let text = decimal_text(n);
        assert(text.drop_last() =~= decimal_text(n / 10));
        assert(text.last() == digit_text(n % 10)[0]);
        assert(text[0] == decimal_text(n / 10)[0]);
    }
}

/// A number with decimal places is the number of fractions with a point in front of the last
/// one or two digits.
pub proof fn fractions_are_read_back(v: nat)
    ensures
        cli::digits_value(decimal_text(v / 10) + digit_text(v % 10)) == Some(v),
        cli::digits_value(
            decimal_text(v / 100) + digit_text(v / 10 % 10) + digit_text(v % 10),
        ) == Some(v),
        tenths_text(v) == decimal_text(v / 10) + "."@ + digit_text(v % 10),
        hundredths_text(v) == decimal_text(v / 100) + "."@ + digit_text(v / 10 % 10) + digit_text(
            v % 10,
        ),
{
    decimal_text_is_read_back(v / 10);
    decimal_text_is_read_back(v / 100);
    lemma_digit_text(v % 10);
    lemma_digit_text(v / 10 % 10);
    let one = decimal_text(v / 10) + digit_text(v % 10);
    assert(one.drop_last() =~= decimal_text(v / 10));
    assert(one.last() == digit_text(v % 10)[0]);
    let two = decimal_text(v / 100) + digit_text(v / 10 % 10);
    assert(two.drop_last() =~= decimal_text(v / 100));
    assert(two.last() == digit_text(v / 10 % 10)[0]);
    let three = two + digit_text(v % 10);
    assert(three.drop_last() =~= two);
    assert(three.last() == digit_text(v % 10)[0]);
    assert(v / 10 / 10 == v / 100);
    assert(cli::digits_value(two) == Some(v / 10));
}

/// A whole number below the limit of exact ones is its own double.
pub proof fn small_numbers_are_exact_doubles(c: nat)
    requires
        c < DOUBLE_LIMIT,
    ensures
        as_double(c) == c,
{
    vstd::arithmetic::power2::lemma2_to64();
    assert(excess_bits(c) == 0);
    assert(pow2(0) == 1);
    assert(c % 1 == 0 && c / 1 == c);
    assert(nearest(c, 1) == c);
    assert(c * 1 == c);
}

/// The rounded quotient is within half a fraction of the exact one, but for the rounding of
/// doubles.
pub proof fn quotient_is_rounded_to_half_a_fraction(c: nat, d: nat, fractions: nat)
    requires
        0 < c < DOUBLE_LIMIT,
        d > 0,
        fractions > 0,
        2 * c * fractions < DOUBLE_LIMIT,
    ensures
        ({
            let off = rounded_quotient(c, d, fractions) * d - c * fractions;
            -(d as int) <= 2 * off <= d
        }),
{
    let f = fractions;
    small_numbers_are_exact_doubles(c);
    let k = scale_bits(c, d);
    let unit = pow2(k);
    let m = nearest(c * unit, d);
    let v = nearest(m * f, unit);
    vstd::arithmetic::power2::lemma_pow2_pos(k);
    rounding_gives_the_nearest(c * unit, d, 0);
    rounding_gives_the_nearest(m * f, unit, 0);
    lemma_scaled_fills_a_double(c, d);
    let first = c * unit - m * d;
    let second = m * f - v * unit;
    let off = v * d - c * f;
    assert(off * unit == -(second * d) - first * f) by (nonlinear_arith)
        requires
            first == c * unit - m * d,
            second == m * f - v * unit,
            off == v * d - c * f,
    ;
    let limit = DOUBLE_LIMIT as int;
    let full = c * unit;
    assert(unit > d * f) by (nonlinear_arith)
        requires
            full == c * unit,
            2 * full >= d * limit,
            2 * c * f < limit,
            c > 0,
            d > 0,
    ;
    assert(2 * off * unit <= d * unit + d * f && 2 * off * unit >= -(d * unit + d * f))
        by (nonlinear_arith)
        requires
            off * unit == -(second * d) - first * f,
            -(unit as int) <= 2 * second <= unit,
            -(d as int) <= 2 * first <= d,
            d > 0,
            f > 0,
            unit > 0,
    ;
    assert(2 * off <= d && 2 * off >= -d) by (nonlinear_arith)
        requires
            2 * off * unit <= d * unit + d * f,
            2 * off * unit >= -(d * unit + d * f),
            unit > d * f,
            unit > 0,
    ;
}

/// Scaling goes on until the quotient fills a double's digits.
proof fn lemma_scaled_fills_a_double(n: nat, d: nat)
    requires
        n > 0,
    ensures
        2 * (n * pow2(scale_bits(n, d))) >= d * DOUBLE_LIMIT,
    decreases d * DOUBLE_LIMIT - n,
{
    vstd::arithmetic::power2::lemma2_to64();
    if 2 * n >= d * DOUBLE_LIMIT {
        assert(n * pow2(0) == n) by (nonlinear_arith)
            requires
                pow2(0) == 1,
        ;
    } else {
        let k = scale_bits(2 * n, d);
        lemma_scaled_fills_a_double(2 * n, d);
        vstd::arithmetic::power2::lemma_pow2_unfold(k + 1);
        assert((2 * n) * pow2(k) == n * (2 * pow2(k))) by (nonlinear_arith);
    }
}

/// A number of constraints is written out below a thousand, and above it in thousands with one
/// decimal place or in millions with two, rounded to the nearest.
pub proof fn constraints_are_written_rounded(c: usize, r: String)
    requires
        call_ensures(fmt_constraints, (c,), r),
    ensures
        c < 1_000 ==> r@ == decimal_text(c as nat),
        1_000 <= c < 1_000_000 ==> exists|v: nat|
            r@ == #[trigger] decimal_text(v / 10) + "."@ + digit_text(v % 10) + "K"@ && -1_000 <= 2
                * (1_000 * v - 10 * c) <= 1_000,
        1_000_000 <= c < 0x100_0000_0000 ==> exists|v: nat|
            r@ == #[trigger] decimal_text(v / 100) + "."@ + digit_text(v / 10 % 10) + digit_text(
                v % 10,
            ) + "M"@ && -1_000_000 <= 2 * (1_000_000 * v - 100 * c) <= 1_000_000,
        1_000_000 <= c ==> exists|v: nat|
            r@ == #[trigger] decimal_text(v / 100) + "."@ + digit_text(v / 10 % 10) + digit_text(
                v % 10,
            ) + "M"@ && -101_000_000 <= 2 * (1_000_000 * v - 100 * as_double(c as nat))
                <= 101_000_000,
{
    if 1_000_000 <= c {
        let v = rounded_quotient(c as nat, 1_000_000, 100);
        large_quotient_is_rounded_twice(c as nat, 1_000_000, 100);
        assert(r@ =~= decimal_text(v / 100) + "."@ + digit_text(v / 10 % 10) + digit_text(v % 10)
            + "M"@);
    }
    if 1_000 <= c < 1_000_000 {
        let v = rounded_quotient(c as nat, 1_000, 10);
        quotient_is_rounded_to_half_a_fraction(c as nat, 1_000, 10);
        assert(r@ =~= decimal_text(v / 10) + "."@ + digit_text(v % 10) + "K"@);
    } else if 1_000_000 <= c < 0x100_0000_0000 {
        let v = rounded_quotient(c as nat, 1_000_000, 100);
        quotient_is_rounded_to_half_a_fraction(c as nat, 1_000_000, 100);
        assert(r@ =~= decimal_text(v / 100) + "."@ + digit_text(v / 10 % 10) + digit_text(v % 10)
            + "M"@);
    }
}

/// A number of bytes is written out below 1024, and above it in kilobytes with one decimal
/// place or in megabytes with two, rounded to the nearest; and a number of kilobytes is written
/// as its bytes.
pub proof fn bytes_are_written_rounded(b: usize, r: String, kb: u64, of_kb: String)
    requires
        call_ensures(fmt_bytes, (b,), r),
        call_ensures(fmt_mem_kb, (kb,), of_kb),
    ensures
        b < 1024 ==> r@ == decimal_text(b as nat) + " B"@,
        1024 <= b < 1_048_576 ==> exists|v: nat|
            r@ == #[trigger] decimal_text(v / 10) + "."@ + digit_text(v % 10) + " KB"@ && -1024 <= 2
                * (1024 * v - 10 * b) <= 1024,
        1_048_576 <= b < 0x100_0000_0000 ==> exists|v: nat|
            r@ == #[trigger] decimal_text(v / 100) + "."@ + digit_text(v / 10 % 10) + digit_text(
                v % 10,
            ) + " MB"@ && -1_048_576 <= 2 * (1_048_576 * v - 100 * b) <= 1_048_576,
        1_048_576 <= b ==> exists|v: nat|
            r@ == #[trigger] decimal_text(v / 100) + "."@ + digit_text(v / 10 % 10) + digit_text(
                v % 10,
            ) + " MB"@ && -105_906_176 <= 2 * (1_048_576 * v - 100 * as_double(b as nat))
                <= 105_906_176,
        b == kb * 1024 ==> r@ == of_kb@,
{
    if 1_048_576 <= b {
        let v = rounded_quotient(b as nat, 1_048_576, 100);
        large_quotient_is_rounded_twice(b as nat, 1_048_576, 100);
        assert(r@ =~= decimal_text(v / 100) + "."@ + digit_text(v / 10 % 10) + digit_text(v % 10)
            + " MB"@);
    }
    if 1024 <= b < 1_048_576 {
        let v = rounded_quotient(b as nat, 1024, 10);
        quotient_is_rounded_to_half_a_fraction(b as nat, 1024, 10);
        assert(r@ =~= decimal_text(v / 10) + "."@ + digit_text(v % 10) + " KB"@);
    } else if 1_048_576 <= b < 0x100_0000_0000 {
        let v = rounded_quotient(b as nat, 1_048_576, 100);
        quotient_is_rounded_to_half_a_fraction(b as nat, 1_048_576, 100);
        assert(r@ =~= decimal_text(v / 100) + "."@ + digit_text(v / 10 % 10) + digit_text(v % 10)
            + " MB"@);
    }
}

/// The double of a whole number is off by at most half a unit in its last place, and that unit is
/// at most the number over 2 to the power 52.
pub proof fn double_is_off_by_half_a_unit(c: nat)
    requires
        c >= DOUBLE_LIMIT,
    ensures
        ({
            let unit = pow2(excess_bits(c));
            let off = as_double(c) - c;
            &&& -(unit as int) <= 2 * off <= unit
            &&& unit * 0x10_0000_0000_0000 <= c
            &&& as_double(c) % unit == 0
        }),
{
    let unit = pow2(excess_bits(c));
    vstd::arithmetic::power2::lemma_pow2_pos(excess_bits(c));
    rounding_gives_the_nearest(c, unit, 0);
    lemma_unit_is_small(c);
    vstd::arithmetic::div_mod::lemma_mod_multiples_basic(nearest(c, unit) as int, unit as int);
}

proof fn lemma_unit_is_small(c: nat)
    requires
        c >= DOUBLE_LIMIT / 2,
    ensures
        pow2(excess_bits(c)) * 0x10_0000_0000_0000 <= c,
    decreases c,
{
    vstd::arithmetic::power2::lemma2_to64();
    if c >= DOUBLE_LIMIT {
        lemma_unit_is_small(c / 2);
        vstd::arithmetic::power2::lemma_pow2_unfold(excess_bits(c));
    }
}

/// The rounded quotient of a larger number is within half a fraction of that of its double, but
/// for one more rounding to a double's digits.
pub proof fn large_quotient_is_rounded_twice(c: nat, d: nat, fractions: nat)
    requires
        0 < c,
        d > 0,
        fractions > 0,
    ensures
        ({
            let off = rounded_quotient(c, d, fractions) * d - as_double(c) * fractions;
            -(d + d * fractions) <= 2 * off <= d + d * fractions
        }),
{
    let f = fractions;
    let n = as_double(c);
    let k = scale_bits(n, d);
    let unit = pow2(k);
    let m = nearest(n * unit, d);
    let v = nearest(m * f, unit);
    vstd::arithmetic::power2::lemma_pow2_pos(k);
    rounding_gives_the_nearest(n * unit, d, 0);
    rounding_gives_the_nearest(m * f, unit, 0);
    let first = n * unit - m * d;
    let second = m * f - v * unit;
    let off = v * d - n * f;
    assert(off * unit == -(second * d) - first * f) by (nonlinear_arith)
        requires
            first == n * unit - m * d,
            second == m * f - v * unit,
            off == v * d - n * f,
    ;
    assert(2 * off * unit <= d * unit + d * f && 2 * off * unit >= -(d * unit + d * f))
        by (nonlinear_arith)
        requires
            off * unit == -(second * d) - first * f,
            -(unit as int) <= 2 * second <= unit,
            -(d as int) <= 2 * first <= d,
            d > 0,
            f > 0,
            unit > 0,
    ;
    assert(2 * off <= d + d * f && 2 * off >= -(d + d * f)) by (nonlinear_arith)
        requires
            2 * off * unit <= d * unit + d * f,
            2 * off * unit >= -(d * unit + d * f),
            unit >= 1,
            d * f >= 0,
    ;
}

} // verus!
