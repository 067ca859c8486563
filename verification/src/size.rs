//! File sizes for people to read.

use vstd::prelude::*;
use crate::text;

verus! {

pub const KB: u64 = 1024;

pub const MB: u64 = 1_048_576;

pub const GB: u64 = 1_073_741_824;

/// The least number that a double-precision number does not hold together with all below it
/// and its successor.
pub const DOUBLE_LIMIT: u64 = 9_007_199_254_740_992;

/// `n / d` rounded to the nearest whole number, halves to the even one.
pub open spec fn half_even(n: nat, d: nat) -> nat {
    let q = n / d;
    let r = n % d;
    if 2 * r < d || (2 * r == d && q % 2 == 0) {
        q
    } else {
        q + 1
    }
}

/// The distance between the double-precision numbers around `n`.
pub open spec fn double_step(n: nat) -> nat
    decreases n,
{
    if n < DOUBLE_LIMIT {
        1
    } else {
        2 * double_step(n / 2)
    }
}

/// The double-precision number nearest to `n`.
pub open spec fn as_double(n: nat) -> nat {
    half_even(n, double_step(n)) * double_step(n)
}

/// `n`, as a double-precision number, in units with one decimal place.
pub open spec fn in_units(n: nat, unit: nat) -> Seq<char> {
    let tenths = half_even(as_double(n) * 10, unit);
    text::decimal(tenths / 10) + seq!['.', text::digit((tenths % 10) as int)]
}

/// A number of bytes for people to read.
pub open spec fn size_text(bytes: nat) -> Seq<char> {
    if bytes >= GB {
        in_units(bytes, GB as nat) + " GB"@
    } else if bytes >= MB {
        in_units(bytes, MB as nat) + " MB"@
    } else if bytes >= KB {
        in_units(bytes, KB as nat) + " KB"@
    } else {
        text::decimal(bytes) + " B"@
    }
}

fn divide_half_even(n: u128, d: u128) -> (r: u128)
    requires
        0 < d <= 0x1_0000_0000,
        n <= 0xF_0000_0000_0000_0000,
    ensures
        r == half_even(n as nat, d as nat),
        r <= n + 1,
{
    let q: u128 = n / d;
    let rest: u128 = n % d;
    proof {
        assert(q <= n) by (nonlinear_arith)
            requires
                q == n / d,
                d > 0,
        ;
    }
    if 2 * rest < d || (2 * rest == d && q % 2 == 0) {
        q
    } else {
        q + 1
    }
}

/// The double-precision number nearest to a 64-bit number.
fn to_double(n: u64) -> (r: u128)
    ensures
        r == as_double(n as nat),
        r <= 0x1_0000_0000_0000_1000,
{
    let mut step: u128 = 1;
    let mut m: u64 = n;
    while m >= DOUBLE_LIMIT
        invariant
            double_step(n as nat) == step * double_step(m as nat),
            step >= 1,
            step * m <= n,
            step == 1 || m >= 0x10_0000_0000_0000,
        decreases m,
    {
        proof {
            let half = double_step((m / 2) as nat);
            assert(step * (2 * half) == (2 * step) * half) by (nonlinear_arith);
            assert((2 * step) * (m / 2) <= step * m) by (nonlinear_arith);
            assert(step <= n) by (nonlinear_arith)
                requires
                    step * m <= n,
                    m >= 1,
                    step >= 1,
            ;
        }
        step = 2 * step;
        m = m / 2;
    }
    proof {
        assert(step * 1 == step);
        assert(step <= 0x1000) by (nonlinear_arith)
            requires
                step * m <= n,
                n <= 0xFFFF_FFFF_FFFF_FFFF,
                m >= 0x10_0000_0000_0000 || step == 1,
        ;
    }
    let q = divide_half_even(n as u128, step);
    proof {
        let floor = n as nat / step as nat;
        assert(q <= floor + 1);
        assert(floor * step <= n) by (nonlinear_arith)
            requires
                floor == n as nat / step as nat,
                step > 0,
        ;
        assert(q * step <= floor * step + step) by (nonlinear_arith)
            requires
                q <= floor + 1,
                step > 0,
        ;
    }
    q * step
}

fn units_text(n: u64, unit: u64) -> (r: String)
    requires
        unit == KB || unit == MB || unit == GB,
    ensures
        r@ == in_units(n as nat, unit as nat),
{
    let tenths = divide_half_even(to_double(n) * 10, unit as u128);
    proof {
        let x = (as_double(n as nat) * 10) as nat;
        assert(half_even(x, unit as nat) <= x / 1024 + 1) by {
            assert(x / unit as nat <= x / 1024) by (nonlinear_arith)
                requires
                    unit >= 1024,
            ;
        }
    }
    let mut r = text::unsigned_text((tenths / 10) as u64);
    r.push('.');
    r.push(text::digit_char((tenths % 10) as u64));
    assert(r@ =~= in_units(n as nat, unit as nat));
    r
}

/// Formats a number of bytes for people to read.
pub fn format_size(bytes: u64) -> (r: String)
    ensures
        r@ == size_text(bytes as nat),
{
    if bytes >= GB {
        units_text(bytes, GB).concat(" GB")
    } else if bytes >= MB {
        units_text(bytes, MB).concat(" MB")
    } else if bytes >= KB {
        units_text(bytes, KB).concat(" KB")
    } else {
        text::unsigned_text(bytes).concat(" B")
    }
}

/// Rounding leaves at most half a unit, and of two as near the even one.
pub proof fn law_rounding_is_to_the_nearest(n: nat, d: nat)
    requires
        d > 0,
    ensures
        2 * (half_even(n, d) * d - n) <= d,
        2 * (n - half_even(n, d) * d) <= d,
        2 * (half_even(n, d) * d - n) == d || 2 * (n - half_even(n, d) * d) == d ==> half_even(n, d) % 2
            == 0,
{
    let q = n / d;
    let r = n % d;
    assert(n == q * d + r && r < d) by (nonlinear_arith)
        requires
            q == n / d,
            r == n % d,
            d > 0,
    ;
    assert((q + 1) * d == q * d + d) by (nonlinear_arith);
}

/// Sizes go by powers of 1024: plain bytes below the first, and then in the greatest unit that is not
/// above the size, with one decimal place.
pub proof fn law_sizes_go_by_powers_of_1024(bytes: nat)
    ensures
        bytes < 1024 ==> size_text(bytes) == text::decimal(bytes) + " B"@,
        1024 <= bytes < 1024 * 1024 ==> size_text(bytes) == in_units(bytes, 1024) + " KB"@,
        1024 * 1024 <= bytes < 1024 * 1024 * 1024 ==> size_text(bytes) == in_units(bytes, 1024 * 1024)
            + " MB"@,
        1024 * 1024 * 1024 <= bytes ==> size_text(bytes) == in_units(bytes, 1024 * 1024 * 1024) + " GB"@,
{
}

/// A size in units is the number of tenths nearest to it, the last digit behind a point.
pub proof fn law_units_are_tenths(n: nat, unit: nat)
    requires
        unit > 0,
    ensures
        in_units(n, unit) == text::decimal(half_even(10 * as_double(n), unit) / 10) + seq![
            '.',
            text::digit((half_even(10 * as_double(n), unit) % 10) as int),
        ],
        n < 0x20_0000_0000_0000 ==> as_double(n) == n,
{
    assert(as_double(n) * 10 == 10 * as_double(n));
    if n < 0x20_0000_0000_0000 {
        assert(half_even(n, 1) == n);
        assert(double_step(n) == 1);
        vstd::arithmetic::mul::lemma_mul_basics(n as int);
    }
}

/// From 2^53 on the numbers that are held are twice as far apart each time the number doubles. A
/// number is held as the nearest of them, and as an even multiple of their distance where two are.
pub proof fn law_double_steps_double(n: nat)
    ensures
        n < 0x20_0000_0000_0000 ==> double_step(n) == 1,
        n >= 0x20_0000_0000_0000 ==> double_step(n) == 2 * double_step(n / 2),
        double_step(n) > 0,
        as_double(n) % double_step(n) == 0,
        2 * (as_double(n) - n) <= double_step(n),
        2 * (n - as_double(n)) <= double_step(n),
        2 * (as_double(n) - n) == double_step(n) || 2 * (n - as_double(n)) == double_step(n) ==> (
        as_double(n) / double_step(n)) % 2 == 0,
    decreases n,
{
    if n >= 0x20_0000_0000_0000 {
        law_double_steps_double(n / 2);
    }
    let d = double_step(n);
    let q = half_even(n, d);
    law_rounding_is_to_the_nearest(n, d);
    vstd::arithmetic::div_mod::lemma_mod_multiples_basic(q as int, d as int);
    vstd::arithmetic::div_mod::lemma_div_multiples_vanish(q as int, d as int);
    vstd::arithmetic::mul::lemma_mul_is_commutative(q as int, d as int);
}

} // verus!
