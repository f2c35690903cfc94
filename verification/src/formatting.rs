//! Sizes as people read them.

use vstd::prelude::*;

use crate::text::{decimal, decimal_text};

verus! {

/// A quotient rounded to the nearest integer, halves to the even one.
pub open spec fn nearest(n: nat, d: nat) -> nat {
    let q = n / d;
    let r = n % d;
    if 2 * r < d || (2 * r == d && q % 2 == 0) {
        q
    } else {
        q + 1
    }
}

/// The distance of the numbers near `n` that have 53 significant bits.
pub open spec fn spacing(n: nat) -> nat
    decreases n,
{
    if n < 0x20_0000_0000_0000 {
        1
    } else {
        2 * spacing(n / 2)
    }
}

/// `n` in double precision: rounded to 53 significant bits.
pub open spec fn as_double(n: nat) -> nat {
    nearest(n, spacing(n)) * spacing(n)
}

/// A number of units with one decimal.
pub open spec fn one_decimal(m: nat, unit: nat, name: Seq<char>) -> Seq<char> {
    let tenths = nearest(10 * m, unit);
    decimal(tenths / 10) + "."@ + decimal(tenths % 10) + name
}

/// A size in bytes as people read it: in the largest unit that it fills, from
/// kilobytes on with one decimal.
pub open spec fn shown_size(n: nat) -> Seq<char> {
    let m = as_double(n);
    if m < 0x400 {
        decimal(m) + "B"@
    } else if m < 0x10_0000 {
        one_decimal(m, 0x400, "KB"@)
    } else if m < 0x4000_0000 {
        one_decimal(m, 0x10_0000, "MB"@)
    } else if m < 0x100_0000_0000 {
        one_decimal(m, 0x4000_0000, "GB"@)
    } else if m < 0x4_0000_0000_0000 {
        one_decimal(m, 0x100_0000_0000, "TB"@)
    } else {
        one_decimal(m, 0x4_0000_0000_0000, "PB"@)
    }
}

fn round_quotient(n: u128, d: u128) -> (r: u128)
    requires
        0 < d < 0x1_0000_0000_0000_0000_0000,
        n < 0x1_0000_0000_0000_0000_0000,
    ensures
        r == nearest(n as nat, d as nat),
        r <= n / d + 1,
{
    let q: u128 = n / d;
    let rest: u128 = n % d;
    if 2 * rest < d || (2 * rest == d && q % 2 == 0) {
        q
    } else {
        q + 1
    }
}

proof fn lemma_spacing(n: nat)
    requires
        n <= 0xffff_ffff_ffff_ffff,
    ensures
        1 <= spacing(n) <= 2048,
        n < 0x20_0000_0000_0000 * spacing(n),
{
    reveal_with_fuel(spacing, 13);
}

fn spacing_of(n: u64) -> (r: u64)
    ensures
        r == spacing(n as nat),
        1 <= r <= 2048,
        n < 0x20_0000_0000_0000 * r,
    decreases n,
{
    proof {
        lemma_spacing(n as nat);
    }
    if n < 0x20_0000_0000_0000 {
        1
    } else {
        2 * spacing_of(n / 2)
    }
}

fn tenths_text(m: u128, unit: u64, name: &str) -> (r: String)
    requires
        m <= 0x1_0000_0000_0000_0000,
        unit > 0,
        m <= 0x1000_0000 * unit,
    ensures
        r@ == one_decimal(m as nat, unit as nat, name@),
{
    let tenths: u128 = round_quotient(10 * m, unit as u128);
    proof {
        let u = unit as int;
        let mi = m as int;
        assert((10 * mi) / u <= 10 * 0x1000_0000) by (nonlinear_arith)
            requires
                u > 0,
                mi <= 0x1000_0000 * u,
                mi >= 0,
        ;
    }
    let whole: u64 = (tenths / 10) as u64;
    let part: u64 = (tenths % 10) as u64;
    let mut s = decimal_text(whole);
    s.append(".");
    s.append(decimal_text(part).as_str());
    s.append(name);
    s
}

/// A size in bytes as people read it.
pub fn human_size(n: u64) -> (r: String)
    ensures
        r@ == shown_size(n as nat),
{
    let step: u64 = spacing_of(n);
    let quotient: u128 = round_quotient(n as u128, step as u128);
    proof {
        let q = quotient as int;
        let s = step as int;
        let ni = n as int;
        assert(ni / s <= 0x20_0000_0000_0000 - 1) by (nonlinear_arith)
            requires
                s > 0,
                0 <= ni < 0x20_0000_0000_0000 * s,
        ;
        assert(q * s <= 0x20_0000_0000_0000 * 2048) by (nonlinear_arith)
            requires
                0 <= q <= 0x20_0000_0000_0000,
                1 <= s <= 2048,
        ;
        assert(q * s >= 0) by (nonlinear_arith)
            requires
                0 <= q,
                1 <= s,
        ;
        assert(q * s == as_double(n as nat)) by {
            assert(nearest(n as nat, spacing(n as nat)) == quotient as nat);
        }
    }
    let m: u128 = quotient * (step as u128);
    if m < 0x400 {
        let mut s = decimal_text(m as u64);
        s.append("B");
        s
    } else if m < 0x10_0000 {
        tenths_text(m, 0x400, "KB")
    } else if m < 0x4000_0000 {
        tenths_text(m, 0x10_0000, "MB")
    } else if m < 0x100_0000_0000 {
        tenths_text(m, 0x4000_0000, "GB")
    } else if m < 0x4_0000_0000_0000 {
        tenths_text(m, 0x100_0000_0000, "TB")
    } else {
        tenths_text(m, 0x4_0000_0000_0000, "PB")
    }
}

} // verus!
