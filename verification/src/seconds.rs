//! Durations in milliseconds, written in seconds with a fixed number of
//! decimal places.
//!
//! The quotient is the one of binary floating point with 53 significant bits
//! (binary64): the number of milliseconds is taken to the nearest such number,
//! divided by 1000 to the nearest such number, and that is written out to the
//! nearest decimal. Each rounding goes to the even neighbour in the middle.

use crate::text::{decimal, digit, digit_char, push_decimal};
use vstd::prelude::*;

verus! {

/// The integer nearest to `p / q`, the even one in the middle.
pub open spec fn round_even(p: nat, q: nat) -> nat {
    let d = p / q;
    let twice = 2 * (p % q);
    if twice < q || (twice == q && d % 2 == 0) {
        d
    } else {
        d + 1
    }
}

/// The least power of two `c` for which `p / (q * c)` has at most 53 bits
/// before the point.
pub open spec fn coarse(p: nat, q: nat) -> nat
    decreases p - q,
{
    if q == 0 || p < 0x20_0000_0000_0000 * q {
        1
    } else {
        2 * coarse(p, 2 * q)
    }
}

/// The least power of two `f` for which `p * f / q` has at least 53 bits
/// before the point; 1 where `p` is 0.
pub open spec fn fine(p: nat, q: nat) -> nat
    decreases
        if p < 0x10_0000_0000_0000 * q {
            0x10_0000_0000_0000 * q - p
        } else {
            0
        },
{
    if p == 0 || p >= 0x10_0000_0000_0000 * q {
        1
    } else {
        2 * fine(2 * p, q)
    }
}

/// The binary64 number nearest to an integer.
pub open spec fn nearest(n: nat) -> nat {
    round_even(n, coarse(n, 1)) * coarse(n, 1)
}

/// The duration in units of `1 / t` seconds, rounded to the nearest: `ms` over
/// 1000 as a binary64 number, times `t`.
pub open spec fn units(ms: nat, t: nat) -> nat {
    let x = nearest(ms);
    let c = coarse(x, 1000);
    let f = fine(x, 1000);
    let mantissa = round_even(x * f, 1000 * c);
    round_even(mantissa * c * t, f)
}

/// A duration in seconds with two decimal places.
pub open spec fn hundredths_text(ms: nat) -> Seq<char> {
    let h = units(ms, 100);
    decimal(h / 100) + seq!['.', digit((h / 10 % 10) as int), digit((h % 10) as int)]
}

/// A duration in seconds with one decimal place.
pub open spec fn tenths_text(ms: nat) -> Seq<char> {
    let h = units(ms, 10);
    decimal(h / 10) + seq!['.', digit((h % 10) as int)]
}

/// A duration in whole seconds.
pub open spec fn whole_text(ms: nat) -> Seq<char> {
    decimal(units(ms, 1))
}

fn rounded(p: u128, q: u128) -> (r: u128)
    requires
        0 < q,
        2 * q <= u128::MAX,
        p < u128::MAX,
    ensures
        r == round_even(p as nat, q as nat),
        r <= p / q + 1,
{
    let d: u128 = p / q;
    let twice: u128 = 2 * (p % q);
    assert(d <= p) by (nonlinear_arith)
        requires
            d == p / q,
            q > 0,
    ;
    if twice < q || (twice == q && d % 2 == 0) {
        d
    } else {
        d + 1
    }
}

fn coarse_factor(p: u128, q: u128) -> (c: u128)
    requires
        0 < q <= 1000,
        p < 0x2_0000_0000_0000_0000,
    ensures
        c == coarse(p as nat, q as nat),
        0 < c <= 0x2000,
        p < 0x20_0000_0000_0000 * (q * c),
        c == 1 || p >= 0x10_0000_0000_0000 * (q * c),
{
    let mut c: u128 = 1;
    let mut qc: u128 = q;
    while p >= 0x20_0000_0000_0000 * qc
        invariant
            0 < q <= 1000,
            0 < c <= 0x2000,
            qc == q * c,
            0 < qc <= 0x2000 * 1000,
            c == 1 || p >= 0x10_0000_0000_0000 * qc,
            p < 0x2_0000_0000_0000_0000,
            coarse(p as nat, q as nat) == c * coarse(p as nat, qc as nat),
        decreases p - qc,
    {
        proof {
            let k = coarse(p as nat, (2 * qc) as nat);
            assert(c * (2 * k) == (2 * c) * k) by (nonlinear_arith);
            assert(q * (2 * c) == 2 * (q * c)) by (nonlinear_arith);
            assert(c <= qc) by (nonlinear_arith)
                requires
                    qc == q * c,
                    q >= 1,
            ;
        }
        c = 2 * c;
        qc = 2 * qc;
    }
    proof {
        let k = coarse(p as nat, qc as nat);
        assert(c * k == c) by (nonlinear_arith)
            requires
                k == 1,
        ;
    }
    c
}

fn fine_factor(p: u128, q: u128) -> (f: u128)
    requires
        0 < q <= 1000,
        p < 0x2_0000_0000_0000_0000,
    ensures
        f == fine(p as nat, q as nat),
        0 < f <= 0x8000_0000_0000_0000,
        f == 1 || p * f < 0x20_0000_0000_0000 * q,
{
    if p == 0 {
        return 1;
    }
    let mut f: u128 = 1;
    let mut pf: u128 = p;
    while pf < 0x10_0000_0000_0000 * q
        invariant
            0 < q <= 1000,
            0 < p < 0x2_0000_0000_0000_0000,
            0 < f <= 0x8000_0000_0000_0000,
            pf == p * f,
            pf > 0,
            f == 1 || pf < 0x20_0000_0000_0000 * q,
            fine(p as nat, q as nat) == f * fine(pf as nat, q as nat),
        decreases
            if pf < 0x10_0000_0000_0000 * q {
                0x10_0000_0000_0000 * q - pf
            } else {
                0
            },
    {
        proof {
            let k = fine((2 * pf) as nat, q as nat);
            assert(f * (2 * k) == (2 * f) * k) by (nonlinear_arith);
            assert(p * (2 * f) == 2 * (p * f)) by (nonlinear_arith);
            assert(f <= pf) by (nonlinear_arith)
                requires
                    pf == p * f,
                    p >= 1,
            ;
        }
        f = 2 * f;
        pf = 2 * pf;
    }
    proof {
        let k = fine(pf as nat, q as nat);
        assert(f * k == f) by (nonlinear_arith)
            requires
                k == 1,
        ;
    }
    f
}

fn nearest_double(n: u64) -> (r: u128)
    ensures
        r == nearest(n as nat),
        r < 0x2_0000_0000_0000_0000,
{
    let p: u128 = n as u128;
    let c: u128 = coarse_factor(p, 1);
    let r: u128 = rounded(p, c);
    assert(r * c <= p + c) by (nonlinear_arith)
        requires
            r <= p / c + 1,
            c > 0,
    ;
    r * c
}

fn unit_count(ms: u64, t: u64) -> (r: u64)
    requires
        0 < t <= 100,
    ensures
        r == units(ms as nat, t as nat),
{
    let x: u128 = nearest_double(ms);
    let c: u128 = coarse_factor(x, 1000);
    let f: u128 = fine_factor(x, 1000);
    assert(x * f < 0x2_0000_0000_0000_0000) by (nonlinear_arith)
        requires
            x < 0x2_0000_0000_0000_0000,
            f == 1 || x * f < 0x20_0000_0000_0000 * 1000,
    ;
    let xf: u128 = x * f;
    let m: u128 = rounded(xf, 1000 * c);
    proof {
        if f == 1 {
            assert(xf == x) by (nonlinear_arith)
                requires
                    xf == x * f,
                    f == 1,
            ;
            assert(xf as int / (1000 * c) < 0x20_0000_0000_0000) by (nonlinear_arith)
                requires
                    xf < 0x20_0000_0000_0000 * (1000 * c),
                    c > 0,
            ;
            assert(c <= 8) by (nonlinear_arith)
                requires
                    c == 1 || x >= 0x10_0000_0000_0000 * (1000 * c),
                    x < 0x2_0000_0000_0000_0000,
            ;
        } else {
            assert(c == 1) by (nonlinear_arith)
                requires
                    c == 1 || x >= 0x10_0000_0000_0000 * (1000 * c),
                    x * f < 0x20_0000_0000_0000 * 1000,
                    f >= 2,
                    c >= 1,
            ;
            assert(xf as int / (1000 * c) < 0x20_0000_0000_0000) by (nonlinear_arith)
                requires
                    xf < 0x20_0000_0000_0000 * 1000,
                    c == 1,
            ;
        }
        assert(m * c * t <= 0x20_0000_0000_0000 * 8 * 100) by (nonlinear_arith)
            requires
                m <= 0x20_0000_0000_0000,
                c <= 8,
                t <= 100,
        ;
        assert(m * c <= 0x20_0000_0000_0000 * 8) by (nonlinear_arith)
            requires
                m <= 0x20_0000_0000_0000,
                c <= 8,
        ;
    }
    let scaled: u128 = m * c * (t as u128);
    let r: u128 = rounded(scaled, f);
    assert(scaled / f <= scaled) by (nonlinear_arith)
        requires
            f > 0,
    ;
    r as u64
}

/// Appends a duration in seconds with two decimal places.
pub fn push_hundredths(out: &mut String, ms: u64)
    ensures
        final(out)@ == old(out)@ + hundredths_text(ms as nat),
{
    let h: u64 = unit_count(ms, 100);
    push_decimal(out, h / 100);
    out.push('.');
    out.push(digit_char(h / 10 % 10));
    out.push(digit_char(h % 10));
    assert(out@ =~= old(out)@ + hundredths_text(ms as nat));
}

/// Appends a duration in seconds with one decimal place.
pub fn push_tenths(out: &mut String, ms: u64)
    ensures
        final(out)@ == old(out)@ + tenths_text(ms as nat),
{
    let h: u64 = unit_count(ms, 10);
    push_decimal(out, h / 10);
    out.push('.');
    out.push(digit_char(h % 10));
    assert(out@ =~= old(out)@ + tenths_text(ms as nat));
}

/// Appends a duration in whole seconds.
pub fn push_whole(out: &mut String, ms: u64)
    ensures
        final(out)@ == old(out)@ + whole_text(ms as nat),
{
    push_decimal(out, unit_count(ms, 1));
}

} // verus!
