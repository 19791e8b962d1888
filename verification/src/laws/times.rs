//! Durations in seconds.

use crate::clock::clock_reading;
use crate::seconds::{
    coarse, fine, hundredths_text, nearest, round_even, tenths_text, units, whole_text,
};
use crate::text::{decimal, decimal_writes_its_number, value_of};
use vstd::prelude::*;

verus! {

/// Rounding gives an integer that is no further away than half a unit.
proof fn lemma_round_even(p: nat, q: nat)
    requires
        q > 0,
    ensures
        2 * (round_even(p, q) * q) <= 2 * p + q,
        2 * p <= 2 * (round_even(p, q) * q) + q,
{
    let d = p / q;
    assert(p == d * q + p % q) by (nonlinear_arith)
        requires
            d == p / q,
            q > 0,
    ;
    assert((d + 1) * q == d * q + q) by (nonlinear_arith);
    assert(p % q < q) by (nonlinear_arith)
        requires
            q > 0,
    ;
}

proof fn lemma_fine(p: nat, q: nat)
    requires
        q > 0,
    ensures
        fine(p, q) > 0,
        p > 0 ==> p * fine(p, q) >= 0x10_0000_0000_0000 * q,
    decreases
        if p < 0x10_0000_0000_0000 * q {
            0x10_0000_0000_0000 * q - p
        } else {
            0
        },
{
    if p > 0 && p < 0x10_0000_0000_0000 * q {
        lemma_fine(2 * p, q);
        let f = fine(2 * p, q);
        assert(p * (2 * f) == (2 * p) * f) by (nonlinear_arith);
    } else {
        assert(p * 1 == p);
    }
}

/// A duration of up to two thousand years, in tenths, hundredths or whole units
/// of a second, is the nearest number of those: no further than half a unit from
/// the milliseconds.
pub proof fn durations_are_rounded_to_the_nearest(ms: nat, t: nat)
    requires
        ms <= 0x4000_0000_0000,
        0 < t <= 100,
    ensures
        1000 * units(ms, t) <= ms * t + 500,
        ms * t <= 1000 * units(ms, t) + 500,
{
    assert(coarse(ms, 1) == 1);
    lemma_round_even(ms, 1);
    let x = nearest(ms);
    assert(x == ms) by {
        let r = round_even(ms, 1);
        assert(r * 1 == r);
    }
    assert(coarse(x, 1000) == 1);
    let f = fine(x, 1000);
    lemma_fine(x, 1000);
    let m = round_even(x * f, 1000 * 1);
    let u = round_even(m * 1 * t, f);
    assert(u == units(ms, t)) by {
        assert(m * 1 == m);
    }
    lemma_round_even(x * f, 1000);
    lemma_round_even(m * t, f);
    if x == 0 {
        assert(x * f == 0) by (nonlinear_arith)
            requires
                x == 0,
        ;
        assert(m == 0);
        assert(m * t == 0) by (nonlinear_arith)
            requires
                m == 0,
        ;
        assert(f == 1);
        assert(u == 0) by {
            assert(u * f == u) by (nonlinear_arith)
                requires
                    f == 1,
            ;
        }
        assert(ms * t == 0) by (nonlinear_arith)
            requires
                ms == 0,
        ;
    } else {
        assert(f > 500 * t) by (nonlinear_arith)
            requires
                x * f >= 0x10_0000_0000_0000 * 1000,
                0 < x <= 0x4000_0000_0000,
                t <= 100,
        ;
        // In units of 1 / (1000 f): u is within 500 f of m t, and that within
        // 500 t of x f t.
        let uf = u * f;
        let mt = m * t;
        let xft = (x * f) * t;
        assert(2 * (1000 * mt) <= 2 * xft + 1000 * t) by (nonlinear_arith)
            requires
                2 * (m * 1000) <= 2 * (x * f) + 1000,
                mt == m * t,
                xft == (x * f) * t,
        ;
        assert(2 * xft <= 2 * (1000 * mt) + 1000 * t) by (nonlinear_arith)
            requires
                2 * (x * f) <= 2 * (m * 1000) + 1000,
                mt == m * t,
                xft == (x * f) * t,
        ;
        assert(xft == (x * t) * f) by (nonlinear_arith)
            requires
                xft == (x * f) * t,
        ;
        assert((1000 * u) * f == 1000 * uf) by (nonlinear_arith)
            requires
                uf == u * f,
        ;
        let a = 1000 * u;
        let b = x * t;
        assert(a * f <= b * f + 500 * f + 500 * t);
        assert(b * f <= a * f + 500 * f + 500 * t);
        assert(a <= b + 500) by (nonlinear_arith)
            requires
                a * f <= b * f + 500 * f + 500 * t,
                f > 500 * t,
        ;
        assert(b <= a + 500) by (nonlinear_arith)
            requires
                b * f <= a * f + 500 * f + 500 * t,
                f > 500 * t,
        ;
    }
}

/// A duration with two decimal places is a number, a point and two digits, which
/// together write the nearest hundredths of a second.
pub proof fn hundredths_are_written_out(ms: nat)
    requires
        ms <= 0x4000_0000_0000,
    ensures
        ({
            let s = hundredths_text(ms);
            let n = s.len() as int;
            let h = 100 * value_of(s.subrange(0, n - 3)) + 10 * (s[n - 2] as int - 48) + (
            s[n - 1] as int - 48);
            &&& n >= 4
            &&& s[n - 3] == '.'
            &&& 48 <= s[n - 2] as int <= 57
            &&& 48 <= s[n - 1] as int <= 57
            &&& -5 <= 10 * h - ms <= 5
        }),
{
    let h = units(ms, 100);
    let s = hundredths_text(ms);
    durations_are_rounded_to_the_nearest(ms, 100);
    decimal_writes_its_number(h / 100);
    assert(s.subrange(0, s.len() - 3) =~= decimal(h / 100));
}

/// A duration with one decimal place is a number, a point and a digit, which
/// together write the nearest tenths of a second.
pub proof fn tenths_are_written_out(ms: nat)
    requires
        ms <= 0x4000_0000_0000,
    ensures
        ({
            let s = tenths_text(ms);
            let n = s.len() as int;
            let h = 10 * value_of(s.subrange(0, n - 2)) + (s[n - 1] as int - 48);
            &&& n >= 3
            &&& s[n - 2] == '.'
            &&& 48 <= s[n - 1] as int <= 57
            &&& -50 <= 100 * h - ms <= 50
        }),
{
    let h = units(ms, 10);
    let s = tenths_text(ms);
    durations_are_rounded_to_the_nearest(ms, 10);
    decimal_writes_its_number(h / 10);
    assert(s.subrange(0, s.len() - 2) =~= decimal(h / 10));
}

/// A duration without decimal places is the nearest number of seconds.
pub proof fn whole_seconds_are_written_out(ms: nat)
    requires
        ms <= 0x4000_0000_0000,
    ensures
        -500 <= 1000 * value_of(whole_text(ms)) - ms <= 500,
{
    durations_are_rounded_to_the_nearest(ms, 1);
    decimal_writes_its_number(units(ms, 1));
}

/// The clock gives the milliseconds since the epoch, as far as 64 bits can hold
/// them, and nothing where it stands before the epoch.
pub proof fn the_clock_counts_from_the_epoch(ms: u128)
    ensures
        ms < 0x1_0000_0000_0000_0000 ==> clock_reading(Some(ms)) is Ok && clock_reading(
            Some(ms),
        )->Ok_0 == ms,
        ms >= 0x1_0000_0000_0000_0000 ==> clock_reading(Some(ms)) is Ok && clock_reading(
            Some(ms),
        )->Ok_0 == 0xffff_ffff_ffff_ffff,
        clock_reading(None) is Err,
{
}

/// Rounding gives the integer that is nearest to the quotient; of two that are
/// equally near, the even one.
pub proof fn rounding_goes_to_the_even_neighbour(p: nat, q: nat)
    requires
        q > 0,
    ensures
        2 * (round_even(p, q) * q) <= 2 * p + q,
        2 * p <= 2 * (round_even(p, q) * q) + q,
        2 * (round_even(p, q) * q) == 2 * p + q || 2 * p == 2 * (round_even(p, q) * q) + q
            ==> round_even(p, q) % 2 == 0,
{
    lemma_round_even(p, q);
    let d = p / q;
    assert(p == d * q + p % q) by (nonlinear_arith)
        requires
            d == p / q,
            q > 0,
    ;
    assert((d + 1) * q == d * q + q) by (nonlinear_arith);
}

/// Whether a number is a power of two.
pub open spec fn is_power_of_two(c: nat) -> bool {
    exists|k: nat| c == #[trigger] vstd::arithmetic::power2::pow2(k)
}

proof fn lemma_powers_double(c: nat)
    requires
        is_power_of_two(c),
    ensures
        is_power_of_two(2 * c),
{
    let k = choose|k: nat| c == #[trigger] vstd::arithmetic::power2::pow2(k);
    vstd::arithmetic::power2::lemma_pow2_unfold(k + 1);
    assert(2 * c == vstd::arithmetic::power2::pow2(k + 1));
}

proof fn lemma_one_is_a_power()
    ensures
        is_power_of_two(1),
{
    vstd::arithmetic::power2::lemma2_to64();
    assert(1 == vstd::arithmetic::power2::pow2(0));
}

/// A quotient is made coarser by powers of two until it fits in 53 bits, and no
/// further.
pub proof fn quotients_are_made_to_fit(p: nat, q: nat)
    requires
        q > 0,
    ensures
        is_power_of_two(coarse(p, q)),
        p < 0x20_0000_0000_0000 * (q * coarse(p, q)),
        coarse(p, q) > 1 ==> p >= 0x10_0000_0000_0000 * (q * coarse(p, q)),
        p < 0x20_0000_0000_0000 * q ==> coarse(p, q) == 1,
    decreases p - q,
{
    lemma_one_is_a_power();
    if p < 0x20_0000_0000_0000 * q {
        assert(q * 1 == q);
    } else {
        quotients_are_made_to_fit(p, 2 * q);
        let c = coarse(p, 2 * q);
        lemma_powers_double(c);
        assert(q * (2 * c) == (2 * q) * c) by (nonlinear_arith);
        if c == 1 {
            assert((2 * q) * 1 == 2 * q);
        }
    }
}

/// A quotient is made finer by powers of two until it has 53 bits, and no further.
pub proof fn quotients_are_made_exact(p: nat, q: nat)
    requires
        q > 0,
        p > 0,
    ensures
        is_power_of_two(fine(p, q)),
        p * fine(p, q) >= 0x10_0000_0000_0000 * q,
        fine(p, q) > 1 ==> p * fine(p, q) < 0x20_0000_0000_0000 * q,
        p >= 0x10_0000_0000_0000 * q ==> fine(p, q) == 1,
    decreases
        if p < 0x10_0000_0000_0000 * q {
            0x10_0000_0000_0000 * q - p
        } else {
            0
        },
{
    lemma_one_is_a_power();
    if p >= 0x10_0000_0000_0000 * q {
        assert(p * 1 == p);
    } else {
        quotients_are_made_exact(2 * p, q);
        let f = fine(2 * p, q);
        lemma_powers_double(f);
        assert(p * (2 * f) == (2 * p) * f) by (nonlinear_arith);
        if f == 1 {
            assert((2 * p) * 1 == 2 * p);
        }
    }
}

/// A duration of any length is taken to 53 bits, divided by 1000 to 53 bits, and
/// rounded to its unit, each to the nearest. One that has 53 bits is taken as it
/// is.
pub proof fn durations_are_divided_in_53_bits(ms: nat, t: nat)
    ensures
        ms < 0x20_0000_0000_0000 ==> nearest(ms) == ms,
        ({
            let c = coarse(ms, 1);
            nearest(ms) == round_even(ms, c) * c
        }),
        ({
            let x = nearest(ms);
            let c = coarse(x, 1000);
            let f = fine(x, 1000);
            units(ms, t) == round_even(round_even(x * f, 1000 * c) * c * t, f)
        }),
{
    quotients_are_made_to_fit(ms, 1);
    if ms < 0x20_0000_0000_0000 {
        assert(coarse(ms, 1) == 1);
        let r = round_even(ms, 1);
        rounding_goes_to_the_even_neighbour(ms, 1);
        assert(r * 1 == r);
    }
}

} // verus!
