//! Numbers in double precision and their arithmetic.

use vstd::arithmetic::power2::pow2;
use vstd::prelude::*;

#[allow(unused_imports)]
use crate::rounding::{
    difference, distance, excess_bits, lemma_difference_absorbs, lemma_excess_bits,
    lemma_excess_bits_unique, lemma_mantissa_powers, lemma_multiple_of_step,
    lemma_nothing_is_nearer, lemma_product_at_most, lemma_product_powers, lemma_rounded_at_most,
    lemma_rounded_form, lemma_rounded_scaled,
    lemma_rounded_split, lemma_sum_absorbs, lemma_whole_between, one, product,
    quotient, rounded, sum, whole,
};
use crate::rounding::{MANTISSA_END, MANTISSA_TOP, UNIT_BITS};

verus! {

/// A number in double precision that is not negative: `mant` times 2 to the power of `shift`, in
/// units.
#[derive(Clone, Copy, Debug, PartialEq, Eq, Structural)]
pub struct Double {
    pub mant: u64,
    pub shift: u32,
}

/// The number that consists of so many units.
pub open spec fn double_of(units: nat) -> Double {
    let bits = excess_bits(units);
    Double { mant: (units / pow2(bits)) as u64, shift: bits as u32 }
}

impl Double {
    /// The number, in units.
    pub open spec fn units(self) -> nat {
        self.mant as nat * pow2(self.shift as nat)
    }

    /// There is only one way to write each number: with as many bits in front as there are.
    pub open spec fn wf(self) -> bool {
        &&& self.mant < MANTISSA_END
        &&& self.shift == 0 || self.mant >= MANTISSA_TOP
    }
}

/// A number as a whole one, rounded down, and cut off at the greatest that there is.
pub open spec fn rounded_down(units: nat) -> u64 {
    let n = units / one();
    if n > u64::MAX {
        u64::MAX
    } else {
        n as u64
    }
}

/// A number as the nearest whole one, halves up, and cut off at the greatest that there is.
pub open spec fn rounded_half_up(units: nat) -> u64 {
    let n = (2 * units + one()) / (2 * one());
    if n > u64::MAX {
        u64::MAX
    } else {
        n as u64
    }
}

/// A number that can be written can be written in one way only.
pub proof fn lemma_double_of_units(d: Double)
    requires
        d.wf(),
    ensures
        double_of(d.units()) == d,
        excess_bits(d.units()) == d.shift,
{
    lemma_mantissa_powers();
    let power = pow2(d.shift as nat);
    let mant = d.mant as nat;
    vstd::arithmetic::power2::lemma_pow2_pos(d.shift as nat);
    vstd::arithmetic::power2::lemma_pow2_adds(53, d.shift as nat);
    vstd::arithmetic::power2::lemma_pow2_adds(52, d.shift as nat);
    assert(mant * power < pow2(53) * power) by (nonlinear_arith)
        requires
            mant < pow2(53),
            power > 0,
    ;
    if d.shift > 0 {
        assert(pow2(52) * power <= mant * power) by (nonlinear_arith)
            requires
                pow2(52) <= mant,
                power > 0,
        ;
    }
    lemma_excess_bits_unique(d.units(), d.shift as nat);
    vstd::arithmetic::div_mod::lemma_fundamental_div_mod_converse(
        d.units() as int,
        power as int,
        mant as int,
        0,
    );
}

/// What rounding gives can be written, as long as it is not far too great.
pub proof fn lemma_double_of_rounded(x: nat, den: nat, limit: nat)
    requires
        den > 0,
        rounded(x, den) <= pow2(limit),
        limit <= 10_000,
    ensures
        double_of(rounded(x, den)).wf(),
        double_of(rounded(x, den)).units() == rounded(x, den),
{
    let units = rounded(x, den);
    let form = lemma_rounded_form(x, den);
    let n = lemma_multiple_of_step(units, form.0, form.1);
    let bits = excess_bits(units);
    let power = pow2(bits);
    lemma_mantissa_powers();
    lemma_excess_bits(units);
    vstd::arithmetic::power2::lemma_pow2_pos(bits);
    vstd::arithmetic::power2::lemma_pow2_adds(53, bits);
    vstd::arithmetic::power2::lemma_pow2_adds(52, bits);
    vstd::arithmetic::div_mod::lemma_fundamental_div_mod_converse(
        units as int,
        power as int,
        n as int,
        0,
    );
    assert(n < pow2(53)) by (nonlinear_arith)
        requires
            n * power < pow2(53) * power,
    ;
    if bits > 0 {
        assert(n >= pow2(52)) by (nonlinear_arith)
            requires
                n * power >= pow2(52) * power,
                power > 0,
        ;
        if limit < 52 + bits {
            vstd::arithmetic::power2::lemma_pow2_strictly_increases(limit, 52 + bits);
        }
    }
}

/// No number that double precision has is nearer than the one that rounding gives.
pub proof fn law_nothing_is_nearer(x: nat, den: nat, other: Double)
    requires
        den > 0,
        other.wf(),
    ensures
        distance(rounded(x, den) * den, x) <= distance(other.units() * den, x),
{
    lemma_nothing_is_nearer(x, den, other.mant as nat, other.shift as nat);
}

/// Of two numbers, the one whose bits reach farther is greater.
pub proof fn lemma_order(a: Double, b: Double)
    requires
        a.wf(),
        b.wf(),
    ensures
        a.units() <= b.units() <==> a.shift < b.shift || (a.shift == b.shift && a.mant <= b.mant),
{
    if a.shift < b.shift {
        lemma_lower_shift(a, b);
    } else if b.shift < a.shift {
        lemma_lower_shift(b, a);
    } else {
        let power = pow2(a.shift as nat);
        let m = a.mant as nat;
        let n = b.mant as nat;
        vstd::arithmetic::power2::lemma_pow2_pos(a.shift as nat);
        assert(m * power <= n * power <==> m <= n) by (nonlinear_arith)
            requires
                power > 0,
        ;
    }
}

proof fn lemma_lower_shift(a: Double, b: Double)
    requires
        a.wf(),
        b.wf(),
        a.shift < b.shift,
    ensures
        a.units() < b.units(),
{
    lemma_mantissa_powers();
    let low = a.shift as nat;
    let high = b.shift as nat;
    let m = a.mant as nat;
    let n = b.mant as nat;
    vstd::arithmetic::power2::lemma_pow2_pos(low);
    vstd::arithmetic::power2::lemma_pow2_adds(53, low);
    vstd::arithmetic::power2::lemma_pow2_adds(52, high);
    assert(m * pow2(low) < pow2(53) * pow2(low)) by (nonlinear_arith)
        requires
            m < pow2(53),
            pow2(low) > 0,
    ;
    assert(n * pow2(high) >= pow2(52) * pow2(high)) by (nonlinear_arith)
        requires
            n >= pow2(52),
    ;
    if 53 + low < 52 + high {
        vstd::arithmetic::power2::lemma_pow2_strictly_increases(53 + low, 52 + high);
    }
}

/// Which numbers are at most one.
pub proof fn lemma_at_most_one(d: Double)
    requires
        d.wf(),
    ensures
        d.units() <= one() <==> d.shift < 1_022 || (d.shift == 1_022 && d.mant == MANTISSA_TOP),
{
    lemma_one_units();
    lemma_order(d, number_one());
}

/// The number one.
pub open spec fn number_one() -> Double {
    Double { mant: MANTISSA_TOP, shift: 1_022 }
}

pub proof fn lemma_one_units()
    ensures
        number_one().wf(),
        number_one().units() == one(),
{
    lemma_mantissa_powers();
    vstd::arithmetic::power2::lemma_pow2_adds(52, 1_022);
}

/// 2 to the 128th, beyond the widest of the whole numbers.
pub proof fn lemma_wide_power()
    ensures
        pow2(128) == u128::MAX + 1,
{
    vstd::arithmetic::power2::lemma2_to64();
    vstd::arithmetic::power2::lemma_pow2_adds(64, 64);
    assert(0x1_0000_0000_0000_0000 * 0x1_0000_0000_0000_0000 == u128::MAX + 1);
}

/// A whole number can be written in double precision.
pub proof fn lemma_whole_can_be_written(n: nat)
    requires
        n <= u128::MAX,
    ensures
        double_of(whole(n)).wf(),
        double_of(whole(n)).units() == whole(n),
        whole(n) <= pow2(128) * one(),
        whole(n) <= pow2(129) * one(),
{
    lemma_wide_power();
    vstd::arithmetic::power2::lemma_pow2_adds(129, UNIT_BITS as nat);
    lemma_whole_between(n, 0, 129);
    lemma_whole_between(n, 0, 128);
    vstd::arithmetic::power2::lemma_pow2_unfold(129);
    lemma_double_of_rounded(n * one(), 1, 129 + UNIT_BITS as nat);
}

/// A number that is not beyond a power of two has its first bit below the bit of that.
pub proof fn lemma_shift_at_most(d: Double, e: nat)
    requires
        d.wf(),
        d.units() <= pow2(e) * one(),
    ensures
        d.shift <= e + 1_022,
{
    lemma_mantissa_powers();
    let shift = d.shift as nat;
    let mant = d.mant as nat;
    vstd::arithmetic::power2::lemma_pow2_adds(e, UNIT_BITS as nat);
    vstd::arithmetic::power2::lemma_pow2_adds(52, shift);
    if shift > e + 1_022 {
        assert(mant * pow2(shift) >= pow2(52) * pow2(shift)) by (nonlinear_arith)
            requires
                mant >= pow2(52),
        ;
        vstd::arithmetic::power2::lemma_pow2_strictly_increases(e + UNIT_BITS as nat, 52 + shift);
    }
}

proof fn lemma_exponent_bound(x: nat, q: nat, t: nat, den: nat, r: nat, limit: nat)
    requires
        den > 0,
        x == q * (pow2(t) * den) + r,
        x < pow2(limit) * den,
        q > 0,
    ensures
        t < limit,
{
    let power = pow2(t);
    let end = pow2(limit);
    assert(power < end) by (nonlinear_arith)
        requires
            q >= 1,
            den > 0,
            q * (power * den) < end * den,
    ;
    if limit < t {
        vstd::arithmetic::power2::lemma_pow2_strictly_increases(limit, t);
    }
}

/// One more bit of `q` goes over to the rest.
pub proof fn lemma_drop_bit(x: nat, q: nat, t: nat, den: nat, r: nat)
    requires
        x == q * (pow2(t) * den) + r,
        r < pow2(t) * den,
    ensures
        ({
            let next = (q % 2) * (pow2(t) * den) + r;
            &&& x == (q / 2) * (pow2(t + 1) * den) + next
            &&& next < pow2(t + 1) * den
            &&& next == 0 <==> r == 0 && q % 2 == 0
            &&& 2 * next == pow2(t + 1) * den <==> r == 0 && q % 2 == 1
            &&& 2 * next > pow2(t + 1) * den <==> r > 0 && q % 2 == 1
        }),
{
    let power = pow2(t) * den;
    let bit = q % 2;
    vstd::arithmetic::power2::lemma_pow2_unfold(t + 1);
    assert(pow2(t + 1) * den == 2 * power) by (nonlinear_arith)
        requires
            pow2(t + 1) == 2 * pow2(t),
            power == pow2(t) * den,
    ;
    assert(x == (q / 2) * (2 * power) + (bit * power + r)) by (nonlinear_arith)
        requires
            x == q * power + r,
            q == 2 * (q / 2) + bit,
    ;
    if bit == 0 {
        assert(bit * power == 0);
    } else {
        assert(bit * power == power);
    }
}

/// One more bit is put at the end of `q`.
pub proof fn lemma_add_bit(x: nat, q: nat, t: nat, den: nat)
    requires
        x == q * (pow2(t) * den),
        t > 0,
    ensures
        x == (2 * q) * (pow2((t - 1) as nat) * den),
{
    let power = pow2((t - 1) as nat);
    vstd::arithmetic::power2::lemma_pow2_unfold(t);
    assert(q * ((2 * power) * den) == (2 * q) * (power * den)) by (nonlinear_arith);
}

/// The number that is nearest to `m` times 2 to the power of `s`, and a rest of less than that power,
/// divided by [`one`]. The rest is a fraction with the denominator `den`, and all that matters of it
/// is whether there is any.
fn normalised(
    m: u128,
    s: u32,
    inexact: bool,
    Ghost(den): Ghost<nat>,
    Ghost(rest): Ghost<nat>,
) -> (d: Double)
    requires
        s <= 10_000,
        den > 0,
        rest < pow2(s as nat) * den,
        inexact == (rest > 0),
        inexact ==> m >= MANTISSA_END || s < UNIT_BITS,
    ensures
        d.wf(),
        d.units() == rounded(m as nat * (pow2(s as nat) * den) + rest, one() * den),
{
    let ghost x = m as nat * (pow2(s as nat) * den) + rest;
    let mut q: u128 = m;
    let mut t: u32 = s;
    // How what has been dropped so far compares to nothing, and to half of the last bit of `q`.
    let mut zero: bool = !inexact;
    let mut half: bool = false;
    let mut above: bool = false;
    let ghost mut r: nat = rest;
    proof {
        lemma_mantissa_powers();
        lemma_scaled_width(x, m as nat, s as nat, den, rest);
    }
    while t < UNIT_BITS || q >= MANTISSA_END as u128
        invariant
            s <= 10_000,
            den > 0,
            x < pow2(128 + s as nat) * den,
            x == q * (pow2(t as nat) * den) + r,
            r < pow2(t as nat) * den,
            zero == (r == 0),
            t == s && inexact || {
                &&& half == (2 * r == pow2(t as nat) * den)
                &&& above == (2 * r > pow2(t as nat) * den)
            },
            t == s && inexact ==> q == m,
            inexact ==> m >= MANTISSA_END || s < UNIT_BITS,
            r == 0 || t <= UNIT_BITS || q >= MANTISSA_TOP,
            t <= 10_128,
            t >= s,
        decreases
                if t < UNIT_BITS {
                    UNIT_BITS - t
                } else {
                    0
                },
            q,
    {
        proof {
            lemma_drop_bit(x, q as nat, t as nat, den, r);
            if t >= UNIT_BITS {
                lemma_exponent_bound(x, q as nat, t as nat, den, r, 128 + s as nat);
            }
            r = (q as nat % 2) * (pow2(t as nat) * den) + r;
        }
        let odd: bool = q % 2 == 1;
        half = odd && zero;
        above = odd && !zero;
        zero = zero && !odd;
        q = q / 2;
        t = t + 1;
    }
    while q < MANTISSA_TOP as u128 && t > UNIT_BITS
        invariant
            den > 0,
            t >= UNIT_BITS,
            q < MANTISSA_END,
            x == q * (pow2(t as nat) * den) + r,
            r < pow2(t as nat) * den,
            half == (2 * r == pow2(t as nat) * den),
            above == (2 * r > pow2(t as nat) * den),
            r == 0 || t <= UNIT_BITS || q >= MANTISSA_TOP,
        decreases t,
    {
        proof {
            lemma_add_bit(x, q as nat, t as nat, den);
            lemma_step_positive((t - 1) as nat, den);
            lemma_step_positive(t as nat, den);
        }
        q = 2 * q;
        t = t - 1;
    }
    let bits: u32 = t - UNIT_BITS;
    let up: bool = above || (half && q % 2 == 1);
    proof {
        let step = pow2(bits as nat) * (one() * den);
        vstd::arithmetic::power2::lemma_pow2_adds(bits as nat, UNIT_BITS as nat);
        assert(step == pow2(t as nat) * den) by (nonlinear_arith)
            requires
                step == pow2(bits as nat) * (one() * den),
                pow2(t as nat) == pow2(bits as nat) * one(),
        ;
        lemma_step_positive(UNIT_BITS as nat, den);
        lemma_rounded_split(x, one() * den, bits as nat, q as nat, r);
    }
    let mant: u64 = if up {
        q as u64 + 1
    } else {
        q as u64
    };
    if mant == MANTISSA_END {
        proof {
            vstd::arithmetic::power2::lemma_pow2_unfold(bits as nat + 1);
            let power = pow2(bits as nat);
            assert(0x10_0000_0000_0000 * (2 * power) == 0x20_0000_0000_0000 * power);
        }
        Double { mant: MANTISSA_TOP, shift: bits + 1 }
    } else {
        Double { mant, shift: bits }
    }
}

proof fn lemma_step_positive(t: nat, den: nat)
    requires
        den > 0,
    ensures
        pow2(t) * den > 0,
{
    vstd::arithmetic::power2::lemma_pow2_pos(t);
    assert(pow2(t) * den > 0) by (nonlinear_arith)
        requires
            pow2(t) > 0,
            den > 0,
    ;
}

proof fn lemma_scaled_width(x: nat, m: nat, s: nat, den: nat, rest: nat)
    requires
        den > 0,
        m < 0x1_0000_0000_0000_0000 * 0x1_0000_0000_0000_0000,
        x == m * (pow2(s) * den) + rest,
        rest < pow2(s) * den,
    ensures
        x < pow2(128 + s) * den,
{
    vstd::arithmetic::power2::lemma2_to64();
    vstd::arithmetic::power2::lemma_pow2_adds(64, 64);
    vstd::arithmetic::power2::lemma_pow2_adds(128, s);
    let step = pow2(s) * den;
    assert(x < pow2(128) * step) by (nonlinear_arith)
        requires
            x == m * step + rest,
            rest < step,
            m + 1 <= pow2(128),
    ;
    assert(pow2(128) * step == (pow2(128) * pow2(s)) * den) by (nonlinear_arith)
        requires
            step == pow2(s) * den,
    ;
}

/// The number that is nearest to `m` times 2 to the power of `s` units.
fn scaled(m: u128, s: u32) -> (d: Double)
    requires
        s <= 8_000,
    ensures
        d.wf(),
        d.units() == rounded(m as nat * pow2(s as nat), 1),
{
    proof {
        let x = m as nat * pow2(s as nat);
        vstd::arithmetic::power2::lemma_pow2_pos(UNIT_BITS as nat);
        vstd::arithmetic::power2::lemma_pow2_pos(s as nat + UNIT_BITS as nat);
        vstd::arithmetic::power2::lemma_pow2_adds(s as nat, UNIT_BITS as nat);
        lemma_rounded_scaled(x, 1, one());
        assert(x * one() == m as nat * (pow2(s as nat) * one())) by (nonlinear_arith)
            requires
                x == m as nat * pow2(s as nat),
        ;
    }
    normalised(m, s + UNIT_BITS, false, Ghost(1), Ghost(0))
}

/// `m` times 2 to the power of `gap`.
fn widened(m: u64, gap: u32) -> (wide: u128)
    requires
        m < MANTISSA_END,
        gap <= 64,
    ensures
        wide == m as nat * pow2(gap as nat),
        wide < 0x20_0000_0000_0000_0000_0000_0000_0000,
{
    let mut wide: u128 = m as u128;
    let mut done: u32 = 0;
    proof {
        lemma_mantissa_powers();
        assert(m as nat * 1 == m);
    }
    while done < gap
        invariant
            m < MANTISSA_END,
            done <= gap <= 64,
            wide == m as nat * pow2(done as nat),
            wide < pow2(53 + done as nat),
        decreases gap - done,
    {
        proof {
            let power = pow2(done as nat);
            vstd::arithmetic::power2::lemma_pow2_unfold(done as nat + 1);
            vstd::arithmetic::power2::lemma_pow2_unfold(54 + done as nat);
            assert(m as nat * (2 * power) == 2 * (m as nat * power)) by (nonlinear_arith);
            lemma_width_limit(53 + done as nat);
        }
        wide = 2 * wide;
        done = done + 1;
    }
    proof {
        lemma_width_limit(53 + done as nat);
    }
    wide
}

proof fn lemma_width_limit(bits: nat)
    requires
        bits <= 117,
    ensures
        pow2(bits) <= 0x20_0000_0000_0000_0000_0000_0000_0000,
{
    vstd::arithmetic::power2::lemma2_to64();
    vstd::arithmetic::power2::lemma2_to64_rest();
    vstd::arithmetic::power2::lemma_pow2_adds(53, 64);
    assert(pow2(117) == 0x20_0000_0000_0000 * 0x1_0000_0000_0000_0000);
    if bits < 117 {
        vstd::arithmetic::power2::lemma_pow2_strictly_increases(bits, 117);
    }
}

proof fn lemma_far_less(hi: Double, lo: Double)
    requires
        hi.wf(),
        lo.wf(),
        hi.shift > lo.shift + 64,
    ensures
        4 * lo.units() < pow2(hi.shift as nat),
{
    lemma_mantissa_powers();
    let low = lo.shift as nat;
    let mant = lo.mant as nat;
    vstd::arithmetic::power2::lemma_pow2_adds(53, low);
    vstd::arithmetic::power2::lemma_pow2_unfold(54 + low);
    vstd::arithmetic::power2::lemma_pow2_unfold(55 + low);
    vstd::arithmetic::power2::lemma_pow2_strictly_increases(55 + low, hi.shift as nat);
    assert(mant * pow2(low) <= pow2(53) * pow2(low)) by (nonlinear_arith)
        requires
            mant <= pow2(53),
    ;
}

proof fn lemma_aligned(m: nat, gap: nat, low: nat)
    ensures
        (m * pow2(gap)) * pow2(low) == m * pow2(gap + low),
{
    vstd::arithmetic::power2::lemma_pow2_adds(gap, low);
    assert((m * pow2(gap)) * pow2(low) == m * (pow2(gap) * pow2(low))) by (nonlinear_arith);
}

/// What a long division comes to: the quotient has enough bits to be rounded, and together with the
/// rest it is the fraction that has to be.
proof fn lemma_division_fits(a: Double, b: Double, wide: nat, m: nat, rest: nat, s: nat)
    requires
        a.wf(),
        b.wf(),
        b.mant >= MANTISSA_TOP,
        1_022 <= b.shift <= 2_000,
        wide == a.mant as nat * pow2(64),
        m == wide / b.mant as nat,
        rest == wide % b.mant as nat,
        s == a.shift + 2_084 - b.shift,
    ensures
        rest * pow2(s) < pow2(s) * b.mant as nat,
        (rest * pow2(s) > 0) == (rest > 0),
        rest > 0 ==> m >= MANTISSA_END || s < UNIT_BITS,
        rounded(m * (pow2(s) * b.mant as nat) + rest * pow2(s), one() * b.mant as nat) == quotient(
            a.units(),
            b.units(),
        ),
{
    let den = b.mant as nat;
    let mant = a.mant as nat;
    let power = pow2(s);
    let low = pow2(b.shift as nat);
    let high = pow2(a.shift as nat);
    vstd::arithmetic::power2::lemma_pow2_pos(s);
    vstd::arithmetic::power2::lemma_pow2_pos(b.shift as nat);
    vstd::arithmetic::power2::lemma_pow2_pos(UNIT_BITS as nat);
    vstd::arithmetic::div_mod::lemma_fundamental_div_mod(wide as int, den as int);
    vstd::arithmetic::div_mod::lemma_mod_bound(wide as int, den as int);
    assert(rest * power < power * den) by (nonlinear_arith)
        requires
            rest < den,
            power > 0,
    ;
    assert((rest * power > 0) == (rest > 0)) by (nonlinear_arith)
        requires
            power > 0,
    ;
    if a.mant >= MANTISSA_TOP {
        vstd::arithmetic::power2::lemma2_to64();
        assert(m >= MANTISSA_END) by (nonlinear_arith)
            requires
                wide == den * m + rest,
                rest < den,
                den < 0x20_0000_0000_0000,
                wide >= 0x10_0000_0000_0000 * 0x1_0000_0000_0000_0000,
                MANTISSA_END == 0x20_0000_0000_0000,
        ;
    }
    let x = m * (power * den) + rest * power;
    assert(x == wide * power) by (nonlinear_arith)
        requires
            x == m * (power * den) + rest * power,
            wide == den * m + rest,
    ;
    // Both fractions, brought to the same denominator.
    vstd::arithmetic::power2::lemma_pow2_adds(64, s);
    vstd::arithmetic::power2::lemma_pow2_adds(64 + s, b.shift as nat);
    vstd::arithmetic::power2::lemma_pow2_adds(a.shift as nat, UNIT_BITS as nat);
    vstd::arithmetic::power2::lemma_pow2_adds(a.shift as nat + UNIT_BITS as nat, UNIT_BITS as nat);
    let both = mant * pow2((a.shift + 2 * UNIT_BITS) as nat);
    assert(x * low == both) by (nonlinear_arith)
        requires
            x == (mant * pow2(64)) * power,
            pow2(64 + s) == pow2(64) * power,
            pow2((a.shift + 2 * UNIT_BITS) as nat) == pow2(64 + s) * low,
            both == mant * pow2((a.shift + 2 * UNIT_BITS) as nat),
    ;
    let y = a.units() * one();
    assert(y * one() == both) by (nonlinear_arith)
        requires
            y == (mant * high) * one(),
            pow2((a.shift + UNIT_BITS) as nat) == high * one(),
            pow2((a.shift + 2 * UNIT_BITS) as nat) == pow2((a.shift + UNIT_BITS) as nat) * one(),
            both == mant * pow2((a.shift + 2 * UNIT_BITS) as nat),
    ;
    assert(one() * den > 0) by (nonlinear_arith)
        requires
            one() > 0,
            den > 0,
    ;
    assert(b.units() > 0) by (nonlinear_arith)
        requires
            b.units() == den * low,
            den > 0,
            low > 0,
    ;
    assert((one() * den) * low == b.units() * one()) by (nonlinear_arith)
        requires
            b.units() == den * low,
    ;
    lemma_rounded_scaled(x, one() * den, low);
    lemma_rounded_scaled(y, b.units(), one());
}

proof fn lemma_too_great(d: Double)
    requires
        d.wf(),
        d.shift >= 1_086,
    ensures
        rounded_down(d.units()) == u64::MAX,
        rounded_half_up(d.units()) == u64::MAX,
{
    lemma_mantissa_powers();
    vstd::arithmetic::power2::lemma2_to64();
    vstd::arithmetic::power2::lemma_pow2_pos(UNIT_BITS as nat);
    vstd::arithmetic::power2::lemma_pow2_adds(52, d.shift as nat);
    vstd::arithmetic::power2::lemma_pow2_adds(64, UNIT_BITS as nat);
    let mant = d.mant as nat;
    let power = pow2(d.shift as nat);
    assert(mant * power >= pow2(52) * power) by (nonlinear_arith)
        requires
            mant >= pow2(52),
    ;
    if d.shift > 1_086 {
        vstd::arithmetic::power2::lemma_pow2_strictly_increases(1_138, 52 + d.shift as nat);
    }
    let x = d.units();
    assert(x / one() >= 0x1_0000_0000_0000_0000) by (nonlinear_arith)
        requires
            x >= 0x1_0000_0000_0000_0000 * one(),
            one() > 0,
    ;
    assert((2 * x + one()) / (2 * one()) >= 0x1_0000_0000_0000_0000) by (nonlinear_arith)
        requires
            x >= 0x1_0000_0000_0000_0000 * one(),
            one() > 0,
    ;
}

proof fn lemma_below_the_end(q: nat, gap: nat)
    requires
        q < MANTISSA_END,
        gap <= 11,
    ensures
        q * pow2(gap) < 0x1_0000_0000_0000_0000,
{
    vstd::arithmetic::power2::lemma2_to64();
    if gap < 11 {
        vstd::arithmetic::power2::lemma_pow2_strictly_increases(gap, 11);
    }
    assert(q * pow2(gap) <= q * 0x800) by (nonlinear_arith)
        requires
            pow2(gap) <= 0x800,
    ;
}

/// A number as a whole one, once it is split.
proof fn lemma_whole_parts(x: nat, q: nat, r: nat)
    requires
        x == q * one() + r,
        r < one(),
        q < 0x1_0000_0000_0000_0000,
    ensures
        rounded_down(x) == q,
        q < u64::MAX || 2 * r < one() ==> rounded_half_up(x) == q + (if 2 * r >= one() {
            1int
        } else {
            0
        }),
{
    vstd::arithmetic::div_mod::lemma_fundamental_div_mod_converse(
        x as int,
        one() as int,
        q as int,
        r as int,
    );
    let (next, left) = if 2 * r >= one() {
        (q + 1, 2 * r - one())
    } else {
        (q, (2 * r + one()) as int)
    };
    assert(2 * x + one() == next * (2 * one()) + left) by (nonlinear_arith)
        requires
            x == q * one() + r,
            (next == q + 1 && left == 2 * r - one()) || (next == q && left == 2 * r + one()),
    ;
    vstd::arithmetic::div_mod::lemma_fundamental_div_mod_converse(
        (2 * x + one()) as int,
        (2 * one()) as int,
        next as int,
        left,
    );
}

/// A number that is not beyond a power of two has its last bit well below it.
proof fn lemma_last_bit(d: Double, e: nat)
    requires
        d.wf(),
        d.units() <= pow2(e),
    ensures
        d.shift == 0 || 52 + d.shift <= e,
{
    lemma_mantissa_powers();
    let shift = d.shift as nat;
    let mant = d.mant as nat;
    vstd::arithmetic::power2::lemma_pow2_adds(52, shift);
    if shift > 0 {
        assert(mant * pow2(shift) >= pow2(52) * pow2(shift)) by (nonlinear_arith)
            requires
                mant >= pow2(52),
        ;
        if e < 52 + shift {
            vstd::arithmetic::power2::lemma_pow2_strictly_increases(e, 52 + shift);
        }
    }
}

/// A number ends before the bit after its mantissa.
pub proof fn lemma_first_bit(d: Double)
    requires
        d.wf(),
    ensures
        d.units() <= pow2(53 + d.shift as nat),
{
    lemma_mantissa_powers();
    let mant = d.mant as nat;
    vstd::arithmetic::power2::lemma_pow2_adds(53, d.shift as nat);
    assert(mant * pow2(d.shift as nat) <= pow2(53) * pow2(d.shift as nat)) by (nonlinear_arith)
        requires
            mant <= pow2(53),
    ;
}

proof fn lemma_sum_shift(d: Double, hi: Double, lo: Double)
    requires
        d.wf(),
        hi.wf(),
        lo.wf(),
        lo.shift <= hi.shift,
        d.units() == sum(hi.units(), lo.units()),
    ensures
        d.shift <= hi.shift + 2,
{
    let e = 53 + hi.shift as nat;
    lemma_first_bit(hi);
    lemma_first_bit(lo);
    if lo.shift < hi.shift {
        vstd::arithmetic::power2::lemma_pow2_strictly_increases(53 + lo.shift as nat, e);
    }
    vstd::arithmetic::power2::lemma_pow2_unfold(e + 1);
    lemma_rounded_at_most(hi.units() + lo.units(), 1, 1, e + 1);
    lemma_last_bit(d, e + 1);
}

proof fn lemma_product_shift(d: Double, a: Double, b: Double)
    requires
        d.wf(),
        a.wf(),
        b.units() <= pow2(4) * one(),
        d.units() == product(a.units(), b.units()),
    ensures
        d.shift <= a.shift + 5,
{
    let e = 53 + a.shift as nat;
    lemma_first_bit(a);
    lemma_product_at_most(a.mant as nat, a.shift as nat, b.units(), 4);
    vstd::arithmetic::power2::lemma_pow2_adds(e, 4);
    assert(a.units() * pow2(4) <= pow2(e) * pow2(4)) by (nonlinear_arith)
        requires
            a.units() <= pow2(e),
    ;
    lemma_last_bit(d, e + 4);
}

impl Double {
    /// The number one.
    pub fn one() -> (d: Double)
        ensures
            d == number_one(),
            d.wf(),
            d.units() == one(),
    {
        proof {
            lemma_one_units();
        }
        Double { mant: MANTISSA_TOP, shift: 1_022 }
    }

    /// A whole number.
    pub fn of_whole(n: u128) -> (d: Double)
        ensures
            d == double_of(whole(n as nat)),
            d.wf(),
            d.units() == whole(n as nat),
    {
        let d: Double = scaled(n, UNIT_BITS);
        proof {
            lemma_double_of_units(d);
        }
        d
    }

    /// The product of two numbers.
    pub fn times(self, other: Double) -> (d: Double)
        requires
            self.wf(),
            other.wf(),
            self.shift <= 4_000,
            other.shift <= 4_000,
        ensures
            d.wf(),
            d.units() == product(self.units(), other.units()),
            other.units() <= pow2(4) * one() ==> d.shift <= self.shift + 5,
    {
        proof {
            lemma_product_powers(
                self.mant as nat,
                self.shift as nat,
                other.mant as nat,
                other.shift as nat,
            );
            let a = self.mant as nat;
            let b = other.mant as nat;
            assert(a * b <= MANTISSA_END * MANTISSA_END) by (nonlinear_arith)
                requires
                    a <= MANTISSA_END,
                    b <= MANTISSA_END,
            ;
            assert(MANTISSA_END * MANTISSA_END <= u128::MAX);
            vstd::arithmetic::power2::lemma_pow2_pos(self.shift as nat + other.shift as nat);
        }
        let d: Double = normalised(
            self.mant as u128 * other.mant as u128,
            self.shift + other.shift,
            false,
            Ghost(1),
            Ghost(0),
        );
        proof {
            if other.units() <= pow2(4) * one() {
                lemma_product_shift(d, self, other);
            }
        }
        d
    }

    /// The sum of two numbers.
    pub fn plus(self, other: Double) -> (d: Double)
        requires
            self.wf(),
            other.wf(),
            self.shift <= 4_000,
            other.shift <= 4_000,
        ensures
            d.wf(),
            d.units() == sum(self.units(), other.units()),
            d.shift <= self.shift + 2 || d.shift <= other.shift + 2,
    {
        let (hi, lo): (Double, Double) = if self.shift >= other.shift {
            (self, other)
        } else {
            (other, self)
        };
        let gap: u32 = hi.shift - lo.shift;
        if gap > 64 {
            proof {
                lemma_far_less(hi, lo);
                lemma_sum_absorbs(hi.mant as nat, hi.shift as nat, lo.units());
            }
            hi
        } else {
            let wide: u128 = widened(hi.mant, gap);
            let m: u128 = wide + lo.mant as u128;
            proof {
                lemma_aligned(hi.mant as nat, gap as nat, lo.shift as nat);
                let low = pow2(lo.shift as nat);
                let bottom = lo.mant as nat;
                assert(wide * low + bottom * low == m * low) by (nonlinear_arith)
                    requires
                        m == wide + bottom,
                ;
            }
            let d: Double = scaled(m, lo.shift);
            proof {
                lemma_sum_shift(d, hi, lo);
            }
            d
        }
    }

    /// The difference of two numbers of which the second is not greater.
    pub fn minus(self, other: Double) -> (d: Double)
        requires
            self.wf(),
            other.wf(),
            other.units() <= self.units(),
            self.shift <= 4_000,
        ensures
            d.wf(),
            d.units() == difference(self.units(), other.units()),
            d.shift <= self.shift,
    {
        proof {
            lemma_order(other, self);
        }
        let gap: u32 = self.shift - other.shift;
        if gap > 64 {
            proof {
                lemma_far_less(self, other);
                lemma_difference_absorbs(self.mant as nat, self.shift as nat, other.units());
            }
            self
        } else {
            let wide: u128 = widened(self.mant, gap);
            proof {
                lemma_aligned(self.mant as nat, gap as nat, other.shift as nat);
                let low = pow2(other.shift as nat);
                let bottom = other.mant as nat;
                vstd::arithmetic::power2::lemma_pow2_pos(other.shift as nat);
                assert(bottom <= wide) by (nonlinear_arith)
                    requires
                        bottom * low <= wide * low,
                        low > 0,
                ;
                let m = (wide - bottom) as nat;
                assert(wide * low - bottom * low == m * low) by (nonlinear_arith)
                    requires
                        m == wide - bottom,
                ;
            }
            let d: Double = scaled(wide - other.mant as u128, other.shift);
            proof {
                lemma_rounded_at_most(
                    (self.units() - other.units()) as nat,
                    1,
                    self.mant as nat,
                    self.shift as nat,
                );
                lemma_order(d, self);
            }
            d
        }
    }

    /// The quotient of two numbers of which the second is at least one.
    pub fn over(self, other: Double) -> (d: Double)
        requires
            self.wf(),
            other.wf(),
            one() <= other.units(),
            self.shift <= 4_000,
            other.shift <= 2_000,
        ensures
            d.wf(),
            d.units() == quotient(self.units(), other.units()),
            d.shift <= self.shift,
    {
        proof {
            lemma_one_units();
            lemma_order(number_one(), other);
        }
        let wide: u128 = widened(self.mant, 64);
        let divisor: u128 = other.mant as u128;
        let m: u128 = wide / divisor;
        let rest: u128 = wide % divisor;
        let s: u32 = self.shift + 2_084 - other.shift;
        let ghost power = pow2(s as nat);
        proof {
            lemma_division_fits(self, other, wide as nat, m as nat, rest as nat, s as nat);
        }
        let d: Double = normalised(
            m,
            s,
            rest > 0,
            Ghost(divisor as nat),
            Ghost(rest as nat * power),
        );
        proof {
            let a = self.units();
            let b = other.units();
            assert(a * one() <= a * b) by (nonlinear_arith)
                requires
                    one() <= b,
            ;
            vstd::arithmetic::power2::lemma_pow2_pos(UNIT_BITS as nat);
            lemma_rounded_at_most(a * one(), b, self.mant as nat, self.shift as nat);
            lemma_order(d, self);
        }
        d
    }

    /// The first number is not greater than the second.
    pub fn at_most(self, other: Double) -> (result: bool)
        requires
            self.wf(),
            other.wf(),
        ensures
            result == (self.units() <= other.units()),
    {
        proof {
            lemma_order(self, other);
        }
        self.shift < other.shift || (self.shift == other.shift && self.mant <= other.mant)
    }

    /// The number as a whole one, rounded down, and as the nearest whole one, halves up.
    pub fn to_whole(self) -> (result: (u64, u64))
        requires
            self.wf(),
        ensures
            result.0 == rounded_down(self.units()),
            result.1 == rounded_half_up(self.units()),
    {
        let ghost x = self.units();
        if self.shift >= 1_086 {
            proof {
                lemma_too_great(self);
            }
            return (u64::MAX, u64::MAX);
        }
        let mut q: u128 = self.mant as u128;
        let mut t: u32 = self.shift;
        // What has been dropped is at least half of the last bit of `q`.
        let mut up: bool = false;
        let ghost mut r: nat = 0;
        proof {
            vstd::arithmetic::power2::lemma_pow2_pos(t as nat);
            lemma_mantissa_powers();
        }
        while t < UNIT_BITS
            invariant
                x == q * (pow2(t as nat) * 1) + r,
                r < pow2(t as nat) * 1,
                up == (2 * r >= pow2(t as nat)),
                q < MANTISSA_END,
                t > UNIT_BITS ==> r == 0,
                t < 1_086,
            decreases UNIT_BITS - t,
        {
            proof {
                lemma_drop_bit(x, q as nat, t as nat, 1, r);
                r = (q as nat % 2) * (pow2(t as nat) * 1) + r;
            }
            up = q % 2 == 1;
            q = q / 2;
            t = t + 1;
        }
        proof {
            lemma_below_the_end(self.mant as nat, (t - UNIT_BITS) as nat);
            lemma_below_the_end(q as nat, (t - UNIT_BITS) as nat);
        }
        while t > UNIT_BITS
            invariant
                x == q * (pow2(t as nat) * 1) + r,
                r < pow2(t as nat) * 1,
                t > UNIT_BITS ==> r == 0,
                up == (2 * r >= pow2(t as nat)),
                up ==> q < MANTISSA_END,
                UNIT_BITS <= t < 1_086,
                q * pow2((t - UNIT_BITS) as nat) < 0x1_0000_0000_0000_0000,
            decreases t,
        {
            proof {
                lemma_add_bit(x, q as nat, t as nat, 1);
                vstd::arithmetic::power2::lemma_pow2_pos((t - 1) as nat);
                lemma_add_bit(
                    q as nat * pow2((t - UNIT_BITS) as nat),
                    q as nat,
                    (t - UNIT_BITS) as nat,
                    1,
                );
                let left = (t - 1 - UNIT_BITS) as nat;
                vstd::arithmetic::power2::lemma_pow2_pos(left);
                assert(2 * q <= (2 * q) * pow2(left)) by (nonlinear_arith)
                    requires
                        pow2(left) >= 1,
                ;
            }
            q = 2 * q;
            t = t - 1;
        }
        proof {
            assert(q * pow2(0) == q);
            lemma_whole_parts(x, q as nat, r);
        }
        (q as u64, if up {
            q as u64 + 1
        } else {
            q as u64
        })
    }
}

}
