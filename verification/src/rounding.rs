//! Rounding in double precision.
//!
//! Only numbers that are not negative occur here. Each is a whole number of *units*, where a unit is
//! 2 to the power of -1074: the least number above zero that double precision has. There is no
//! greatest number: nothing that is computed here comes near to where double precision runs out of
//! exponents, but for what is cut off anyway.

use vstd::arithmetic::power2::pow2;
use vstd::prelude::*;

verus! {

/// 2 to the 53rd: the least whole number that has more significant bits than double precision.
pub const MANTISSA_END: u64 = 0x20_0000_0000_0000;

/// 2 to the 52nd.
pub const MANTISSA_TOP: u64 = 0x10_0000_0000_0000;

/// The number one is 2 to this power, in units.
pub const UNIT_BITS: u32 = 1_074;

/// The number one, in units.
pub open spec fn one() -> nat {
    pow2(UNIT_BITS as nat)
}

/// How many of the last bits of `x` have to be dropped to leave no more significant bits than double
/// precision has.
pub open spec fn excess_bits(x: nat) -> nat
    decreases x,
{
    if x < MANTISSA_END {
        0
    } else {
        1 + excess_bits(x / 2)
    }
}

/// `down` and a rest, of a number that has been divided by `step`, as one whole number: the nearest,
/// and the even one where two are equally near.
pub open spec fn nearest_whole(down: nat, rest: nat, step: nat) -> nat {
    if 2 * rest < step || (2 * rest == step && down % 2 == 0) {
        down
    } else {
        down + 1
    }
}

/// The double precision number, in units, that is nearest to `x` divided by `den`. Where two are
/// equally near it is the one with an even last bit.
pub open spec fn rounded(x: nat, den: nat) -> nat {
    let bits = excess_bits(x / den);
    let step = pow2(bits) * den;
    nearest_whole(x / step, x % step, step) * pow2(bits)
}

/// The product of two numbers, in units.
pub open spec fn product(a: nat, b: nat) -> nat {
    rounded(a * b, one())
}

/// The sum of two numbers, in units.
pub open spec fn sum(a: nat, b: nat) -> nat {
    rounded(a + b, 1)
}

/// The difference of two numbers of which the second is not greater, in units.
pub open spec fn difference(a: nat, b: nat) -> nat {
    rounded((a - b) as nat, 1)
}

/// The quotient of two numbers, in units.
pub open spec fn quotient(a: nat, b: nat) -> nat {
    rounded(a * one(), b)
}

/// A whole number, in units.
pub open spec fn whole(n: nat) -> nat {
    rounded(n * one(), 1)
}

/// The two bounds of a mantissa as powers of two.
pub proof fn lemma_mantissa_powers()
    ensures
        pow2(53) == MANTISSA_END,
        pow2(52) == MANTISSA_TOP,
        pow2(0) == 1,
{
    vstd::arithmetic::power2::lemma2_to64();
    vstd::arithmetic::power2::lemma2_to64_rest();
}

/// Which numbers have so many bits too many.
pub proof fn lemma_excess_bits(x: nat)
    ensures
        x < pow2(53 + excess_bits(x)),
        excess_bits(x) > 0 ==> pow2(52 + excess_bits(x)) <= x,
    decreases x,
{
    lemma_mantissa_powers();
    if x >= MANTISSA_END {
        let half = x / 2;
        lemma_excess_bits(half);
        let bits = excess_bits(half);
        vstd::arithmetic::power2::lemma_pow2_unfold(54 + bits);
        vstd::arithmetic::power2::lemma_pow2_unfold(53 + bits);
        assert(excess_bits(x) == bits + 1);
        if bits == 0 {
            assert(pow2(53 + bits) == MANTISSA_END);
        }
    }
}

/// Only one number of bits is as many as have to be dropped.
pub proof fn lemma_excess_bits_unique(x: nat, bits: nat)
    requires
        x < pow2(53 + bits),
        bits > 0 ==> pow2(52 + bits) <= x,
    ensures
        excess_bits(x) == bits,
{
    lemma_excess_bits(x);
    let found = excess_bits(x);
    if found < bits {
        if 53 + found < 52 + bits {
            vstd::arithmetic::power2::lemma_pow2_strictly_increases(53 + found, (52 + bits) as nat);
        }
    } else if found > bits {
        if 53 + bits < 52 + found {
            vstd::arithmetic::power2::lemma_pow2_strictly_increases(53 + bits, (52 + found) as nat);
        }
    }
}

/// What rounding comes to, once a number is split at the place where it has to be rounded.
pub proof fn lemma_rounded_split(x: nat, den: nat, bits: nat, down: nat, rest: nat)
    requires
        den > 0,
        x == down * (pow2(bits) * den) + rest,
        rest < pow2(bits) * den,
        down < MANTISSA_END,
        bits > 0 ==> down >= MANTISSA_TOP,
    ensures
        rounded(x, den) == nearest_whole(down, rest, pow2(bits) * den) * pow2(bits),
{
    lemma_mantissa_powers();
    let power = pow2(bits);
    let step = power * den;
    vstd::arithmetic::power2::lemma_pow2_pos(bits);
    let floor = x / den;
    let part = rest / den;
    let left = rest % den;
    vstd::arithmetic::div_mod::lemma_fundamental_div_mod(rest as int, den as int);
    assert(part < power) by (nonlinear_arith)
        requires
            den > 0,
            rest < power * den,
            rest == den * part + left,
            left >= 0,
    ;
    assert(x == (down * power + part) * den + left) by (nonlinear_arith)
        requires
            x == down * step + rest,
            step == power * den,
            rest == den * part + left,
    ;
    vstd::arithmetic::div_mod::lemma_fundamental_div_mod_converse(
        x as int,
        den as int,
        (down * power + part) as int,
        left as int,
    );
    assert(floor == down * power + part);
    assert(floor < pow2(53 + bits)) by {
        vstd::arithmetic::power2::lemma_pow2_adds(53, bits);
        assert(down * power + part < pow2(53) * power) by (nonlinear_arith)
            requires
                down + 1 <= pow2(53),
                part < power,
        ;
    }
    if bits > 0 {
        vstd::arithmetic::power2::lemma_pow2_adds(52, bits);
        assert(pow2(52) * power <= down * power) by (nonlinear_arith)
            requires
                pow2(52) <= down,
        ;
    }
    lemma_excess_bits_unique(floor, bits);
    vstd::arithmetic::div_mod::lemma_fundamental_div_mod_converse(
        x as int,
        step as int,
        down as int,
        rest as int,
    );
}

/// Rounding a fraction does not depend on how it is written.
pub proof fn lemma_rounded_scaled(x: nat, den: nat, by: nat)
    requires
        den > 0,
        by > 0,
    ensures
        rounded(x * by, den * by) == rounded(x, den),
{
    let bits = excess_bits(x / den);
    let step = pow2(bits) * den;
    let wide = pow2(bits) * (den * by);
    let down = x / step;
    let rest = x % step;
    vstd::arithmetic::power2::lemma_pow2_pos(bits);
    assert(step > 0) by (nonlinear_arith)
        requires
            step == pow2(bits) * den,
            pow2(bits) > 0,
            den > 0,
    ;
    assert(wide == step * by) by (nonlinear_arith)
        requires
            step == pow2(bits) * den,
            wide == pow2(bits) * (den * by),
    ;
    lemma_fraction_scaled(x, den, by);
    lemma_fraction_scaled(x, step, by);
    assert(2 * (rest * by) < step * by <==> 2 * rest < step) by (nonlinear_arith)
        requires
            by > 0,
    ;
    assert(2 * (rest * by) == step * by <==> 2 * rest == step) by (nonlinear_arith)
        requires
            by > 0,
    ;
}

proof fn lemma_fraction_scaled(x: nat, den: nat, by: nat)
    requires
        den > 0,
        by > 0,
    ensures
        (x * by) / (den * by) == x / den,
        (x * by) % (den * by) == (x % den) * by,
{
    let down = x / den;
    let rest = x % den;
    vstd::arithmetic::div_mod::lemma_fundamental_div_mod(x as int, den as int);
    vstd::arithmetic::div_mod::lemma_mod_bound(x as int, den as int);
    assert(x * by == down * (den * by) + rest * by) by (nonlinear_arith)
        requires
            x == den * down + rest,
    ;
    assert(rest * by < den * by) by (nonlinear_arith)
        requires
            rest < den,
            by > 0,
    ;
    vstd::arithmetic::div_mod::lemma_fundamental_div_mod_converse(
        (x * by) as int,
        (den * by) as int,
        down as int,
        (rest * by) as int,
    );
}

/// Powers of two that are multiplied in a product of two numbers.
pub proof fn lemma_product_powers(a: nat, m: nat, b: nat, n: nat)
    ensures
        (a * pow2(m)) * (b * pow2(n)) == (a * b) * pow2(m + n),
{
    vstd::arithmetic::power2::lemma_pow2_adds(m, n);
    let p = pow2(m);
    let q = pow2(n);
    assert((a * p) * (b * q) == (a * b) * (p * q)) by (nonlinear_arith);
}

/// A number with no more significant bits than double precision is its own nearest one.
pub proof fn lemma_rounded_exact(m: nat, k: nat, den: nat)
    requires
        den > 0,
        m < MANTISSA_END,
    ensures
        rounded(m * pow2(k) * den, den) == m * pow2(k),
{
    lemma_rounded_at_most(m * pow2(k) * den, den, m, k);
    lemma_rounded_at_least(m * pow2(k) * den, den, m, k);
}

/// How a number with few significant bits is split where a number below it has to be rounded.
pub proof fn lemma_multiple_of_step(units: nat, m: nat, k: nat) -> (n: nat)
    requires
        units <= m * pow2(k),
        m < MANTISSA_END,
    ensures
        m * pow2(k) == n * pow2(excess_bits(units)),
{
    let bits = excess_bits(units);
    lemma_excess_bits(units);
    lemma_mantissa_powers();
    vstd::arithmetic::power2::lemma_pow2_adds(53, k);
    let power = pow2(k);
    assert(m * power <= pow2(53) * power) by (nonlinear_arith)
        requires
            m <= pow2(53),
    ;
    if bits > k {
        vstd::arithmetic::power2::lemma_pow2_pos(k);
        assert(m * power < pow2(53) * power) by (nonlinear_arith)
            requires
                m < pow2(53),
                power > 0,
        ;
        if 53 + k < 52 + bits {
            vstd::arithmetic::power2::lemma_pow2_strictly_increases(53 + k, (52 + bits) as nat);
        }
        assert(false);
    }
    let gap = (k - bits) as nat;
    vstd::arithmetic::power2::lemma_pow2_adds(gap, bits);
    let n = m * pow2(gap);
    assert(m * (pow2(gap) * pow2(bits)) == n * pow2(bits)) by (nonlinear_arith)
        requires
            n == m * pow2(gap),
    ;
    n
}

/// Rounding does not go beyond a number that double precision has.
pub proof fn lemma_rounded_at_most(x: nat, den: nat, m: nat, k: nat)
    requires
        den > 0,
        m < MANTISSA_END,
        x <= m * pow2(k) * den,
    ensures
        rounded(x, den) <= m * pow2(k),
{
    let top = m * pow2(k);
    let units = x / den;
    lemma_floor_at_most(x, den, top);
    let n = lemma_multiple_of_step(units, m, k);
    let bits = excess_bits(units);
    let power = pow2(bits);
    let step = power * den;
    vstd::arithmetic::power2::lemma_pow2_pos(bits);
    assert(step > 0) by (nonlinear_arith)
        requires
            power > 0,
            den > 0,
            step == power * den,
    ;
    let down = x / step;
    let rest = x % step;
    vstd::arithmetic::div_mod::lemma_fundamental_div_mod(x as int, step as int);
    vstd::arithmetic::div_mod::lemma_mod_bound(x as int, step as int);
    assert(top * den == n * step) by (nonlinear_arith)
        requires
            top == n * power,
            step == power * den,
    ;
    assert(down < n || (down == n && rest == 0)) by (nonlinear_arith)
        requires
            x == step * down + rest,
            x <= n * step,
            0 <= rest < step,
    ;
    let chosen = nearest_whole(down, rest, step);
    assert(chosen <= n);
    assert(chosen * power <= n * power) by (nonlinear_arith)
        requires
            chosen <= n,
    ;
}

/// Rounding does not fall below a number that double precision has.
pub proof fn lemma_rounded_at_least(x: nat, den: nat, m: nat, k: nat)
    requires
        den > 0,
        m < MANTISSA_END,
        x >= m * pow2(k) * den,
    ensures
        rounded(x, den) >= m * pow2(k),
{
    lemma_below_floor(x, den, m, k);
    let power = pow2(excess_bits(x / den));
    let step = power * den;
    let down = x / step;
    let chosen = nearest_whole(down, x % step, step);
    assert(chosen * power >= down * power) by (nonlinear_arith)
        requires
            chosen >= down,
    ;
}

/// What rounding gives has no more significant bits than double precision.
pub proof fn lemma_rounded_form(x: nat, den: nat) -> (form: (nat, nat))
    requires
        den > 0,
    ensures
        form.0 < MANTISSA_END,
        rounded(x, den) == form.0 * pow2(form.1),
{
    let units = x / den;
    let bits = excess_bits(units);
    let power = pow2(bits);
    let step = power * den;
    lemma_excess_bits(units);
    lemma_mantissa_powers();
    vstd::arithmetic::power2::lemma_pow2_pos(bits);
    vstd::arithmetic::power2::lemma_pow2_adds(53, bits);
    assert(step > 0) by (nonlinear_arith)
        requires
            power > 0,
            den > 0,
            step == power * den,
    ;
    let down = x / step;
    let rest = x % step;
    vstd::arithmetic::div_mod::lemma_fundamental_div_mod(x as int, den as int);
    vstd::arithmetic::div_mod::lemma_mod_bound(x as int, den as int);
    vstd::arithmetic::div_mod::lemma_fundamental_div_mod(x as int, step as int);
    vstd::arithmetic::div_mod::lemma_mod_bound(x as int, step as int);
    let end = pow2(53);
    assert(down < end) by (nonlinear_arith)
        requires
            x == den * units + x % den,
            x % den < den,
            units + 1 <= end * power,
            step == power * den,
            x >= step * down,
            step > 0,
    ;
    let chosen = nearest_whole(down, rest, step);
    if chosen == MANTISSA_END {
        vstd::arithmetic::power2::lemma_pow2_unfold(bits + 1);
        (MANTISSA_TOP as nat, bits + 1)
    } else {
        (chosen, bits)
    }
}

/// Rounding moves a number by at most half of its last bit.
pub proof fn lemma_rounded_close(x: nat, den: nat)
    requires
        den > 0,
    ensures
        -(pow2(excess_bits(x / den)) * den) <= 2 * (rounded(x, den) * den - x) <= pow2(
            excess_bits(x / den),
        ) * den,
{
    let bits = excess_bits(x / den);
    let power = pow2(bits);
    let step = power * den;
    vstd::arithmetic::power2::lemma_pow2_pos(bits);
    assert(step > 0) by (nonlinear_arith)
        requires
            power > 0,
            den > 0,
            step == power * den,
    ;
    let down = x / step;
    let rest = x % step;
    vstd::arithmetic::div_mod::lemma_fundamental_div_mod(x as int, step as int);
    vstd::arithmetic::div_mod::lemma_mod_bound(x as int, step as int);
    let chosen = nearest_whole(down, rest, step);
    assert(rounded(x, den) * den == chosen * step) by (nonlinear_arith)
        requires
            rounded(x, den) == chosen * power,
            step == power * den,
    ;
    assert(x == down * step + rest) by (nonlinear_arith)
        requires
            x == step * down + rest,
    ;
    assert((down + 1) * step == down * step + step) by (nonlinear_arith);
}

/// How far apart two whole numbers are.
pub open spec fn distance(a: nat, b: nat) -> nat {
    if a <= b {
        (b - a) as nat
    } else {
        (a - b) as nat
    }
}

/// A greater number is not rounded to a lesser one.
pub proof fn law_rounding_keeps_order(x: nat, y: nat, den: nat)
    requires
        den > 0,
        x <= y,
    ensures
        rounded(x, den) <= rounded(y, den),
{
    let (m, k) = lemma_rounded_form(y, den);
    let (n, l) = lemma_rounded_form(x, den);
    let low = rounded(y, den);
    let high = rounded(x, den);
    if x <= low * den {
        lemma_rounded_at_most(x, den, m, k);
    } else if low < high {
            assert(low * den < high * den) by (nonlinear_arith)
            requires
                low < high,
                den > 0,
        ;
        if high * den <= y {
            lemma_rounded_at_least(y, den, n, l);
        } else {
            // Then both lie just in the middle.
            lemma_nothing_is_nearer(x, den, m, k);
            lemma_nothing_is_nearer(y, den, n, l);
            assert(x == y);
        }
    }
}

/// No number with few significant bits is nearer than the one that rounding gives.
#[verifier::spinoff_prover]
pub proof fn lemma_nothing_is_nearer(x: nat, den: nat, m: nat, k: nat)
    requires
        den > 0,
        m < MANTISSA_END,
    ensures
        distance(rounded(x, den) * den, x) <= distance(m * pow2(k) * den, x),
{
    let units = x / den;
    let bits = excess_bits(units);
    let power = pow2(bits);
    let step = power * den;
    let top = m * pow2(k);
    vstd::arithmetic::power2::lemma_pow2_pos(bits);
    assert(step > 0) by (nonlinear_arith)
        requires
            power > 0,
            den > 0,
            step == power * den,
    ;
    let down = x / step;
    let rest = x % step;
    let chosen = nearest_whole(down, rest, step);
    vstd::arithmetic::div_mod::lemma_fundamental_div_mod(x as int, step as int);
    vstd::arithmetic::div_mod::lemma_mod_bound(x as int, step as int);
    assert(x == down * step + rest) by (nonlinear_arith)
        requires
            x == step * down + rest,
    ;
    assert((down + 1) * step == down * step + step) by (nonlinear_arith);
    assert(rounded(x, den) * den == chosen * step) by (nonlinear_arith)
        requires
            rounded(x, den) == chosen * power,
            step == power * den,
    ;
    if x <= top * den {
        lemma_floor_at_most(x, den, top);
        let n = lemma_multiple_of_step(units, m, k);
        assert(top * den == n * step) by (nonlinear_arith)
            requires
                top == n * power,
                step == power * den,
        ;
        if rest > 0 {
            assert((down + 1) * step <= n * step) by (nonlinear_arith)
                requires
                    down * step < n * step,
                    step > 0,
            ;
        }
    } else {
        assert(top * den <= down * step) by {
            lemma_below_floor(x, den, m, k);
        }
    }
}

proof fn lemma_floor_at_most(x: nat, den: nat, top: nat)
    requires
        den > 0,
        x <= top * den,
    ensures
        x / den <= top,
{
    vstd::arithmetic::div_mod::lemma_fundamental_div_mod(x as int, den as int);
    vstd::arithmetic::div_mod::lemma_mod_bound(x as int, den as int);
    let units = x / den;
    assert(units <= top) by (nonlinear_arith)
        requires
            den > 0,
            den * units <= top * den,
    ;
}

/// A number with few significant bits that is not greater than another is not greater than what is
/// left of that when it is rounded down.
#[verifier::spinoff_prover]
proof fn lemma_below_floor(x: nat, den: nat, m: nat, k: nat)
    requires
        den > 0,
        m < MANTISSA_END,
        m * pow2(k) * den <= x,
    ensures
        ({
            let power = pow2(excess_bits(x / den));
            let step = power * den;
            &&& m * pow2(k) <= (x / step) * power
            &&& m * pow2(k) * den <= (x / step) * step
        }),
{
    let top = m * pow2(k);
    let units = x / den;
    vstd::arithmetic::div_mod::lemma_fundamental_div_mod(x as int, den as int);
    vstd::arithmetic::div_mod::lemma_mod_bound(x as int, den as int);
    let bits = excess_bits(units);
    lemma_excess_bits(units);
    let power = pow2(bits);
    let step = power * den;
    vstd::arithmetic::power2::lemma_pow2_pos(bits);
    assert(step > 0) by (nonlinear_arith)
        requires
            power > 0,
            den > 0,
            step == power * den,
    ;
    let down = x / step;
    let rest = x % step;
    vstd::arithmetic::div_mod::lemma_fundamental_div_mod(x as int, step as int);
    vstd::arithmetic::div_mod::lemma_mod_bound(x as int, step as int);
    if k >= bits {
        let gap = (k - bits) as nat;
        vstd::arithmetic::power2::lemma_pow2_adds(gap, bits);
        let n = m * pow2(gap);
        assert(top == n * power) by (nonlinear_arith)
            requires
                top == m * (pow2(gap) * power),
                n == m * pow2(gap),
        ;
        assert(down >= n) by (nonlinear_arith)
            requires
                x == step * down + rest,
                x >= top * den,
                top == n * power,
                step == power * den,
                0 <= rest < step,
        ;
        assert(down * power >= n * power) by (nonlinear_arith)
            requires
                down >= n,
        ;
    } else {
        // Then the number is less than any that has to be rounded at this place.
        lemma_mantissa_powers();
        vstd::arithmetic::power2::lemma_pow2_adds(53, k);
        vstd::arithmetic::power2::lemma_pow2_adds(52, bits);
        let small = pow2(k);
        assert(top <= pow2(53) * small) by (nonlinear_arith)
            requires
                top == m * small,
                m <= pow2(53),
        ;
        if 53 + k < 52 + bits {
            vstd::arithmetic::power2::lemma_pow2_strictly_increases(53 + k, (52 + bits) as nat);
        }
        let least = pow2(52);
        assert(down >= least) by (nonlinear_arith)
            requires
                x == step * down + rest,
                x >= den * units,
                units >= least * power,
                step == power * den,
                0 <= rest < step,
                den > 0,
        ;
        assert(down * power >= least * power) by (nonlinear_arith)
            requires
                down >= least,
        ;
    }
    assert(top * den <= down * step) by (nonlinear_arith)
        requires
            top <= down * power,
            step == power * den,
    ;
}

/// A whole number in double precision does not lie beyond a power of two that it does not lie
/// beyond.
pub proof fn lemma_whole_between(n: nat, low: nat, high: nat)
    ensures
        n <= pow2(high) ==> whole(n) <= pow2(high) * one(),
        pow2(low) <= n ==> pow2(low) * one() <= whole(n),
{
    if n <= pow2(high) {
        vstd::arithmetic::power2::lemma_pow2_adds(high, UNIT_BITS as nat);
        assert(n * one() <= pow2(high) * one()) by (nonlinear_arith)
            requires
                n <= pow2(high),
        ;
        lemma_rounded_at_most(n * one(), 1, 1, high + UNIT_BITS as nat);
    }
    if pow2(low) <= n {
        vstd::arithmetic::power2::lemma_pow2_adds(low, UNIT_BITS as nat);
        assert(n * one() >= pow2(low) * one()) by (nonlinear_arith)
            requires
                n >= pow2(low),
        ;
        lemma_rounded_at_least(n * one(), 1, 1, low + UNIT_BITS as nat);
    }
}

/// A number that is far less than another does not change it when it is added.
pub proof fn lemma_sum_absorbs(m: nat, k: nat, low: nat)
    requires
        MANTISSA_TOP <= m < MANTISSA_END,
        2 * low < pow2(k),
    ensures
        sum(m * pow2(k), low) == m * pow2(k),
{
    lemma_rounded_split(m * pow2(k) + low, 1, k, m, low);
}

/// Nor does it when it is taken away.
pub proof fn lemma_difference_absorbs(m: nat, k: nat, low: nat)
    requires
        MANTISSA_TOP <= m < MANTISSA_END,
        k > 0,
        4 * low < pow2(k),
    ensures
        low <= m * pow2(k),
        difference(m * pow2(k), low) == m * pow2(k),
{
    let power = pow2(k);
    let high = m * power;
    let half = pow2((k - 1) as nat);
    vstd::arithmetic::power2::lemma_pow2_unfold(k);
    assert(high >= power) by (nonlinear_arith)
        requires
            high == m * power,
            m >= 1,
    ;
    let x = (high - low) as nat;
    if low == 0 {
        assert(high * 1 == high);
        lemma_rounded_exact(m, k, 1);
    } else if m > MANTISSA_TOP {
        let down = (m - 1) as nat;
        let rest = (power - low) as nat;
        assert(x == down * power + rest) by (nonlinear_arith)
            requires
                x == m * power - low,
                down == m - 1,
                rest == power - low,
        ;
        lemma_rounded_split(x, 1, k, down, rest);
    } else {
        let down = (MANTISSA_END - 1) as nat;
        let rest = (half - low) as nat;
        assert(x == down * half + rest) by (nonlinear_arith)
            requires
                x == m * power - low,
                power == 2 * half,
                2 * m == down + 1,
                rest == half - low,
        ;
        lemma_rounded_split(x, 1, (k - 1) as nat, down, rest);
        assert((down + 1) * half == high) by (nonlinear_arith)
            requires
                high == m * power,
                power == 2 * half,
                2 * m == down + 1,
        ;
    }
}

/// How far rounding takes the complement of a number from what is lacking of one.
pub proof fn lemma_complement(units: nat)
    requires
        units <= one(),
    ensures
        difference(one(), units) <= one(),
        units == 0 ==> difference(one(), units) == one(),
        units == one() ==> difference(one(), units) == 0,
        2 * units < pow2(1_021) ==> difference(one(), units) == one(),
        units > 0 ==> -pow2(1_021) <= 2 * (difference(one(), units) - (one() - units)) <= pow2(
            1_021,
        ),
{
    let lack = (one() - units) as nat;
    lemma_mantissa_powers();
    vstd::arithmetic::power2::lemma_pow2_pos(1_021);
    lemma_rounded_at_most(lack, 1, 1, UNIT_BITS as nat);
    if 2 * units < pow2(1_021) {
        vstd::arithmetic::power2::lemma_pow2_unfold(1_022);
        vstd::arithmetic::power2::lemma_pow2_adds(52, 1_022);
        lemma_difference_absorbs(MANTISSA_TOP as nat, 1_022, units);
    }
    if units == one() {
        assert(0 * pow2(0) * 1 == 0);
        lemma_rounded_at_most(lack, 1, 0, 0);
    }
    if units > 0 {
        let bits = excess_bits(lack);
        lemma_rounded_close(lack, 1);
        lemma_excess_bits(lack);
        if bits > 1_021 {
            if 52 + bits > 1_074 {
                vstd::arithmetic::power2::lemma_pow2_strictly_increases(1_074, 52 + bits);
            }
        } else if bits < 1_021 {
            vstd::arithmetic::power2::lemma_pow2_strictly_increases(bits, 1_021);
        }
    }
}

/// A product with at most a power of two is at most that many times the other factor.
pub proof fn lemma_product_at_most(m: nat, k: nat, b: nat, e: nat)
    requires
        m < MANTISSA_END,
        b <= pow2(e) * one(),
    ensures
        product(m * pow2(k), b) <= m * pow2(k) * pow2(e),
{
    let a = m * pow2(k);
    vstd::arithmetic::power2::lemma_pow2_pos(UNIT_BITS as nat);
    vstd::arithmetic::power2::lemma_pow2_adds(k, e);
    assert(m * (pow2(k) * pow2(e)) == a * pow2(e)) by (nonlinear_arith)
        requires
            a == m * pow2(k),
    ;
    assert(a * b <= (a * pow2(e)) * one()) by (nonlinear_arith)
        requires
            b <= pow2(e) * one(),
    ;
    lemma_rounded_at_most(a * b, one(), m, k + e);
}

/// A product with at least a power of two is at least that many times the other factor.
pub proof fn lemma_product_at_least(m: nat, k: nat, b: nat, e: nat)
    requires
        m < MANTISSA_END,
        b >= pow2(e) * one(),
    ensures
        product(m * pow2(k), b) >= m * pow2(k) * pow2(e),
{
    let a = m * pow2(k);
    vstd::arithmetic::power2::lemma_pow2_pos(UNIT_BITS as nat);
    vstd::arithmetic::power2::lemma_pow2_adds(k, e);
    assert(m * (pow2(k) * pow2(e)) == a * pow2(e)) by (nonlinear_arith)
        requires
            a == m * pow2(k),
    ;
    assert(a * b >= (a * pow2(e)) * one()) by (nonlinear_arith)
        requires
            b >= pow2(e) * one(),
    ;
    lemma_rounded_at_least(a * b, one(), m, k + e);
}

/// What goes beyond a power of two by no more than half of its last bit is rounded to it.
pub proof fn lemma_rounded_barely_above(x: nat, e: nat)
    requires
        e >= 53,
        x <= pow2(e) + pow2((e - 53) as nat),
    ensures
        rounded(x, 1) <= pow2(e),
{
    let top = pow2(e);
    if x <= top {
        lemma_rounded_at_most(x, 1, 1, e);
    } else {
        lemma_mantissa_powers();
        let bits = (e - 52) as nat;
        vstd::arithmetic::power2::lemma_pow2_unfold(bits);
        vstd::arithmetic::power2::lemma_pow2_adds(52, bits);
        lemma_rounded_split(x, 1, bits, MANTISSA_TOP as nat, (x - top) as nat);
    }
}

/// Small whole numbers are not rounded at all.
pub proof fn lemma_whole_exact(n: nat)
    requires
        n <= MANTISSA_END,
    ensures
        whole(n) == n * one(),
{
    assert(n * one() * 1 == n * one());
    if n < MANTISSA_END {
        lemma_rounded_exact(n, UNIT_BITS as nat, 1);
    } else {
        lemma_mantissa_powers();
        vstd::arithmetic::power2::lemma_pow2_adds(53, UNIT_BITS as nat);
        assert(1 * pow2(53 + UNIT_BITS as nat) * 1 == n * one());
        lemma_rounded_exact(1, 53 + UNIT_BITS as nat, 1);
    }
}

/// A greater whole number is not a lesser one in double precision.
pub proof fn law_whole_keeps_order(a: nat, b: nat)
    requires
        a <= b,
    ensures
        whole(a) <= whole(b),
{
    assert(a * one() <= b * one()) by (nonlinear_arith)
        requires
            a <= b,
    ;
    law_rounding_keeps_order(a * one(), b * one(), 1);
}

/// What rounding gives is not rounded any further.
pub proof fn law_rounding_settles(x: nat, den: nat)
    requires
        den > 0,
    ensures
        rounded(rounded(x, den), 1) == rounded(x, den),
{
    let form = lemma_rounded_form(x, den);
    lemma_rounded_exact(form.0, form.1, 1);
}

/// A quotient of whole numbers that are not too great has the same whole part as without rounding.
#[verifier::spinoff_prover]
pub proof fn lemma_whole_part_of_quotient(a: nat, n: nat)
    requires
        a < MANTISSA_END,
        0 < n <= MANTISSA_END,
    ensures
        quotient(whole(a), whole(n)) / one() == a / n,
{
    vstd::arithmetic::power2::lemma_pow2_pos(UNIT_BITS as nat);
    lemma_mantissa_powers();
    lemma_whole_exact(a);
    lemma_whole_exact(n);
    let x = a * one();
    lemma_rounded_scaled(x, n, one());
    let result = rounded(x, n);
    assert(quotient(whole(a), whole(n)) == result);
    let k = a / n;
    vstd::arithmetic::div_mod::lemma_fundamental_div_mod(a as int, n as int);
    vstd::arithmetic::div_mod::lemma_mod_bound(a as int, n as int);
    assert(k <= a) by (nonlinear_arith)
        requires
            a >= n * k,
            n >= 1,
    ;
    assert(k * one() * n <= x) by (nonlinear_arith)
        requires
            x == a * one(),
            a >= n * k,
    ;
    lemma_rounded_at_least(x, n, k, UNIT_BITS as nat);
    assert(n * (k + 1) == n * k + n) by (nonlinear_arith);
    assert((k + 1) * one() == k * one() + one()) by (nonlinear_arith);
    assert(result < (k + 1) * one()) by {
        lemma_rounded_close(x, n);
        let bits = excess_bits(x / n);
        let power = pow2(bits);
        lemma_excess_bits(x / n);
        vstd::arithmetic::div_mod::lemma_fundamental_div_mod(x as int, n as int);
        vstd::arithmetic::div_mod::lemma_mod_bound(x as int, n as int);
        if result >= (k + 1) * one() {
            assert(2 * one() <= power * n) by (nonlinear_arith)
                requires
                    result >= (k + 1) * one(),
                    2 * (result * n - x) <= power * n,
                    x == a * one(),
                    a + 1 <= n * (k + 1),
                    n >= 1,
                    one() > 0,
            ;
            if bits > 0 {
                vstd::arithmetic::power2::lemma_pow2_adds(52, bits);
                let floor = x / n;
                assert(0x10_0000_0000_0000 * (power * n) <= 0x20_0000_0000_0000 * one() - one())
                    by (nonlinear_arith)
                    requires
                        0x10_0000_0000_0000 * power <= floor,
                        n * floor <= x,
                        x == a * one(),
                        a + 1 <= 0x20_0000_0000_0000,
                ;
            } else {
                vstd::arithmetic::power2::lemma_pow2_strictly_increases(53, 1_074);
                assert(power * n == n) by (nonlinear_arith)
                    requires
                        power == 1,
                ;
            }
            assert(false);
        }
    }
    vstd::arithmetic::div_mod::lemma_fundamental_div_mod_converse(
        result as int,
        one() as int,
        k as int,
        result - k * one(),
    );
}

}
