//! The numbers shown above the graph.

use itertools::Itertools;
#[allow(unused_imports)]
use vstd::arithmetic::power2::pow2;
use vstd::prelude::*;
use vstd::relations::sorted_by;

use crate::double::Double;
#[allow(unused_imports)]
use crate::double::{
    lemma_shift_at_most, lemma_whole_can_be_written, lemma_wide_power, rounded_down,
};
#[allow(unused_imports)]
use crate::rounding::{
    difference, law_rounding_settles, law_whole_keeps_order, lemma_rounded_at_most,
    lemma_rounded_barely_above, lemma_rounded_scaled, lemma_whole_between, lemma_whole_exact,
    lemma_whole_part_of_quotient, one, quotient, sum, whole, MANTISSA_END, UNIT_BITS,
};
use crate::samples::{reply_values, Sample};
#[allow(unused_imports)]
use crate::samples::{
    greatest, least, lemma_extremes, lemma_extremes_unique, lemma_total_between, replies, timeouts,
    total,
};

verus! {

/// Statistics over the samples of one host. Times are in microseconds. They are computed in double
/// precision and then rounded down.
#[derive(Clone, Copy, Debug, PartialEq, Eq, Structural)]
pub struct Stats {
    /// The newest sample, or 0 when that was a timeout.
    pub last: u64,
    /// The shortest round trip.
    pub min: u64,
    /// The longest round trip.
    pub max: u64,
    /// The mean of the round trips.
    pub avg: u64,
    /// The mean distance between neighbours when the round trips are put in ascending order.
    pub jtr: u64,
    /// The 95th percentile, or 0 when its position lies behind the last round trip.
    pub p95: u64,
    /// How many samples are timeouts.
    pub timeouts: usize,
}

/// `values` in ascending order with `value` put in its place.
pub open spec fn inserted(values: Seq<u128>, value: u128) -> Seq<u128>
    decreases values.len(),
{
    if values.len() == 0 || values.last() <= value {
        values.push(value)
    } else {
        inserted(values.drop_last(), value).push(values.last())
    }
}

/// `values` in ascending order.
pub open spec fn ascending(values: Seq<u128>) -> Seq<u128>
    decreases values.len(),
{
    if values.len() == 0 {
        values
    } else {
        inserted(ascending(values.drop_last()), values.last())
    }
}

/// No value is followed by a smaller one.
pub open spec fn is_ascending(values: Seq<u128>) -> bool {
    forall|i: int, j: int| 0 <= i <= j < values.len() ==> values[i] <= values[j]
}

/// The distance between two values.
pub open spec fn distance(a: u128, b: u128) -> nat {
    if a <= b {
        (b - a) as nat
    } else {
        (a - b) as nat
    }
}

/// The sum of the distances between neighbours.
pub open spec fn neighbour_distances(values: Seq<u128>) -> nat
    decreases values.len(),
{
    if values.len() <= 1 {
        0
    } else {
        neighbour_distances(values.drop_last()) + distance(
            values[values.len() - 2],
            values.last(),
        )
    }
}

/// A round trip time as it is shown: in double precision, and rounded down again.
pub open spec fn shown(rtt: u128) -> u64 {
    rounded_down(whole(rtt as nat))
}

/// The sum of some values in units, added up one after the other in double precision.
pub open spec fn double_total(values: Seq<u128>) -> nat
    decreases values.len(),
{
    if values.len() == 0 {
        0
    } else {
        sum(double_total(values.drop_last()), whole(values.last() as nat))
    }
}

/// The distance between two values in units, in double precision.
pub open spec fn double_distance(a: u128, b: u128) -> nat {
    if whole(a as nat) <= whole(b as nat) {
        difference(whole(b as nat), whole(a as nat))
    } else {
        difference(whole(a as nat), whole(b as nat))
    }
}

/// The sum of the distances between neighbours in units, added up one after the other in double
/// precision.
pub open spec fn double_distances(values: Seq<u128>) -> nat
    decreases values.len(),
{
    if values.len() <= 1 {
        0
    } else {
        sum(
            double_distances(values.drop_last()),
            double_distance(values[values.len() - 2], values.last()),
        )
    }
}

/// A sum of so many units, divided by a count in double precision, and rounded down.
pub open spec fn shown_mean(total: nat, count: nat) -> u64 {
    rounded_down(quotient(total, whole(count)))
}

/// 2 to the 24th. Every integer up to it is a single precision number.
pub const SINGLE_LIMIT: u128 = 0x100_0000;

/// The single precision number nearest to 0.95, times 2 to the 24th.
pub const SINGLE_95_PERCENT: u128 = 15_938_355;

/// The distance between neighbouring single precision numbers around `x`, for integers on which
/// that is at least 1.
pub open spec fn single_unit(x: nat) -> nat
    decreases x,
{
    if x < SINGLE_LIMIT {
        1
    } else {
        2 * single_unit(x / 2)
    }
}

/// `x` rounded to the 24 significant bits of single precision: to the nearest number that has no
/// more, and to the one with an even last bit where two are equally near.
pub open spec fn single(x: nat) -> nat {
    let unit = single_unit(x);
    let down = x / unit;
    let rest = x % unit;
    if 2 * rest < unit || (2 * rest == unit && down % 2 == 0) {
        down * unit
    } else {
        (down + 1) * unit
    }
}

/// The index of the 95th percentile among `count` values in ascending order: 0.95 times the count
/// in single precision, rounded to the nearest integer, halves up.
pub open spec fn percentile_index(count: nat) -> nat {
    (single((SINGLE_95_PERCENT * single(count)) as nat) + SINGLE_LIMIT / 2) as nat / SINGLE_LIMIT as nat
}

/// What the statistics over `data` are. There are none without a reply.
pub open spec fn stats_of(data: Seq<Sample>) -> Option<Stats> {
    let values = replies(data);
    let ordered = ascending(values);
    let count = values.len();
    if count == 0 {
        None
    } else {
        Some(
            Stats {
                last: match data.last().rtt {
                    Some(rtt) => shown(rtt),
                    None => 0,
                },
                min: shown(least(values)),
                max: shown(greatest(values)),
                avg: shown_mean(double_total(ordered), count),
                jtr: if count == 1 {
                    0
                } else {
                    shown_mean(double_distances(ordered), (count - 1) as nat)
                },
                p95: if percentile_index(count) < count {
                    shown(ordered[percentile_index(count) as int])
                } else {
                    0
                },
                timeouts: timeouts(data) as usize,
            },
        )
    }
}

/// `itertools::Itertools::sorted`: the same values, each as often as it was given, in ascending
/// order.
#[verifier::external_body]
fn sorted(values: Vec<u128>) -> (ordered: Vec<u128>)
    ensures
        ordered@.to_multiset() == values@.to_multiset(),
        is_ascending(ordered@),
{
    values.into_iter().sorted().collect()
}

proof fn lemma_inserted(values: Seq<u128>, value: u128)
    requires
        is_ascending(values),
    ensures
        is_ascending(inserted(values, value)),
        inserted(values, value).to_multiset() == values.to_multiset().insert(value),
        inserted(values, value).len() == values.len() + 1,
        values.len() > 0 ==> inserted(values, value).last() == if values.last() <= value {
            value
        } else {
            values.last()
        },
    decreases values.len(),
{
    broadcast use vstd::seq_lib::group_to_multiset_ensures;

    if values.len() == 0 || values.last() <= value {
        assert forall|i: int, j: int| 0 <= i <= j < values.push(value).len() implies values.push(
            value,
        )[i] <= values.push(value)[j] by {
            if i < values.len() && j == values.len() {
                assert(values[i] <= values[values.len() - 1]);
            }
        }
    } else {
        let rest = values.drop_last();
        let shorter = inserted(rest, value);
        assert(is_ascending(rest)) by {
            assert(forall|i: int| 0 <= i < rest.len() ==> rest[i] == values[i]);
        }
        lemma_inserted(rest, value);
        assert(values =~= rest.push(values.last()));
        assert(shorter.push(values.last()).to_multiset() =~= values.to_multiset().insert(value));
        assert(shorter.last() <= values.last()) by {
            if rest.len() > 0 {
                assert(rest.last() == values[values.len() - 2]);
                assert(values[values.len() - 2] <= values[values.len() - 1]);
            } else {
                assert(shorter =~= rest.push(value));
            }
        }
        let longer = shorter.push(values.last());
        assert forall|i: int, j: int| 0 <= i <= j < longer.len() implies longer[i] <= longer[j] by {
            if i < shorter.len() && j == shorter.len() {
                assert(shorter[i] <= shorter[shorter.len() - 1]);
            }
        }
    }
}

/// Putting values in ascending order keeps each of them as often as it occurs.
pub proof fn law_ascending_keeps_values(values: Seq<u128>)
    ensures
        is_ascending(ascending(values)),
        ascending(values).to_multiset() == values.to_multiset(),
        ascending(values).len() == values.len(),
    decreases values.len(),
{
    broadcast use vstd::seq_lib::group_to_multiset_ensures;

    if values.len() > 0 {
        let rest = values.drop_last();
        law_ascending_keeps_values(rest);
        lemma_inserted(ascending(rest), values.last());
        assert(values =~= rest.push(values.last()));
    }
}


pub(crate) proof fn lemma_ascending_unique(ordered: Seq<u128>, values: Seq<u128>)
    requires
        is_ascending(ordered),
        ordered.to_multiset() == values.to_multiset(),
    ensures
        ordered == ascending(values),
{
    law_ascending_keeps_values(values);
    let leq = |a: u128, b: u128| a <= b;
    assert(sorted_by(ordered, leq));
    assert(sorted_by(ascending(values), leq));
    vstd::seq_lib::lemma_sorted_unique(ordered, ascending(values), leq);
}

/// In ascending order the distances between neighbours add up to the distance between the ends.
pub proof fn law_neighbour_distances_telescope(values: Seq<u128>)
    requires
        is_ascending(values),
        values.len() > 0,
    ensures
        neighbour_distances(values) == values.last() - values[0],
    decreases values.len(),
{
    if values.len() > 1 {
        let rest = values.drop_last();
        assert(is_ascending(rest)) by {
            assert(forall|i: int| 0 <= i < rest.len() ==> rest[i] == values[i]);
        }
        law_neighbour_distances_telescope(rest);
        assert(rest.last() == values[values.len() - 2]);
        assert(values[values.len() - 2] <= values[values.len() - 1]);
    }
}

/// The first and the last of some values in ascending order are the least and the greatest.
pub proof fn law_ascending_ends(values: Seq<u128>)
    requires
        values.len() > 0,
    ensures
        ascending(values)[0] == least(values),
        ascending(values).last() == greatest(values),
{
    broadcast use vstd::seq_lib::group_to_multiset_ensures;

    law_ascending_keeps_values(values);
    let ordered = ascending(values);
    let low = ordered[0];
    let high = ordered.last();
    assert(ordered.contains(low));
    assert(ordered.contains(high));
    assert(values.to_multiset().count(low) > 0);
    assert(values.to_multiset().count(high) > 0);
    assert(values.contains(low));
    assert(values.contains(high));
    assert forall|i: int| 0 <= i < values.len() implies low <= #[trigger] values[i] <= high by {
        assert(values.contains(values[i]));
        assert(ordered.to_multiset().count(values[i]) > 0);
        assert(ordered.contains(values[i]));
        let j = choose|j: int| 0 <= j < ordered.len() && ordered[j] == values[i];
        assert(ordered[0] <= ordered[j]);
        assert(ordered[j] <= ordered[ordered.len() - 1]);
    }
    lemma_extremes_unique(values, low, high);
}

/// `x` rounded to the precision of single precision numbers.
fn single_rounded(x: u128) -> (rounded: u128)
    requires
        x <= 0x1_0000_0000_0000_0000_0000_0000,
    ensures
        rounded == single(x as nat),
        rounded <= 2 * x + 1,
{
    let mut unit: u128 = 1;
    let mut top: u128 = x;
    while top >= SINGLE_LIMIT
        invariant
            x <= 0x1_0000_0000_0000_0000_0000_0000,
            unit >= 1,
            unit == 1 || unit <= x,
            top == x / unit,
            unit * single_unit(top as nat) == single_unit(x as nat),
        decreases top,
    {
        assert(unit * 2 <= x) by (nonlinear_arith)
            requires
                unit >= 1,
                x / unit >= 2,
        {
            assert(x >= unit * (x / unit));
        }
        proof {
            vstd::arithmetic::div_mod::lemma_div_denominator(x as int, unit as int, 2);
            let half = single_unit((top / 2) as nat);
            assert(unit * (2 * half) == (unit * 2) * half) by (nonlinear_arith);
        }
        unit = unit * 2;
        top = top / 2;
    }
    let down: u128 = x / unit;
    let rest: u128 = x % unit;
    proof {
        assert(single_unit(top as nat) == 1);
        assert(unit * 1 == unit) by (nonlinear_arith);
        vstd::arithmetic::div_mod::lemma_fundamental_div_mod(x as int, unit as int);
        assert((down + 1) * unit == unit * down + unit) by (nonlinear_arith);
        assert(down * unit == unit * down) by (nonlinear_arith);
    }
    if 2 * rest < unit || (2 * rest == unit && down % 2 == 0) {
        down * unit
    } else {
        (down + 1) * unit
    }
}

/// How far apart single precision numbers are around `x`, against `x` itself.
proof fn lemma_single_unit(x: nat)
    ensures
        single_unit(x) >= 1,
        x < SINGLE_LIMIT ==> single_unit(x) == 1,
        x >= SINGLE_LIMIT ==> single_unit(x) * 0x80_0000 <= x,
        x < single_unit(x) * 0x100_0000,
    decreases x,
{
    if x >= SINGLE_LIMIT {
        lemma_single_unit(x / 2);
    }
}

/// Single precision is off by at most one part in 2 to the 24th.
pub proof fn law_single_is_close(x: nat)
    ensures
        SINGLE_LIMIT * single(x) <= (SINGLE_LIMIT + 1) * x,
        SINGLE_LIMIT * single(x) >= (SINGLE_LIMIT - 1) * x,
        2 * single(x) <= 2 * x + single_unit(x),
        2 * single(x) >= 2 * x - single_unit(x),
{
    lemma_single_unit(x);
    let unit = single_unit(x);
    let down = x / unit;
    let rest = x % unit;
    vstd::arithmetic::div_mod::lemma_fundamental_div_mod(x as int, unit as int);
    assert((down + 1) * unit == unit * down + unit) by (nonlinear_arith);
    assert(down * unit == unit * down) by (nonlinear_arith);
    assert(x % 1 == 0);
}

/// The index of the 95th percentile never lies behind the place that follows the last value, and
/// from eleven values on it is the index of one of them.
pub proof fn law_percentile_index_bound(count: nat)
    ensures
        percentile_index(count) <= count,
        count > 10 ==> percentile_index(count) < count,
{
    let whole = single(count);
    let product = (SINGLE_95_PERCENT * whole) as nat;
    law_single_is_close(count);
    law_single_is_close(product);
    assert(0x100_0000 * whole <= 0x100_0001 * count);
    assert(product == 15_938_355 * whole);
    assert(0x100_0000 * single(product) <= 0x100_0001 * product);
    assert((single(product) + 0x80_0000) / 0x100_0000 <= count);
    assert(count > 10 ==> single(product) + 0x80_0000 < 0x100_0000 * count);
}

/// A number that is a multiple of the distance between single precision numbers around `x`, and
/// nearer to `x` than half of it, is what `x` is rounded to.
proof fn lemma_single_nearest(x: nat, target: nat)
    requires
        target % single_unit(x) == 0,
        2 * target < 2 * x + single_unit(x),
        2 * target > 2 * x - single_unit(x),
    ensures
        single(x) == target,
{
    lemma_single_unit(x);
    let unit = single_unit(x) as int;
    let down = x as int / unit;
    let rest = x as int % unit;
    let whole = target as int / unit;
    vstd::arithmetic::div_mod::lemma_fundamental_div_mod(x as int, unit);
    vstd::arithmetic::div_mod::lemma_fundamental_div_mod(target as int, unit);
    assert(whole == down || whole == down + 1) by (nonlinear_arith)
        requires
            unit >= 1,
            target == unit * whole,
            x == unit * down + rest,
            0 <= rest < unit,
            2 * target < 2 * x + unit,
            2 * target > 2 * x - unit,
    ;
    assert((down + 1) * unit == unit * down + unit) by (nonlinear_arith);
    assert(down * unit == unit * down) by (nonlinear_arith);
    if whole == down {
        assert(target == down * unit);
        assert(2 * rest < unit);
    } else {
        assert(unit * (down + 1) == (down + 1) * unit) by (nonlinear_arith);
        assert(2 * rest > unit);
    }
}

/// The distance between single precision numbers around `x` is a power of two, and divides every
/// greater one.
proof fn lemma_single_unit_divides(x: nat, power: nat, exponent: nat)
    requires
        power == vstd::arithmetic::power2::pow2(exponent),
        x < SINGLE_LIMIT * power,
    ensures
        power % single_unit(x) == 0,
    decreases exponent,
{
    lemma_single_unit(x);
    if x < SINGLE_LIMIT {
        assert(power % 1 == 0);
    } else {
        if exponent == 0 {
            vstd::arithmetic::power2::lemma2_to64();
        } else {
            vstd::arithmetic::power2::lemma_pow2_unfold(exponent);
            let half = vstd::arithmetic::power2::pow2((exponent - 1) as nat);
            lemma_single_unit(x / 2);
            lemma_single_unit_divides(x / 2, half, (exponent - 1) as nat);
            vstd::arithmetic::div_mod::lemma_truncate_middle(
                half as int,
                2,
                single_unit(x / 2) as int,
            );
        }
    }
}

/// Up to 2207530 values the index of the 95th percentile is 95 hundredths of their number, rounded to
/// the nearest integer, halves up. With one value more, single precision is no longer enough.
pub proof fn law_percentile_index_is_95_percent(count: nat)
    requires
        count <= 2_207_530,
    ensures
        percentile_index(count) == (95 * count + 50) / 100,
{
    lemma_single_unit(count);
    assert(single(count) == count) by {
        assert(count % 1 == 0);
    }
    let product = (SINGLE_95_PERCENT * count) as nat;
    assert(product == 15_938_355 * count);
    if count % 20 == 10 {
        lemma_percentile_of_half(count, product);
    } else {
        lemma_percentile_beside_half(count, product);
    }
    assert(percentile_index(count) == (single(product) + 0x80_0000) / 0x100_0000);
}

/// What is rounded never falls below a number that needs no rounding.
proof fn lemma_single_at_least(x: nat, target: nat)
    requires
        target % single_unit(x) == 0,
        target <= x,
    ensures
        single(x) >= target,
{
    lemma_single_unit(x);
    let unit = single_unit(x) as int;
    let down = x as int / unit;
    let whole = target as int / unit;
    vstd::arithmetic::div_mod::lemma_fundamental_div_mod(target as int, unit);
    vstd::arithmetic::div_mod::lemma_div_is_ordered(target as int, x as int, unit);
    assert(unit * whole <= down * unit) by (nonlinear_arith)
        requires
            unit >= 1,
            whole <= down,
    ;
    assert((down + 1) * unit == down * unit + unit) by (nonlinear_arith);
}

proof fn lemma_percentile_of_half(count: nat, product: nat)
    requires
        count <= 2_207_530,
        count % 20 == 10,
        product == 15_938_355 * count,
    ensures
        (single(product) + 0x80_0000) / 0x100_0000 == (95 * count + 50) / 100,
{
    let m = count / 20;
    let unit = single_unit(product);
    let target = ((38 * m + 19) * 0x80_0000) as nat;
    assert(count == 20 * m + 10);
    lemma_single_unit(product);
    assert(vstd::arithmetic::power2::pow2(23) == 0x80_0000) by {
        vstd::arithmetic::power2::lemma2_to64();
    }
    lemma_single_unit_divides(product, 0x80_0000, 23);
    assert(target % unit == 0) by {
        vstd::arithmetic::div_mod::lemma_mul_mod_noop_right(
            (38 * m + 19) as int,
            0x80_0000,
            unit as int,
        );
        assert((38 * m + 19) * 0 == 0);
    }
    assert(target - product == 4 * m + 2);
    lemma_single_nearest(product, target);
}

/// What the distance between single precision numbers can be below 2 to the 46th.
proof fn lemma_single_unit_choices(x: nat)
    requires
        x < 0x4000_0000_0000,
    ensures
        0x40_0000int % single_unit(x) as int == 0,
        single_unit(x) == 0x40_0000 || single_unit(x) == 0x20_0000 || single_unit(x) <= 0x10_0000,
{
    let unit = single_unit(x) as int;
    lemma_single_unit(x);
    assert(vstd::arithmetic::power2::pow2(22) == 0x40_0000) by {
        vstd::arithmetic::power2::lemma2_to64();
    }
    lemma_single_unit_divides(x, 0x40_0000, 22);
    let parts = 0x40_0000int / unit;
    vstd::arithmetic::div_mod::lemma_fundamental_div_mod(0x40_0000, unit);
    assert(parts >= 1) by (nonlinear_arith)
        requires
            unit >= 1,
            0x40_0000 == unit * parts,
    ;
    if parts >= 4 {
        assert(unit <= 0x10_0000) by (nonlinear_arith)
            requires
                parts >= 4,
                0x40_0000 == unit * parts,
        ;
    } else if parts == 3 {
        assert(0x40_0000 == unit * 3);
    } else if parts == 2 {
        assert(0x40_0000 == unit * 2);
    } else {
        assert(0x40_0000 == unit * 1);
    }
}

/// 95 hundredths that are not halfway between two integers keep their distance from the halves, as
/// seen at the precision that the unit leaves.
#[verifier::spinoff_prover]
proof fn lemma_distance_from_halves(count: int, k: int, product: int, unit: int)
    requires
        0 <= count <= 2_207_530,
        count % 20 != 10,
        product == 15_938_355 * count,
        k == (95 * count + 50) / 100,
        unit == 0x40_0000 || unit == 0x20_0000 || unit <= 0x10_0000,
        unit == 1 || unit * 0x80_0000 <= product,
    ensures
        2 * product + unit < 0x200_0000 * k + 0x100_0000,
        k > 0 ==> 0x80_0000 * (2 * k - 1) <= product,
{
    let t = (95 * count + 50) % 100;
    assert(95 * count + 50 == 100 * k + t);
    assert(5 <= t <= 95) by (nonlinear_arith)
        requires
            0 <= count,
            count % 20 != 10,
            t == (95 * count + 50) % 100,
    ;
    // A hundred times the first inequality, with both sides written out.
    assert(100 * unit < 40 * count + 0x200_0000 * (100 - t)) by {
        if unit == 0x40_0000 {
            assert(count == 2_207_529) by (nonlinear_arith)
                requires
                    0x40_0000 * 0x80_0000 <= 15_938_355 * count,
                    count <= 2_207_530,
                    count % 20 != 10,
            ;
            assert(t == 5);
        } else if unit == 0x20_0000 {
            assert(count >= 1_103_764) by (nonlinear_arith)
                requires
                    0x20_0000 * 0x80_0000 <= 15_938_355 * count,
            ;
        }
    }
    assert(2 * product + unit < 0x200_0000 * k + 0x100_0000) by (nonlinear_arith)
        requires
            product == 15_938_355 * count,
            95 * count + 50 == 100 * k + t,
            100 * unit < 40 * count + 0x200_0000 * (100 - t),
    ;
    assert(0x80_0000 * (2 * k - 1) <= product) by (nonlinear_arith)
        requires
            product == 15_938_355 * count,
            95 * count + 50 == 100 * k + t,
            5 <= t,
            0 <= count <= 2_207_530,
    ;
}

proof fn lemma_percentile_beside_half(count: nat, product: nat)
    requires
        count <= 2_207_530,
        count % 20 != 10,
        product == 15_938_355 * count,
    ensures
        (single(product) + 0x80_0000) / 0x100_0000 == (95 * count + 50) / 100,
{
    let k = (95 * count + 50) / 100;
    let unit = single_unit(product);
    lemma_single_unit(product);
    lemma_single_unit_choices(product);
    lemma_distance_from_halves(count as int, k as int, product as int, unit as int);
    law_single_is_close(product);
    if k > 0 {
        let odd = 2 * k - 1;
        let half = (0x80_0000 * odd) as nat;
        assert(half % unit == 0) by {
            vstd::arithmetic::div_mod::lemma_mul_mod_noop_left(0x40_0000, 2 * odd, unit as int);
            assert(0 * (2 * odd) == 0);
            assert(half == 0x40_0000 * (2 * odd));
        }
        lemma_single_at_least(product, half);
    }
}

/// The index of the 95th percentile among `count` values in ascending order.
pub fn percentile_position(count: usize) -> (index: usize)
    ensures
        index == percentile_index(count as nat),
{
    let whole: u128 = single_rounded(count as u128);
    let scaled: u128 = single_rounded(SINGLE_95_PERCENT * whole);
    proof {
        law_percentile_index_bound(count as nat);
    }
    ((scaled + SINGLE_LIMIT / 2) / SINGLE_LIMIT) as usize
}

/// A sum never grows beyond 2 to the 182nd, however many values are added: from there on a value is
/// too small to make a difference.
proof fn lemma_sum_bounded(a: nat, b: nat)
    requires
        a <= pow2(182) * one(),
        b <= pow2(128) * one(),
    ensures
        sum(a, b) <= pow2(182) * one(),
{
    vstd::arithmetic::power2::lemma_pow2_adds(182, UNIT_BITS as nat);
    vstd::arithmetic::power2::lemma_pow2_adds(128, UNIT_BITS as nat);
    vstd::arithmetic::power2::lemma_pow2_strictly_increases(
        128 + UNIT_BITS as nat,
        129 + UNIT_BITS as nat,
    );
    lemma_rounded_barely_above(a + b, 182 + UNIT_BITS as nat);
}

/// The distance between two values.
fn distance_of(a: u128, b: u128) -> (d: Double)
    ensures
        d.wf(),
        d.units() == double_distance(a, b),
        d.units() <= pow2(128) * one(),
{
    let x: Double = Double::of_whole(a);
    let y: Double = Double::of_whole(b);
    proof {
        lemma_whole_can_be_written(a as nat);
        lemma_whole_can_be_written(b as nat);
        lemma_shift_at_most(x, 129);
        lemma_shift_at_most(y, 129);
    }
    let d: Double = if x.at_most(y) {
        y.minus(x)
    } else {
        x.minus(y)
    };
    proof {
        let (hi, lo) = if x.units() <= y.units() {
            (y, x)
        } else {
            (x, y)
        };
        lemma_rounded_at_most((hi.units() - lo.units()) as nat, 1, hi.mant as nat, hi.shift as nat);
    }
    d
}

/// The sum of the distances between neighbours.
fn distance_sum(ordered: &Vec<u128>) -> (total: Double)
    ensures
        total.wf(),
        total.units() == double_distances(ordered@),
        total.units() <= pow2(182) * one(),
{
    let mut total: Double = Double::of_whole(0);
    let mut i: usize = 1;
    proof {
        lemma_zero();
    }
    while i < ordered.len()
        invariant
            1 <= i,
            i <= ordered.len() || ordered.len() == 0,
            total.wf(),
            total.units() <= pow2(182) * one(),
            ordered.len() > 0 ==> total.units() == double_distances(ordered@.take(i as int)),
            ordered.len() == 0 ==> total.units() == 0,
        decreases ordered.len() - i,
    {
        let step: Double = distance_of(ordered[i - 1], ordered[i]);
        proof {
            let next = ordered@.take(i + 1);
            assert(next.drop_last() =~= ordered@.take(i as int));
            assert(next[next.len() - 2] == ordered@[i - 1]);
            lemma_sum_bounded(total.units(), step.units());
            lemma_shift_at_most(total, 182);
            lemma_shift_at_most(step, 128);
        }
        total = total.plus(step);
        i = i + 1;
    }
    proof {
        if ordered.len() > 0 {
            assert(ordered@.take(i as int) =~= ordered@);
        }
    }
    total
}

proof fn lemma_zero()
    ensures
        whole(0) == 0,
        0 <= pow2(182) * one(),
{
    lemma_whole_exact(0);
    assert(0 * one() == 0);
}

/// The sum of some values.
fn value_sum(values: &Vec<u128>) -> (total: Double)
    ensures
        total.wf(),
        total.units() == double_total(values@),
        total.units() <= pow2(182) * one(),
{
    let mut total: Double = Double::of_whole(0);
    let mut i: usize = 0;
    proof {
        lemma_zero();
    }
    while i < values.len()
        invariant
            i <= values.len(),
            total.wf(),
            total.units() <= pow2(182) * one(),
            total.units() == double_total(values@.take(i as int)),
        decreases values.len() - i,
    {
        let value: Double = Double::of_whole(values[i]);
        proof {
            assert(values@.take(i + 1).drop_last() =~= values@.take(i as int));
            lemma_whole_can_be_written(values@[i as int] as nat);
            lemma_sum_bounded(total.units(), value.units());
            lemma_shift_at_most(total, 182);
            lemma_shift_at_most(value, 128);
        }
        total = total.plus(value);
        i = i + 1;
    }
    assert(values@.take(i as int) =~= values@);
    total
}

/// A sum divided by a count.
fn mean_of(total: Double, count: usize) -> (mean: u64)
    requires
        total.wf(),
        total.units() <= pow2(182) * one(),
        count > 0,
    ensures
        mean == shown_mean(total.units(), count as nat),
{
    let divisor: Double = Double::of_whole(count as u128);
    proof {
        vstd::arithmetic::power2::lemma2_to64();
        lemma_wide_power();
        lemma_whole_between(count as nat, 0, 128);
        assert(pow2(0) * one() == one());
        lemma_whole_can_be_written(count as nat);
        lemma_shift_at_most(divisor, 128);
        lemma_shift_at_most(total, 182);
    }
    total.over(divisor).to_whole().0
}

/// A round trip time as it is shown.
fn shown_value(rtt: u128) -> (result: u64)
    ensures
        result == shown(rtt),
{
    Double::of_whole(rtt).to_whole().0
}

/// How many of `data` are timeouts.
fn timeout_count(data: &Vec<Sample>) -> (count: usize)
    ensures
        count == timeouts(data@),
{
    let mut count: usize = 0;
    let mut i: usize = 0;
    while i < data.len()
        invariant
            i <= data.len(),
            count <= i,
            count == timeouts(data@.take(i as int)),
        decreases data.len() - i,
    {
        assert(data@.take(i + 1).drop_last() =~= data@.take(i as int));
        if data[i].rtt.is_none() {
            count = count + 1;
        }
        i = i + 1;
    }
    assert(data@.take(i as int) =~= data@);
    count
}

/// The statistics over `data`, or nothing when there is no reply among them.
pub fn stats(data: &Vec<Sample>) -> (result: Option<Stats>)
    ensures
        result == stats_of(data@),
{
    let values: Vec<u128> = reply_values(data);
    if values.len() == 0 {
        return None;
    }
    let count: usize = values.len();
    let ghost all = values@;
    let ordered: Vec<u128> = sorted(values);
    proof {
        lemma_ascending_unique(ordered@, all);
        law_ascending_keeps_values(all);
        law_ascending_ends(all);
    }
    let avg: u64 = mean_of(value_sum(&ordered), count);
    let jtr: u64 = if count == 1 {
        0
    } else {
        mean_of(distance_sum(&ordered), count - 1)
    };
    let index: usize = percentile_position(count);
    let p95: u64 = if index < count {
        shown_value(ordered[index])
    } else {
        0
    };
    let last: u64 = match data[data.len() - 1].rtt {
        Some(rtt) => shown_value(rtt),
        None => 0,
    };
    Some(
        Stats {
            last,
            min: shown_value(ordered[0]),
            max: shown_value(ordered[count - 1]),
            avg,
            jtr,
            p95,
            timeouts: timeout_count(data),
        },
    )
}

/// A longer round trip is not shown as a shorter one, and each is shown as it is up to 2 to the 53rd.
pub proof fn law_shown_keeps_order(a: u128, b: u128)
    requires
        a <= b,
    ensures
        shown(a) <= shown(b),
        a <= MANTISSA_END ==> shown(a) == a,
{
    vstd::arithmetic::power2::lemma_pow2_pos(UNIT_BITS as nat);
    law_whole_keeps_order(a as nat, b as nat);
    vstd::arithmetic::div_mod::lemma_div_is_ordered(
        whole(a as nat) as int,
        whole(b as nat) as int,
        one() as int,
    );
    if a <= MANTISSA_END {
        lemma_whole_exact(a as nat);
        vstd::arithmetic::div_mod::lemma_div_multiples_vanish(a as int, one() as int);
        assert(a as nat * one() == one() * a as nat) by (nonlinear_arith);
    }
}

proof fn lemma_total_inserted(values: Seq<u128>, value: u128)
    ensures
        total(inserted(values, value)) == total(values) + value,
    decreases values.len(),
{
    if values.len() == 0 || values.last() <= value {
        assert(values.push(value).drop_last() =~= values);
    } else {
        let shorter = inserted(values.drop_last(), value);
        lemma_total_inserted(values.drop_last(), value);
        assert(shorter.push(values.last()).drop_last() =~= shorter);
    }
}

pub(crate) proof fn lemma_total_ascending(values: Seq<u128>)
    ensures
        total(ascending(values)) == total(values),
    decreases values.len(),
{
    if values.len() > 0 {
        lemma_total_ascending(values.drop_last());
        lemma_total_inserted(ascending(values.drop_last()), values.last());
    }
}

/// As long as values come to no more than 2 to the 53rd, adding them up needs no rounding.
proof fn lemma_exact_total(values: Seq<u128>)
    requires
        total(values) <= MANTISSA_END,
    ensures
        double_total(values) == total(values) * one(),
    decreases values.len(),
{
    if values.len() == 0 {
        assert(0 * one() == 0);
    } else {
        let rest = values.drop_last();
        lemma_exact_total(rest);
        lemma_whole_exact(values.last() as nat);
        lemma_whole_exact(total(values));
        let a = total(rest);
        let b = values.last() as nat;
        assert(a * one() + b * one() == (a + b) * one()) by (nonlinear_arith);
    }
}

/// Nor does adding up the distances between such values.
proof fn lemma_exact_distances(values: Seq<u128>)
    requires
        is_ascending(values),
        values.len() > 0,
        values.last() <= MANTISSA_END,
    ensures
        double_distances(values) == neighbour_distances(values) * one(),
    decreases values.len(),
{
    if values.len() == 1 {
        assert(0 * one() == 0);
    } else {
        let rest = values.drop_last();
        assert(is_ascending(rest)) by {
            assert(forall|i: int| 0 <= i < rest.len() ==> rest[i] == values[i]);
        }
        let x = values[values.len() - 2];
        let y = values.last();
        assert(x <= y) by {
            assert(values[values.len() - 2] <= values[values.len() - 1]);
        }
        assert(rest.last() == x);
        lemma_exact_distances(rest);
        law_neighbour_distances_telescope(rest);
        law_neighbour_distances_telescope(values);
        lemma_whole_exact(x as nat);
        lemma_whole_exact(y as nat);
        law_whole_keeps_order(x as nat, y as nat);
        let gap = (y - x) as nat;
        let before = neighbour_distances(rest);
        lemma_whole_exact(gap);
        lemma_whole_exact(before + gap);
        assert(y as nat * one() - x as nat * one() == gap * one()) by (nonlinear_arith)
            requires
                gap == y - x,
        ;
        assert(before * one() + gap * one() == (before + gap) * one()) by (nonlinear_arith);
    }
}

/// The shortest round trip is not shown as longer than the longest, the 95th percentile lies between
/// the two where there is one, and a single reply is its own mean.
pub proof fn law_stats_are_consistent(data: Seq<Sample>)
    requires
        replies(data).len() > 0,
    ensures
        stats_of(data) matches Some(s) && {
            let count = replies(data).len();
            &&& s.min <= s.max
            &&& percentile_index(count) < count ==> s.min <= s.p95 <= s.max
            &&& percentile_index(count) >= count ==> s.p95 == 0
            &&& count == 1 ==> s.jtr == 0 && s.avg == s.min && s.max == s.min
        },
{
    let values = replies(data);
    let count = values.len();
    let ordered = ascending(values);
    lemma_extremes(values);
    law_ascending_keeps_values(values);
    law_ascending_ends(values);
    law_shown_keeps_order(least(values), greatest(values));
    let index = percentile_index(count) as int;
    if index < count {
        assert(ordered[0] <= ordered[index]);
        assert(ordered[index] <= ordered[ordered.len() - 1]);
        law_shown_keeps_order(least(values), ordered[index]);
        law_shown_keeps_order(ordered[index], greatest(values));
    }
    if count == 1 {
        let rtt = ordered[0];
        let units = whole(rtt as nat);
        assert(ordered.drop_last() =~= Seq::empty());
        law_rounding_settles(rtt as nat * one(), 1);
        assert(double_total(ordered.drop_last()) == 0);
        assert(ordered.last() == rtt);
        assert(double_total(ordered) == units);
        vstd::arithmetic::power2::lemma_pow2_pos(UNIT_BITS as nat);
        lemma_whole_exact(1);
        lemma_rounded_scaled(units, 1, one());
        assert(1 * one() == one());
    }
}

/// As long as all round trips together come to less than 2 to the 53rd microseconds, what is shown is
/// what comes out without double precision: the shortest, the longest and the last one themselves,
/// the mean rounded down, which lies between the shortest and the longest, and for the mean distance
/// the whole spread divided by the number of gaps, rounded down.
pub proof fn law_stats_are_exact(data: Seq<Sample>)
    requires
        0 < replies(data).len() <= MANTISSA_END,
        total(replies(data)) < MANTISSA_END,
    ensures
        stats_of(data) matches Some(s) && {
            let values = replies(data);
            let count = values.len();
            &&& data.last().rtt matches Some(rtt) ==> s.last == rtt
            &&& s.min == least(values)
            &&& s.max == greatest(values)
            &&& s.avg == total(values) / count
            &&& s.min <= s.avg <= s.max
            &&& count > 1 ==> s.jtr == (s.max - s.min) / (count - 1)
            &&& percentile_index(count) < count ==> s.p95 == ascending(
                values,
            )[percentile_index(count) as int]
        },
{
    let values = replies(data);
    let count = values.len();
    let ordered = ascending(values);
    let low = least(values);
    let high = greatest(values);
    lemma_extremes(values);
    law_ascending_keeps_values(values);
    law_ascending_ends(values);
    lemma_total_ascending(values);
    lemma_exact_total(ordered);
    let all = total(values);
    assert forall|i: int| 0 <= i < values.len() implies #[trigger] values[i] <= all by {
        lemma_part_of_total(values, i);
    }
    let top = choose|i: int| 0 <= i < values.len() && values[i] == high;
    assert(values[top] <= all);
    lemma_exact_distances(ordered);
    law_neighbour_distances_telescope(ordered);
    law_shown_keeps_order(low, high);
    law_shown_keeps_order(high, high);
    if let Some(rtt) = data.last().rtt {
        assert(values.last() == rtt);
        assert(values[values.len() - 1] <= all);
        law_shown_keeps_order(rtt, rtt);
    }
    lemma_whole_exact(all);
    lemma_whole_part_of_quotient(all, count);
    lemma_total_between(values, low as int, high as int);
    assert(low <= all / count <= high) by (nonlinear_arith)
        requires
            count > 0,
            count * low <= all <= count * high,
    ;
    if count > 1 {
        let spread = (high - low) as nat;
        let gaps = (count - 1) as nat;
        lemma_whole_exact(spread);
        lemma_whole_part_of_quotient(spread, gaps);
        assert(spread / gaps <= spread) by (nonlinear_arith)
            requires
                gaps >= 1,
        ;
    }
    let index = percentile_index(count) as int;
    if index < count {
        assert(ordered[index] <= ordered[ordered.len() - 1]);
        law_shown_keeps_order(ordered[index], high);
    }
}

pub(crate) proof fn lemma_part_of_total(values: Seq<u128>, i: int)
    requires
        0 <= i < values.len(),
    ensures
        values[i] <= total(values),
    decreases values.len(),
{
    if i < values.len() - 1 {
        lemma_part_of_total(values.drop_last(), i);
    }
}

/// With ten replies or fewer there is no 95th percentile, and 0 stands in its place.
pub proof fn law_few_replies_have_no_percentile(data: Seq<Sample>)
    requires
        0 < replies(data).len() <= 10,
    ensures
        stats_of(data) matches Some(s) && s.p95 == 0,
{
    law_percentile_index_is_95_percent(replies(data).len());
}

/// With more than ten replies the 95th percentile is one of them.
pub proof fn law_many_replies_have_a_percentile(data: Seq<Sample>)
    requires
        replies(data).len() > 10,
    ensures
        stats_of(data) matches Some(s) && exists|i: int|
            0 <= i < replies(data).len() && s.p95 == shown(#[trigger] replies(data)[i]),
{
    broadcast use vstd::seq_lib::group_to_multiset_ensures;

    let values = replies(data);
    let ordered = ascending(values);
    law_percentile_index_bound(values.len());
    law_ascending_keeps_values(values);
    let index = percentile_index(values.len()) as int;
    assert(0 <= index < ordered.len());
    assert(ordered.contains(ordered[index]));
    assert(values.to_multiset().count(ordered[index]) > 0);
    assert(values.contains(ordered[index]));
    let i = choose|i: int| 0 <= i < values.len() && values[i] == ordered[index];
    assert(shown(values[i]) == shown(ordered[index]));
}

}
