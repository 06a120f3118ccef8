//! The exponential moving average.

#[allow(unused_imports)]
use vstd::arithmetic::power2::pow2;
use vstd::prelude::*;

use crate::double::Double;
#[allow(unused_imports)]
use crate::double::{
    double_of, lemma_at_most_one, lemma_double_of_rounded, lemma_double_of_units, lemma_shift_at_most,
    lemma_whole_can_be_written, lemma_wide_power,
};
#[allow(unused_imports)]
use crate::rounding::{
    difference, law_rounding_keeps_order, law_whole_keeps_order, lemma_complement,
    lemma_product_at_least, lemma_product_at_most, lemma_rounded_at_least, lemma_rounded_at_most,
    lemma_rounded_barely_above, lemma_rounded_exact, lemma_rounded_form, lemma_whole_between, one,
    product, sum, whole, UNIT_BITS,
};
use crate::rounding::{MANTISSA_END, MANTISSA_TOP};

verus! {

/// The weight that the newest sample gets in the average.
#[derive(Clone, Copy, Debug, PartialEq, Eq, Structural)]
pub struct Weight {
    pub value: Double,
}

impl Weight {
    /// The number is a weight: it lies between 0 and 1.
    pub open spec fn wf(self) -> bool {
        &&& self.value.wf()
        &&& self.value.units() <= one()
    }

    /// A number as a weight, unless it does not lie between 0 and 1.
    pub fn new(value: Double) -> (weight: Option<Weight>)
        ensures
            weight == (if value.wf() && value.units() <= one() {
                Some(Weight { value })
            } else {
                None
            }),
    {
        if value.mant >= MANTISSA_END || (value.shift > 0 && value.mant < MANTISSA_TOP) {
            return None;
        }
        proof {
            lemma_at_most_one(value);
        }
        if value.shift < 1_022 || (value.shift == 1_022 && value.mant == MANTISSA_TOP) {
            Some(Weight { value })
        } else {
            None
        }
    }
}

/// The average after a reply: the weight times the round trip time, plus what the weight lacks of one
/// times the previous average. Each of the four operations is one in double precision.
pub open spec fn blend(weight: Weight, previous: nat, rtt: u128) -> nat {
    let newest = product(weight.value.units(), whole(rtt as nat));
    let rest = product(difference(one(), weight.value.units()), previous);
    sum(newest, rest)
}

/// The average after one more sample, in microseconds. The first reply is the first average, and a
/// timeout leaves the average as it was.
pub open spec fn averaged(
    weight: Weight,
    average: Option<Double>,
    item: Option<u128>,
) -> Option<Double> {
    match item {
        None => average,
        Some(rtt) => match average {
            None => Some(double_of(whole(rtt as nat))),
            Some(previous) => Some(double_of(blend(weight, previous.units(), rtt))),
        },
    }
}

/// The average is a number, and not much greater than a round trip time can be.
pub open spec fn average_in_range(average: Option<Double>) -> bool {
    average matches Some(d) ==> d.wf() && d.units() <= pow2(129) * one()
}

/// The average after a history of samples, oldest first.
pub open spec fn average_of(weight: Weight, history: Seq<Option<u128>>) -> Option<Double>
    decreases history.len(),
{
    if history.len() == 0 {
        None
    } else {
        averaged(weight, average_of(weight, history.drop_last()), history.last())
    }
}

/// The replies in a history of samples.
pub open spec fn answered(history: Seq<Option<u128>>) -> Seq<Option<u128>> {
    history.filter(|item: Option<u128>| item is Some)
}

/// One step of the average does not leave twice a power of two that no reply goes beyond.
proof fn lemma_blend_at_most(weight: Weight, previous: nat, rtt: u128, high: nat)
    requires
        weight.wf(),
        rtt <= pow2(high),
        previous <= pow2(high + 1) * one(),
    ensures
        blend(weight, previous, rtt) <= pow2(high + 1) * one(),
{
    let w = weight.value.units();
    let c = difference(one(), w);
    let p = pow2(high);
    let newest = product(w, whole(rtt as nat));
    let rest = product(c, previous);
    lemma_whole_between(rtt as nat, 0, high);
    lemma_complement(w);
    lemma_product_at_most(
        weight.value.mant as nat,
        weight.value.shift as nat,
        whole(rtt as nat),
        high,
    );
    let form = lemma_rounded_form((one() - w) as nat, 1);
    lemma_product_at_most(form.0, form.1, previous, high + 1);
    vstd::arithmetic::power2::lemma_pow2_unfold(high + 1);
    vstd::arithmetic::power2::lemma_pow2_pos(high);
    vstd::arithmetic::power2::lemma_pow2_adds(high + 1, UNIT_BITS as nat);
    let e = high + 1 + UNIT_BITS as nat;
    let top = pow2(e);
    let half = pow2((e - 53) as nat);
    assert(newest <= w * p);
    assert(rest <= c * (2 * p));
    assert(newest + rest <= top + half) by {
        let part = pow2(1_021);
        vstd::arithmetic::power2::lemma_pow2_adds(1_021, high);
        if w >= part {
            assert(w * p + c * (2 * p) <= (2 * p) * one()) by (nonlinear_arith)
                requires
                    w + 2 * c <= 2 * one(),
            ;
        } else {
            assert(w * p <= part * p) by (nonlinear_arith)
                requires
                    w <= part,
            ;
            assert(c * (2 * p) <= (2 * p) * one()) by (nonlinear_arith)
                requires
                    c <= one(),
            ;
            vstd::arithmetic::power2::lemma_pow2_strictly_increases(1_021 + high, (e - 53) as nat);
        }
    }
    lemma_rounded_barely_above(newest + rest, e);
}

/// One step of the average does not fall below half of a power of two that no reply is less than.
proof fn lemma_blend_at_least(weight: Weight, previous: nat, rtt: u128, low: nat)
    requires
        weight.wf(),
        pow2(low + 1) <= rtt,
        pow2(low) * one() <= previous,
    ensures
        pow2(low) * one() <= blend(weight, previous, rtt),
{
    let w = weight.value.units();
    let c = difference(one(), w);
    let p = pow2(low);
    let newest = product(w, whole(rtt as nat));
    let rest = product(c, previous);
    lemma_whole_between(rtt as nat, low + 1, 0);
    lemma_complement(w);
    lemma_product_at_least(
        weight.value.mant as nat,
        weight.value.shift as nat,
        whole(rtt as nat),
        low + 1,
    );
    let form = lemma_rounded_form((one() - w) as nat, 1);
    lemma_product_at_least(form.0, form.1, previous, low);
    vstd::arithmetic::power2::lemma_pow2_unfold(low + 1);
    vstd::arithmetic::power2::lemma_pow2_pos(low);
    vstd::arithmetic::power2::lemma_pow2_adds(low, UNIT_BITS as nat);
    assert(newest >= w * (2 * p));
    assert(rest >= c * p);
    assert(2 * w + c >= one());
    assert(w * (2 * p) + c * p >= p * one()) by (nonlinear_arith)
        requires
            2 * w + c >= one(),
    ;
    lemma_rounded_at_least(newest + rest, 1, 1, low + UNIT_BITS as nat);
}

/// The average after a reply can be written in double precision.
pub(crate) proof fn lemma_blend_can_be_written(weight: Weight, previous: nat, rtt: u128)
    requires
        weight.wf(),
        previous <= pow2(129) * one(),
    ensures
        average_in_range(Some(double_of(blend(weight, previous, rtt)))),
        double_of(blend(weight, previous, rtt)).units() == blend(weight, previous, rtt),
{
    lemma_wide_power();
    vstd::arithmetic::power2::lemma_pow2_adds(129, UNIT_BITS as nat);
    lemma_blend_at_most(weight, previous, rtt, 128);
    let newest = product(weight.value.units(), whole(rtt as nat));
    let rest = product(difference(one(), weight.value.units()), previous);
    lemma_double_of_rounded(newest + rest, 1, 129 + UNIT_BITS as nat);
}

/// With the whole weight on the newest sample the average is that sample, with none it never
/// moves.
pub proof fn law_extreme_weights(weight: Weight, previous: Double, rtt: u128)
    requires
        weight.wf(),
        previous.wf(),
    ensures
        weight.value.units() == one() ==> blend(weight, previous.units(), rtt) == whole(rtt as nat),
        weight.value.units() == 0 ==> blend(weight, previous.units(), rtt) == previous.units(),
{
    let w = weight.value.units();
    let c = difference(one(), w);
    lemma_complement(w);
    vstd::arithmetic::power2::lemma_pow2_pos(UNIT_BITS as nat);
    assert(0 * pow2(0) * one() == 0) by (nonlinear_arith);
    lemma_rounded_at_most(0, one(), 0, 0);
    if w == one() {
        let form = lemma_rounded_form(rtt as nat * one(), 1);
        lemma_rounded_exact(form.0, form.1, 1);
        lemma_rounded_exact(form.0, form.1, one());
        let v = whole(rtt as nat);
        assert(one() * v == v * one()) by (nonlinear_arith);
        assert(0 * previous.units() == 0);
        assert(sum(v, 0) == v);
    }
    if w == 0 {
        let before = previous.units();
        lemma_rounded_exact(previous.mant as nat, previous.shift as nat, 1);
        lemma_rounded_exact(previous.mant as nat, previous.shift as nat, one());
        assert(one() * before == before * one()) by (nonlinear_arith);
        assert(0 * whole(rtt as nat) == 0);
        assert(sum(0, before) == before);
    }
}

/// Timeouts play no part in the average: leaving them out of a history changes nothing.
pub proof fn law_timeouts_leave_the_average(weight: Weight, history: Seq<Option<u128>>)
    ensures
        average_of(weight, history) == average_of(weight, answered(history)),
    decreases history.len(),
{
    reveal(Seq::filter);
    if history.len() > 0 {
        let rest = history.drop_last();
        law_timeouts_leave_the_average(weight, rest);
        if history.last() is Some {
            let kept = answered(rest).push(history.last());
            assert(answered(history) == kept);
            assert(kept.drop_last() =~= answered(rest));
        } else {
            assert(answered(history) == answered(rest));
        }
    }
}

/// One more sample leaves the average in range.
pub proof fn law_step_stays_in_range(weight: Weight, average: Option<Double>, item: Option<u128>)
    requires
        weight.wf(),
        average_in_range(average),
    ensures
        average_in_range(averaged(weight, average, item)),
{
    if let Some(rtt) = item {
        lemma_whole_can_be_written(rtt as nat);
        if let Some(previous) = average {
            lemma_blend_can_be_written(weight, previous.units(), rtt);
        }
    }
}

/// Every average of a history is a number in double precision, and never one that is too great for
/// it.
pub proof fn law_average_in_range(weight: Weight, history: Seq<Option<u128>>)
    requires
        weight.wf(),
    ensures
        average_in_range(average_of(weight, history)),
    decreases history.len(),
{
    if history.len() > 0 {
        law_average_in_range(weight, history.drop_last());
        law_step_stays_in_range(
            weight,
            average_of(weight, history.drop_last()),
            history.last(),
        );
    }
}

/// There is an average as soon as there is a reply.
pub proof fn law_average_starts_with_a_reply(weight: Weight, history: Seq<Option<u128>>)
    ensures
        average_of(weight, history) is Some <==> exists|i: int|
            0 <= i < history.len() && #[trigger] history[i] is Some,
    decreases history.len(),
{
    if history.len() > 0 {
        let rest = history.drop_last();
        law_average_starts_with_a_reply(weight, rest);
        assert(forall|i: int| 0 <= i < rest.len() ==> rest[i] == history[i]);
        assert(history[history.len() - 1] == history.last());
    }
}

/// Rounding never adds up: however long a history and however small the weight, the average does not
/// go beyond twice a power of two that no reply goes beyond.
pub proof fn law_average_at_most(weight: Weight, history: Seq<Option<u128>>, high: nat)
    requires
        weight.wf(),
        forall|i: int|
            0 <= i < history.len() ==> (#[trigger] history[i] matches Some(rtt) ==> rtt <= pow2(
                high,
            )),
    ensures
        average_of(weight, history) matches Some(average) ==> average.units() <= pow2(high + 1)
            * one(),
    decreases history.len(),
{
    if history.len() > 0 {
        let rest = history.drop_last();
        assert(forall|i: int| 0 <= i < rest.len() ==> rest[i] == history[i]);
        law_average_at_most(weight, rest, high);
        law_average_in_range(weight, rest);
        assert(history[history.len() - 1] == history.last());
        if let Some(rtt) = history.last() {
            if let Some(previous) = average_of(weight, rest) {
                lemma_blend_can_be_written(weight, previous.units(), rtt);
                lemma_blend_at_most(weight, previous.units(), rtt, high);
            } else {
                lemma_whole_can_be_written(rtt as nat);
                lemma_whole_between(rtt as nat, 0, high);
                vstd::arithmetic::power2::lemma_pow2_unfold(high + 1);
                assert(pow2(high) * one() <= pow2(high + 1) * one()) by (nonlinear_arith)
                    requires
                        pow2(high) <= pow2(high + 1),
                ;
            }
        }
    }
}

/// Nor does the average fall below half of a power of two that no reply is less than.
pub proof fn law_average_at_least(weight: Weight, history: Seq<Option<u128>>, low: nat)
    requires
        weight.wf(),
        forall|i: int|
            0 <= i < history.len() ==> (#[trigger] history[i] matches Some(rtt) ==> pow2(low + 1)
                <= rtt),
    ensures
        average_of(weight, history) matches Some(average) ==> pow2(low) * one() <= average.units(),
    decreases history.len(),
{
    if history.len() > 0 {
        let rest = history.drop_last();
        assert(forall|i: int| 0 <= i < rest.len() ==> rest[i] == history[i]);
        law_average_at_least(weight, rest, low);
        law_average_in_range(weight, rest);
        assert(history[history.len() - 1] == history.last());
        if let Some(rtt) = history.last() {
            if let Some(previous) = average_of(weight, rest) {
                lemma_blend_can_be_written(weight, previous.units(), rtt);
                lemma_blend_at_least(weight, previous.units(), rtt, low);
            } else {
                lemma_whole_can_be_written(rtt as nat);
                lemma_whole_between(rtt as nat, low + 1, 0);
                vstd::arithmetic::power2::lemma_pow2_unfold(low + 1);
                assert(pow2(low) * one() <= pow2(low + 1) * one()) by (nonlinear_arith)
                    requires
                        pow2(low) <= pow2(low + 1),
                ;
            }
        }
    }
}

/// Every sample of the one history is a timeout where the other has one, and is otherwise not longer
/// than there.
pub open spec fn not_longer(history: Seq<Option<u128>>, other: Seq<Option<u128>>) -> bool {
    &&& history.len() == other.len()
    &&& forall|i: int|
        0 <= i < history.len() ==> match (#[trigger] history[i], other[i]) {
            (Some(rtt), Some(longer)) => rtt <= longer,
            (None, None) => true,
            _ => false,
        }
}

/// Longer round trips do not give a lesser average.
pub proof fn law_average_keeps_order(
    weight: Weight,
    history: Seq<Option<u128>>,
    other: Seq<Option<u128>>,
)
    requires
        weight.wf(),
        not_longer(history, other),
    ensures
        match (average_of(weight, history), average_of(weight, other)) {
            (Some(average), Some(greater)) => average.units() <= greater.units(),
            (None, None) => true,
            _ => false,
        },
    decreases history.len(),
{
    if history.len() > 0 {
        let rest = history.drop_last();
        let longer = other.drop_last();
        assert(forall|i: int| 0 <= i < rest.len() ==> rest[i] == history[i]);
        assert(forall|i: int| 0 <= i < longer.len() ==> longer[i] == other[i]);
        law_average_keeps_order(weight, rest, longer);
        law_average_in_range(weight, rest);
        law_average_in_range(weight, longer);
        assert(history[history.len() - 1] == history.last());
        if let (Some(a), Some(b)) = (history.last(), other.last()) {
            law_whole_keeps_order(a as nat, b as nat);
            lemma_whole_can_be_written(a as nat);
            lemma_whole_can_be_written(b as nat);
            if let (Some(p), Some(q)) = (average_of(weight, rest), average_of(weight, longer)) {
                lemma_blend_can_be_written(weight, p.units(), a);
                lemma_blend_can_be_written(weight, q.units(), b);
                lemma_blend_keeps_order(weight, p.units(), q.units(), a, b);
            }
        }
    }
}

proof fn lemma_blend_keeps_order(weight: Weight, p: nat, q: nat, a: u128, b: u128)
    requires
        p <= q,
        a <= b,
    ensures
        blend(weight, p, a) <= blend(weight, q, b),
{
    let w = weight.value.units();
    let c = difference(one(), w);
    law_whole_keeps_order(a as nat, b as nat);
    let v = whole(a as nat);
    let u = whole(b as nat);
    assert(w * v <= w * u) by (nonlinear_arith)
        requires
            v <= u,
    ;
    assert(c * p <= c * q) by (nonlinear_arith)
        requires
            p <= q,
    ;
    vstd::arithmetic::power2::lemma_pow2_pos(UNIT_BITS as nat);
    law_rounding_keeps_order(w * v, w * u, one());
    law_rounding_keeps_order(c * p, c * q, one());
    let x = product(w, v) + product(c, p);
    let y = product(w, u) + product(c, q);
    law_rounding_keeps_order(x, y, 1);
}

/// The average after a reply.
pub fn blended(weight: Weight, previous: Double, rtt: u128) -> (average: Double)
    requires
        weight.wf(),
        average_in_range(Some(previous)),
    ensures
        average == double_of(blend(weight, previous.units(), rtt)),
        average.units() == blend(weight, previous.units(), rtt),
        average_in_range(Some(average)),
{
    let value: Double = Double::of_whole(rtt);
    proof {
        lemma_whole_can_be_written(rtt as nat);
        lemma_blend_can_be_written(weight, previous.units(), rtt);
        lemma_shift_at_most(value, 129);
        lemma_shift_at_most(previous, 129);
        lemma_at_most_one(weight.value);
    }
    let newest: Double = weight.value.times(value);
    let other: Double = Double::one().minus(weight.value);
    proof {
        lemma_complement(weight.value.units());
        lemma_at_most_one(other);
    }
    let rest: Double = other.times(previous);
    proof {
        lemma_product_at_most(
            weight.value.mant as nat,
            weight.value.shift as nat,
            value.units(),
            129,
        );
        lemma_product_at_most(other.mant as nat, other.shift as nat, previous.units(), 129);
        assert(weight.value.units() * pow2(129) <= pow2(129) * one()) by (nonlinear_arith)
            requires
                weight.value.units() <= one(),
        ;
        assert(other.units() * pow2(129) <= pow2(129) * one()) by (nonlinear_arith)
            requires
                other.units() <= one(),
        ;
        lemma_shift_at_most(newest, 129);
        lemma_shift_at_most(rest, 129);
    }
    let average: Double = newest.plus(rest);
    proof {
        lemma_double_of_units(average);
    }
    average
}

/// The average after one more sample.
pub fn next_average(weight: Weight, average: Option<Double>, item: Option<u128>) -> (next: Option<
    Double,
>)
    requires
        weight.wf(),
        average_in_range(average),
    ensures
        next == averaged(weight, average, item),
        average_in_range(next),
{
    proof {
        law_step_stays_in_range(weight, average, item);
    }
    match item {
        None => average,
        Some(rtt) => match average {
            None => Some(Double::of_whole(rtt)),
            Some(previous) => Some(blended(weight, previous, rtt)),
        },
    }
}

}
