//! The axes of the graph: their bounds and the labels beside them.

use itertools::{Itertools, MinMaxResult};
#[allow(unused_imports)]
use vstd::arithmetic::power2::pow2;
use vstd::prelude::*;

use crate::clock::{local_offset, Moment, FIRST_SECOND, LAST_SECOND};
use crate::double::Double;
#[allow(unused_imports)]
use crate::double::{
    double_of, lemma_double_of_rounded, lemma_first_bit, lemma_shift_at_most,
    lemma_whole_can_be_written, rounded_half_up,
};
#[allow(unused_imports)]
use crate::rounding::{
    excess_bits, law_rounding_keeps_order, law_rounding_settles, law_whole_keeps_order,
    lemma_excess_bits, lemma_mantissa_powers, lemma_product_at_most, lemma_rounded_at_least,
    lemma_rounded_at_most, lemma_rounded_close, lemma_rounded_form, lemma_rounded_scaled,
    lemma_rounded_split, lemma_whole_between, lemma_whole_exact, one, product, quotient, rounded,
    whole, MANTISSA_END, UNIT_BITS,
};
#[allow(unused_imports)]
use crate::samples::{greatest, least, lemma_extremes, lemma_extremes_unique, reply_level};
use crate::signed::Signed;
#[allow(unused_imports)]
use crate::signed::{
    law_signed_rounding_keeps_order, law_signed_rounding_settles, lemma_signed_of_units,
    on_side_of, signed_difference, signed_of, signed_product, signed_quotient, signed_rounded,
    signed_sum, size_of,
};
use crate::text::{duration_debug, time_debug};
#[allow(unused_imports)]
use crate::text::{clock_text, duration_text};

verus! {

/// Smallest range of the Y axis in microseconds, used when a fixed end would otherwise collapse the
/// graph.
pub const MIN_Y_AXIS_SPAN: u128 = 1_000;

/// The greatest shift that a finite number in double precision has.
pub const GREATEST_SHIFT: u32 = 2_045;

/// How many labels stand beside the Y axis.
pub const Y_LABELS: usize = 7;

/// The bounds of the Y axis, in microseconds.
#[derive(Clone, Copy, Debug, PartialEq, Eq, Structural)]
pub struct YBounds {
    /// The bottom of the axis. There is none when no end is fixed and no reply has come.
    pub lower: Option<Signed>,
    /// The top of the axis.
    pub upper: Signed,
}

impl YBounds {
    /// Both ends are there and in order.
    pub open spec fn ordered(self) -> bool {
        self.lower matches Some(lower) && lower.wf() && self.upper.wf() && lower.units()
            <= self.upper.units()
    }

    /// Each end is a number, and hardly farther from zero than it can be fixed.
    pub open spec fn in_range(self) -> bool {
        &&& self.lower matches Some(lower) ==> lower.wf() && lower.size.shift <= GREATEST_SHIFT + 2
        &&& self.upper.wf()
        &&& self.upper.size.shift <= GREATEST_SHIFT + 2
    }
}

/// The bounds of the X axis, in milliseconds since the Unix epoch.
#[derive(Clone, Copy, Debug, PartialEq, Eq, Structural)]
pub struct XBounds {
    pub lower: i64,
    pub upper: i64,
}

/// An end of the Y axis can be fixed at every finite number in double precision.
pub open spec fn can_be_fixed(end: Option<Signed>) -> bool {
    end matches Some(level) ==> level.wf() && level.size.shift <= GREATEST_SHIFT
}

/// The level within the bounds that is nearest to `level`.
pub open spec fn clamped(level: Signed, lower: Signed, upper: Signed) -> Signed {
    if level.units() < lower.units() {
        lower
    } else if level.units() > upper.units() {
        upper
    } else {
        level
    }
}

/// A level pulled inside the bounds.
pub fn clamp_level(level: Signed, lower: Signed, upper: Signed) -> (result: Signed)
    requires
        level.wf(),
        lower.wf(),
        upper.wf(),
        lower.units() <= upper.units(),
    ensures
        result == clamped(level, lower, upper),
        result.wf(),
{
    if level.less_than(lower) {
        lower
    } else if upper.less_than(level) {
        upper
    } else {
        level
    }
}

/// A tenth of a number, in units: ten times the number, divided by a hundred.
pub open spec fn tenth(units: nat) -> nat {
    quotient(product(units, whole(10)), whole(100))
}

/// The bottom that the values give the axis, in units: a tenth below the least of them.
pub open spec fn data_bottom(values: Seq<u128>) -> int {
    let low = whole(least(values) as nat);
    signed_difference(low as int, tenth(low) as int)
}

/// The top that the values give the axis, in units: a tenth above the greatest of them, or 0 without
/// any.
pub open spec fn data_top(values: Seq<u128>) -> int {
    if values.len() == 0 {
        0
    } else {
        let high = whole(greatest(values) as nat);
        signed_sum(high as int, tenth(high) as int)
    }
}

/// The smallest range of the Y axis, in units.
pub open spec fn smallest_span() -> int {
    whole(MIN_Y_AXIS_SPAN as nat) as int
}

/// The bounds of the Y axis. A fixed end stays where it is fixed. A free end comes from the values,
/// but keeps its distance from an end that is fixed. All of it is computed in double precision.
pub open spec fn y_bounds(
    values: Seq<u128>,
    y_min: Option<Signed>,
    y_max: Option<Signed>,
) -> YBounds {
    let top = data_top(values);
    let bottom = data_bottom(values);
    match (y_min, y_max) {
        (Some(min), Some(max)) => YBounds { lower: Some(min), upper: max },
        (Some(min), None) => YBounds {
            lower: Some(min),
            upper: if signed_difference(top, min.units()) < smallest_span() {
                signed_of(signed_sum(min.units(), smallest_span()))
            } else {
                signed_of(top)
            },
        },
        (None, Some(max)) => YBounds {
            lower: if values.len() == 0 || signed_difference(max.units(), bottom)
                < smallest_span() {
                Some(signed_of(signed_difference(max.units(), smallest_span())))
            } else {
                Some(signed_of(bottom))
            },
            upper: max,
        },
        (None, None) => YBounds {
            lower: if values.len() == 0 {
                None
            } else {
                Some(signed_of(bottom))
            },
            upper: signed_of(top),
        },
    }
}

/// The least and the greatest of some values, by how many values there are.
enum Extent {
    NoElements,
    OneElement(u128),
    MinMax(u128, u128),
}

/// `itertools::Itertools::minmax`: nothing of no values, the value of one, and of more the least and
/// the greatest.
#[verifier::external_body]
fn minmax(values: Vec<u128>) -> (extent: Extent)
    ensures
        match extent {
            Extent::NoElements => values@.len() == 0,
            Extent::OneElement(value) => values@ == seq![value],
            Extent::MinMax(low, high) => {
                &&& values@.len() >= 2
                &&& values@.contains(low)
                &&& values@.contains(high)
                &&& forall|i: int| 0 <= i < values@.len() ==> low <= #[trigger] values@[i] <= high
            },
        },
{
    match values.into_iter().minmax() {
        MinMaxResult::NoElements => Extent::NoElements,
        MinMaxResult::OneElement(value) => Extent::OneElement(value),
        MinMaxResult::MinMax(low, high) => Extent::MinMax(low, high),
    }
}

/// The least and the greatest of some values, or nothing without any.
pub fn value_range(values: Vec<u128>) -> (range: Option<(u128, u128)>)
    ensures
        range == (if values@.len() == 0 {
            None
        } else {
            Some((least(values@), greatest(values@)))
        }),
{
    let ghost all = values@;
    match minmax(values) {
        Extent::NoElements => None,
        Extent::OneElement(value) => {
            proof {
                assert(all[0] == value);
            }
            Some((value, value))
        },
        Extent::MinMax(low, high) => {
            proof {
                lemma_extremes_unique(all, low, high);
            }
            Some((low, high))
        },
    }
}

/// A tenth of a number.
fn tenth_of(number: Double) -> (part: Double)
    requires
        number.wf(),
        number.units() <= pow2(129) * one(),
    ensures
        part.wf(),
        part.units() == tenth(number.units()),
        part.shift <= number.shift + 5,
{
    let ten: Double = Double::of_whole(10);
    let hundred: Double = Double::of_whole(100);
    proof {
        vstd::arithmetic::power2::lemma2_to64();
        lemma_whole_between(10, 0, 4);
        lemma_whole_between(100, 0, 7);
        assert(pow2(0) * one() == one());
        lemma_shift_at_most(ten, 4);
        lemma_shift_at_most(hundred, 7);
        lemma_shift_at_most(number, 129);
    }
    number.times(ten).over(hundred)
}

/// The bounds of the Y axis for some values, with the ends that are fixed.
pub fn y_axis_bounds_of(
    values: Vec<u128>,
    y_min: Option<Signed>,
    y_max: Option<Signed>,
) -> (bounds: YBounds)
    requires
        can_be_fixed(y_min),
        can_be_fixed(y_max),
    ensures
        bounds == y_bounds(values@, y_min, y_max),
        bounds.in_range(),
{
    // Both ends are fixed, the values do not get a say.
    if let Some(min) = y_min {
        if let Some(max) = y_max {
            return YBounds { lower: Some(min), upper: max };
        }
    }
    // Add a tenth to the top and the bottom of what the values span.
    let ghost all = values@;
    let (bottom, top): (Option<Signed>, Signed) = match value_range(values) {
        None => {
            let zero: Signed = Signed::of(Double::of_whole(0));
            proof {
                lemma_whole_exact(0);
                lemma_signed_of_units(zero);
                lemma_shift_of_whole(zero.size, 0);
                assert(0 * one() == 0);
            }
            (None, zero)
        },
        Some((low, high)) => {
            let bottom: Double = Double::of_whole(low);
            let top: Double = Double::of_whole(high);
            proof {
                lemma_whole_can_be_written(low as nat);
                lemma_whole_can_be_written(high as nat);
                lemma_shift_of_whole(bottom, low as nat);
                lemma_shift_of_whole(top, high as nat);
            }
            let bottom_tenth: Double = tenth_of(bottom);
            let top_tenth: Double = tenth_of(top);
            (
                Some(Signed::of(bottom).minus(Signed::of(bottom_tenth))),
                Signed::of(top).plus(Signed::of(top_tenth)),
            )
        },
    };
    proof {
        lemma_signed_of_units(top);
        assert(top.units() == data_top(all));
        assert(bottom matches Some(b) ==> b.units() == data_bottom(all));
    }
    // One end is fixed and the other one comes from the values, which may not reach it: keep the
    // free end far enough away to leave a usable graph.
    let span: Signed = Signed::of(Double::of_whole(MIN_Y_AXIS_SPAN));
    proof {
        lemma_shift_of_whole(span.size, MIN_Y_AXIS_SPAN as nat);
    }
    if let Some(min) = y_min {
        let far: bool = !top.minus(min).less_than(span);
        let upper: Signed = if far {
            top
        } else {
            min.plus(span)
        };
        YBounds { lower: Some(min), upper }
    } else if let Some(max) = y_max {
        let lower: Signed = match bottom {
            None => max.minus(span),
            Some(b) => if max.minus(b).less_than(span) {
                max.minus(span)
            } else {
                b
            },
        };
        YBounds { lower: Some(lower), upper: max }
    } else {
        YBounds { lower: bottom, upper: top }
    }
}

proof fn lemma_shift_of_whole(d: Double, n: nat)
    requires
        n <= u128::MAX,
        d.wf(),
        d.units() == whole(n),
    ensures
        d.shift <= 1_151,
{
    lemma_whole_can_be_written(n);
    lemma_shift_at_most(d, 129);
}

/// The level of the label with this number, in units, on an axis with a bottom: the distance between
/// the ends is divided by the number of gaps between labels, and that many steps are added to the
/// bottom, all in double precision.
pub open spec fn label_level(lower: int, upper: int, number: int) -> int {
    let step = signed_quotient(signed_difference(upper, lower), whole((Y_LABELS - 1) as nat));
    signed_sum(lower, signed_product(step, whole(number as nat)))
}

/// A level in whole microseconds, rounded to the nearest, halves up, with 0 for everything below and
/// the greatest number there is for everything beyond.
pub open spec fn shown_micros(level: int) -> u64 {
    if level <= 0 {
        0
    } else {
        rounded_half_up(level as nat)
    }
}

/// What the label with this number says in microseconds, counted from the bottom of the Y axis. An
/// axis without a bottom is labelled with zeros.
pub open spec fn y_label(bounds: YBounds, number: int) -> u64 {
    match bounds.lower {
        None => 0,
        Some(lower) => shown_micros(label_level(lower.units(), bounds.upper.units(), number)),
    }
}

/// The numbers on the labels of the Y axis in microseconds, from the bottom to the top.
pub fn y_label_values(bounds: YBounds) -> (values: Vec<u64>)
    requires
        bounds.in_range(),
    ensures
        values@ == Seq::new(Y_LABELS as nat, |i: int| y_label(bounds, i)),
{
    let mut values: Vec<u64> = Vec::new();
    let mut number: usize = 0;
    while number < Y_LABELS
        invariant
            bounds.in_range(),
            number <= Y_LABELS,
            values@.len() == number,
            forall|j: int| 0 <= j < number ==> values@[j] == y_label(bounds, j),
        decreases Y_LABELS - number,
    {
        let value: u64 = match bounds.lower {
            None => 0,
            Some(lower) => {
                let gaps: Double = Double::of_whole((Y_LABELS - 1) as u128);
                let steps: Double = Double::of_whole(number as u128);
                proof {
                    vstd::arithmetic::power2::lemma2_to64();
                    lemma_shift_of_whole(gaps, 6);
                    lemma_shift_of_whole(steps, number as nat);
                    lemma_whole_between(6, 0, 3);
                    lemma_whole_between(number as nat, 0, 4);
                    assert(pow2(0) * one() == one());
                }
                let step: Signed = bounds.upper.minus(lower).over(gaps);
                let level: Signed = lower.plus(step.times(steps));
                proof {
                    lemma_signed_of_units(level);
                }
                if level.negative {
                    0
                } else {
                    proof {
                        lemma_nothing_is_shown(level.units());
                    }
                    level.size.to_whole().1
                }
            },
        };
        values.push(value);
        number = number + 1;
    }
    assert(values@ =~= Seq::new(Y_LABELS as nat, |i: int| y_label(bounds, i)));
    values
}

pub(crate) proof fn lemma_nothing_is_shown(level: int)
    requires
        level >= 0,
    ensures
        shown_micros(level) == rounded_half_up(level as nat),
{
    vstd::arithmetic::power2::lemma_pow2_pos(UNIT_BITS as nat);
    if level == 0 {
        vstd::arithmetic::div_mod::lemma_fundamental_div_mod_converse(
            one() as int,
            2 * one() as int,
            0,
            one() as int,
        );
    }
}

/// The labels beside the Y axis, from the bottom to the top.
pub fn y_label_texts(bounds: YBounds) -> (labels: Vec<String>)
    requires
        bounds.in_range(),
    ensures
        labels@.map_values(|label: String| label@) == Seq::new(
            Y_LABELS as nat,
            |i: int| duration_text(y_label(bounds, i)),
        ),
{
    let values: Vec<u64> = y_label_values(bounds);
    let mut labels: Vec<String> = Vec::new();
    let mut i: usize = 0;
    while i < values.len()
        invariant
            i <= values.len(),
            values@ == Seq::new(Y_LABELS as nat, |i: int| y_label(bounds, i)),
            labels@.len() == i,
            forall|j: int|
                0 <= j < i ==> (#[trigger] labels@[j])@ == duration_text(y_label(bounds, j)),
        decreases values.len() - i,
    {
        labels.push(duration_debug(values[i]));
        i = i + 1;
    }
    assert(labels@.map_values(|label: String| label@) =~= Seq::new(
        Y_LABELS as nat,
        |i: int| duration_text(y_label(bounds, i)),
    ));
    labels
}

/// The calendar has the end of the stretch of time that the graph shows first.
pub open spec fn stretch_fits(started: Moment, interval: i64) -> bool {
    &&& started.wf()
    &&& 0 <= interval
    &&& started.milliseconds() + interval <= LAST_SECOND * 1_000 + 999
}

/// The bounds of the X axis at the instant `now`. They stand still until the graph is full, and move
/// along with time after that.
pub open spec fn x_bounds(started: Moment, interval: i64, now: Moment) -> XBounds {
    if now.nanoseconds() - started.nanoseconds() < interval * 1_000_000 {
        XBounds {
            lower: started.milliseconds() as i64,
            upper: (started.milliseconds() + interval) as i64,
        }
    } else {
        XBounds {
            lower: (now.milliseconds() - interval) as i64,
            upper: now.milliseconds() as i64,
        }
    }
}

/// The bounds of the X axis at the instant `now`, on a graph that was started at `started` and shows
/// `interval` milliseconds.
pub fn x_axis_bounds_of(started: Moment, interval: i64, now: Moment) -> (bounds: XBounds)
    requires
        stretch_fits(started, interval),
        now.wf(),
    ensures
        bounds == x_bounds(started, interval, now),
{
    let started_nanos: i128 = started.secs as i128 * 1_000_000_000 + started.nanos as i128;
    let now_nanos: i128 = now.secs as i128 * 1_000_000_000 + now.nanos as i128;
    if now_nanos - started_nanos < interval as i128 * 1_000_000 {
        let lower: i64 = started.timestamp_millis();
        XBounds { lower, upper: lower + interval }
    } else {
        let upper: i64 = now.timestamp_millis();
        XBounds { lower: upper - interval, upper }
    }
}

/// Milliseconds as whole seconds, rounded towards zero.
pub open spec fn whole_seconds(millis: int) -> int {
    if millis >= 0 {
        millis / 1_000
    } else {
        -((-millis) / 1_000)
    }
}

/// The calendar has this second.
pub open spec fn in_calendar(second: int) -> bool {
    FIRST_SECOND <= second <= LAST_SECOND
}

/// The calendar has both ends of the X axis.
pub open spec fn has_labels(bounds: XBounds) -> bool {
    &&& in_calendar(whole_seconds(bounds.lower as int))
    &&& in_calendar(whole_seconds(bounds.upper as int))
}

/// The instants that the X axis is labelled with: its ends in whole seconds, and the instant halfway
/// between these.
pub open spec fn label_moments(bounds: XBounds) -> Seq<Moment> {
    let lower = whole_seconds(bounds.lower as int);
    let upper = whole_seconds(bounds.upper as int);
    seq![
        Moment { secs: lower as i64, nanos: 0 },
        Moment {
            secs: ((lower + upper) / 2) as i64,
            nanos: if (lower + upper) % 2 == 0 {
                0
            } else {
                500_000_000
            },
        },
        Moment { secs: upper as i64, nanos: 0 },
    ]
}

/// The time of day at an instant, for an offset of local time from UTC.
pub open spec fn local_time_text(moment: Moment, offset: i32) -> Seq<char> {
    clock_text(((moment.secs + offset) % 86_400) as nat, moment.nanos as nat)
}

/// The offsets are possible ones.
pub open spec fn possible_offsets(offsets: Seq<i32>) -> bool {
    &&& offsets.len() == 3
    &&& forall|i: int| 0 <= i < 3 ==> -86_400 < #[trigger] offsets[i] < 86_400
}

/// The offsets are what was asked for at these instants, each at its own.
pub closed spec fn zone_offsets(moments: Seq<Moment>, offsets: Seq<i32>) -> bool {
    forall|i: int|
        0 <= i < 3 ==> call_ensures(
            local_offset,
            (moments[i].secs, moments[i].nanos),
            #[trigger] offsets[i],
        )
}

/// Each of three offsets has been asked for at its own instant.
pub(crate) proof fn law_offsets_are_asked_for(moments: Seq<Moment>, offsets: Seq<i32>, i: int)
    requires
        zone_offsets(moments, offsets),
        i == 0 || i == 1 || i == 2,
    ensures
        call_ensures(local_offset, (moments[i].secs, moments[i].nanos), offsets[i]),
{
}

/// What the labels of the X axis say, for the offsets of local time at the instants they stand for.
pub open spec fn x_labels(bounds: XBounds, offsets: Seq<i32>) -> Seq<Seq<char>> {
    Seq::new(3, |i: int| local_time_text(label_moments(bounds)[i], offsets[i]))
}

/// Milliseconds as whole seconds, rounded towards zero.
fn truncated_seconds(millis: i64) -> (seconds: i64)
    ensures
        seconds == whole_seconds(millis as int),
{
    let wide: i128 = millis as i128;
    if wide >= 0 {
        (wide / 1_000) as i64
    } else {
        (-((-wide) / 1_000)) as i64
    }
}

/// The instants that the X axis is labelled with.
pub fn x_label_moments(bounds: XBounds) -> (moments: Vec<Moment>)
    requires
        has_labels(bounds),
    ensures
        moments@ == label_moments(bounds),
        forall|i: int| 0 <= i < moments.len() ==> (#[trigger] moments@[i]).wf(),
{
    let lower: i64 = truncated_seconds(bounds.lower);
    let upper: i64 = truncated_seconds(bounds.upper);
    let sum: i64 = lower + upper;
    let middle: i64 = if sum >= 0 {
        sum / 2
    } else {
        -((1 - sum) / 2)
    };
    let nanos: u32 = if sum - 2 * middle == 0 {
        0
    } else {
        500_000_000
    };
    let mut moments: Vec<Moment> = Vec::new();
    moments.push(Moment { secs: lower, nanos: 0 });
    moments.push(Moment { secs: middle, nanos });
    moments.push(Moment { secs: upper, nanos: 0 });
    assert(moments@ =~= label_moments(bounds));
    moments
}

/// The second of the day at an instant, for an offset of local time from UTC.
fn second_of_day(secs: i64, offset: i32) -> (second: u32)
    requires
        in_calendar(secs as int),
        -86_400 < offset < 86_400,
    ensures
        second == (secs + offset) % 86_400,
        second < 86_400,
{
    // A whole number of days later, so that no instant lies before the epoch.
    let shifted: i64 = secs + offset as i64 + 96_465_293 * 86_400;
    (shifted % 86_400) as u32
}

/// The labels of the X axis, for the offsets in seconds of local time from UTC at the instants that
/// the labels stand for.
pub fn x_label_texts_at(bounds: XBounds, offsets: &Vec<i32>) -> (labels: Vec<String>)
    requires
        has_labels(bounds),
        possible_offsets(offsets@),
    ensures
        labels@.map_values(|label: String| label@) == x_labels(bounds, offsets@),
{
    let moments: Vec<Moment> = x_label_moments(bounds);
    let mut labels: Vec<String> = Vec::new();
    let mut i: usize = 0;
    while i < 3
        invariant
            i <= 3,
            possible_offsets(offsets@),
            moments@ == label_moments(bounds),
            forall|j: int| 0 <= j < 3 ==> (#[trigger] moments@[j]).wf(),
            labels@.len() == i,
            forall|j: int|
                0 <= j < i ==> (#[trigger] labels@[j])@ == local_time_text(
                    label_moments(bounds)[j],
                    offsets@[j],
                ),
        decreases 3 - i,
    {
        let moment: Moment = moments[i];
        let seconds: u32 = second_of_day(moment.secs, offsets[i]);
        labels.push(time_debug(seconds, moment.nanos));
        i = i + 1;
    }
    assert(labels@.map_values(|label: String| label@) =~= x_labels(bounds, offsets@));
    labels
}

/// The labels of the X axis in local time. Which time that is depends on the machine's time zone.
pub fn x_label_texts(bounds: XBounds) -> (labels: Vec<String>)
    requires
        has_labels(bounds),
    ensures
        exists|offsets: Seq<i32>|
            possible_offsets(offsets) && zone_offsets(label_moments(bounds), offsets)
                && labels@.map_values(|label: String| label@) == #[trigger] x_labels(
                bounds,
                offsets,
            ),
{
    let moments: Vec<Moment> = x_label_moments(bounds);
    let mut offsets: Vec<i32> = Vec::new();
    let mut i: usize = 0;
    while i < moments.len()
        invariant
            i <= moments.len(),
            moments.len() == 3,
            forall|j: int| 0 <= j < 3 ==> (#[trigger] moments@[j]).wf(),
            offsets@.len() == i,
            forall|j: int|
                0 <= j < i ==> call_ensures(
                    local_offset,
                    (moments@[j].secs, moments@[j].nanos),
                    #[trigger] offsets@[j],
                ),
            forall|j: int| 0 <= j < i ==> -86_400 < #[trigger] offsets@[j] < 86_400,
        decreases moments.len() - i,
    {
        let moment: Moment = moments[i];
        offsets.push(local_offset(moment.secs, moment.nanos));
        i = i + 1;
    }
    x_label_texts_at(bounds, &offsets)
}

/// Whatever the values, an end that is fixed stays where it is fixed.
pub proof fn law_fixed_ends_are_honoured(
    values: Seq<u128>,
    y_min: Option<Signed>,
    y_max: Option<Signed>,
)
    ensures
        y_min is Some ==> y_bounds(values, y_min, y_max).lower == y_min,
        y_max matches Some(max) ==> y_bounds(values, y_min, y_max).upper == max,
{
}

/// With both ends fixed the values do not get a say.
pub proof fn law_both_fixed_ends_settle_the_axis(
    one: Seq<u128>,
    other: Seq<u128>,
    min: Signed,
    max: Signed,
)
    ensures
        y_bounds(one, Some(min), Some(max)) == y_bounds(other, Some(min), Some(max)),
{
}

/// What rounding gives can be written, as long as it is not far too great.
pub(crate) proof fn lemma_written(x: int, limit: nat)
    requires
        size_of(x) <= pow2(limit),
        limit <= 10_000,
    ensures
        signed_of(signed_rounded(x)).wf(),
        signed_of(signed_rounded(x)).units() == signed_rounded(x),
        signed_rounded(signed_rounded(x)) == signed_rounded(x),
        size_of(signed_rounded(x)) <= pow2(limit),
{
    lemma_rounded_at_most(size_of(x), 1, 1, limit);
    lemma_double_of_rounded(size_of(x), 1, limit);
    law_rounding_settles(size_of(x), 1);
    let size = rounded(size_of(x), 1);
    let d = double_of(size);
    if d.mant == 0 {
        assert(0 * pow2(d.shift as nat) == 0);
    }
}

/// A tenth of a number is not greater than the number.
pub(crate) proof fn lemma_tenth_at_most(m: nat, k: nat)
    requires
        m < MANTISSA_END,
    ensures
        tenth(m * pow2(k)) <= m * pow2(k),
{
    let units = m * pow2(k);
    vstd::arithmetic::power2::lemma2_to64();
    vstd::arithmetic::power2::lemma_pow2_pos(UNIT_BITS as nat);
    lemma_whole_exact(10);
    lemma_whole_exact(100);
    assert(10 * one() <= pow2(4) * one());
    lemma_product_at_most(m, k, whole(10), 4);
    let tens = product(units, whole(10));
    assert(tens * one() <= units * (100 * one())) by (nonlinear_arith)
        requires
            tens <= units * 16,
    ;
    lemma_rounded_at_most(tens * one(), 100 * one(), m, k);
}

/// Where the values put the ends of the axis.
pub(crate) proof fn lemma_data_ends(values: Seq<u128>)
    ensures
        signed_of(data_top(values)).wf(),
        signed_of(data_top(values)).units() == data_top(values),
        signed_rounded(data_top(values)) == data_top(values),
        size_of(data_top(values)) <= pow2(2_000),
        values.len() > 0 ==> {
            &&& signed_of(data_bottom(values)).wf()
            &&& signed_of(data_bottom(values)).units() == data_bottom(values)
            &&& signed_rounded(data_bottom(values)) == data_bottom(values)
            &&& 0 <= data_bottom(values) <= whole(least(values) as nat)
            &&& size_of(data_bottom(values)) <= pow2(2_000)
            &&& whole(greatest(values) as nat) <= data_top(values)
        },
{
    if values.len() == 0 {
        vstd::arithmetic::power2::lemma_pow2_pos(2_000);
        lemma_nothing();
        lemma_written(0, 2_000);
    } else {
        let low = whole(least(values) as nat);
        let high = whole(greatest(values) as nat);
        let (m, k) = lemma_rounded_form(least(values) as nat * one(), 1);
        let (n, l) = lemma_rounded_form(greatest(values) as nat * one(), 1);
        lemma_tenth_at_most(m, k);
        lemma_tenth_at_most(n, l);
        lemma_rounded_at_most((low - tenth(low)) as nat, 1, m, k);
        lemma_rounded_at_least(high + tenth(high), 1, n, l);
        lemma_whole_can_be_written(least(values) as nat);
        lemma_whole_can_be_written(greatest(values) as nat);
        vstd::arithmetic::power2::lemma_pow2_adds(128, UNIT_BITS as nat);
        vstd::arithmetic::power2::lemma_pow2_strictly_increases(128 + UNIT_BITS as nat, 1_999);
        vstd::arithmetic::power2::lemma_pow2_unfold(2_000);
        lemma_written(low - tenth(low), 2_000);
        lemma_written((high + tenth(high)) as int, 2_000);
    }
}

pub(crate) proof fn lemma_nothing()
    ensures
        signed_rounded(0) == 0,
        smallest_span() == 1_000 * one(),
        smallest_span() > 0,
        one() > 0,
{
    assert(0 * pow2(0) * 1 == 0);
    lemma_rounded_at_most(0, 1, 0, 0);
    lemma_whole_exact(1_000);
    vstd::arithmetic::power2::lemma_pow2_pos(UNIT_BITS as nat);
}

/// An end that is fixed, and what lies the smallest range beyond it, can be written.
pub(crate) proof fn lemma_fixed_end(end: Signed)
    requires
        can_be_fixed(Some(end)),
    ensures
        signed_rounded(end.units()) == end.units(),
        signed_of(signed_sum(end.units(), smallest_span())).wf(),
        signed_of(signed_sum(end.units(), smallest_span())).units() == signed_sum(
            end.units(),
            smallest_span(),
        ),
        signed_of(signed_difference(end.units(), smallest_span())).wf(),
        signed_of(signed_difference(end.units(), smallest_span())).units() == signed_difference(
            end.units(),
            smallest_span(),
        ),
{
    lemma_signed_of_units(end);
    law_signed_rounding_settles(end);
    lemma_nothing();
    let shift = end.size.shift as nat;
    lemma_first_bit(end.size);
    if shift < GREATEST_SHIFT {
        vstd::arithmetic::power2::lemma_pow2_strictly_increases(
            53 + shift,
            53 + GREATEST_SHIFT as nat,
        );
    }
    vstd::arithmetic::power2::lemma2_to64();
    vstd::arithmetic::power2::lemma_pow2_adds(10, UNIT_BITS as nat);
    vstd::arithmetic::power2::lemma_pow2_strictly_increases(
        10 + UNIT_BITS as nat,
        53 + GREATEST_SHIFT as nat,
    );
    vstd::arithmetic::power2::lemma_pow2_unfold(54 + GREATEST_SHIFT as nat);
    lemma_written(end.units() + smallest_span(), 54 + GREATEST_SHIFT as nat);
    lemma_written(end.units() - smallest_span(), 54 + GREATEST_SHIFT as nat);
}

/// With any end fixed, and two fixed ends in order, points can be clamped to the axis.
pub proof fn law_fixed_axis_can_clamp(
    values: Seq<u128>,
    y_min: Option<Signed>,
    y_max: Option<Signed>,
)
    requires
        can_be_fixed(y_min),
        can_be_fixed(y_max),
        y_min is Some || y_max is Some,
        y_min matches Some(min) ==> y_max matches Some(max) ==> min.units() <= max.units(),
    ensures
        y_bounds(values, y_min, y_max).ordered(),
{
    lemma_nothing();
    lemma_data_ends(values);
    match (y_min, y_max) {
        (Some(min), None) => {
            lemma_fixed_end(min);
            law_signed_rounding_keeps_order(min.units(), min.units() + smallest_span());
            let gap = data_top(values) - min.units();
            if gap < 0 {
                law_signed_rounding_keeps_order(gap, 0);
            }
        },
        (None, Some(max)) => {
            lemma_fixed_end(max);
            law_signed_rounding_keeps_order(max.units() - smallest_span(), max.units());
            let gap = max.units() - data_bottom(values);
            if gap < 0 {
                law_signed_rounding_keeps_order(gap, 0);
            }
        },
        _ => {},
    }
}

/// A free end leaves room for every value: nothing lies above a free top or below a free bottom.
pub proof fn law_free_ends_leave_room(
    values: Seq<u128>,
    y_min: Option<Signed>,
    y_max: Option<Signed>,
)
    requires
        can_be_fixed(y_min),
        can_be_fixed(y_max),
    ensures
        y_max is None ==> forall|i: int|
            0 <= i < values.len() ==> reply_level(#[trigger] values[i]).units() <= y_bounds(
                values,
                y_min,
                y_max,
            ).upper.units(),
        y_min is None && values.len() > 0 ==> (y_bounds(values, y_min, y_max).lower matches Some(
            lower,
        ) && forall|i: int|
            0 <= i < values.len() ==> lower.units() <= reply_level(#[trigger] values[i]).units()),
{
    lemma_nothing();
    lemma_data_ends(values);
    let span = smallest_span();
    if values.len() > 0 {
        lemma_extremes(values);
        assert forall|i: int| 0 <= i < values.len() implies whole(least(values) as nat)
            <= reply_level(#[trigger] values[i]).units() <= whole(greatest(values) as nat) by {
            law_whole_keeps_order(least(values) as nat, values[i] as nat);
            law_whole_keeps_order(values[i] as nat, greatest(values) as nat);
            lemma_whole_can_be_written(values[i] as nat);
        }
        lemma_whole_exact(1_000);
        if let Some(min) = y_min {
            lemma_fixed_end(min);
            let top = data_top(values);
            lemma_span_settles();
            if top - min.units() >= span {
                law_signed_rounding_keeps_order(span, top - min.units());
            } else {
                law_signed_rounding_keeps_order(top, min.units() + span);
            }
        }
        if let Some(max) = y_max {
            lemma_fixed_end(max);
            let bottom = data_bottom(values);
            lemma_span_settles();
            if max.units() - bottom >= span {
                law_signed_rounding_keeps_order(span, max.units() - bottom);
            } else {
                law_signed_rounding_keeps_order(max.units() - span, bottom);
            }
        }
    }
}

pub(crate) proof fn lemma_span_settles()
    ensures
        signed_rounded(smallest_span()) == smallest_span(),
{
    law_rounding_settles(1_000 * one(), 1);
}

/// With a single fixed end the axis always spans a usable range, which falls short of the smallest
/// one by less than a microsecond, as long as the end is at most 2 to the 52nd microseconds. Farther
/// out double precision has too few bits for that.
pub proof fn law_single_fixed_end_leaves_a_range(
    values: Seq<u128>,
    y_min: Option<Signed>,
    y_max: Option<Signed>,
)
    requires
        can_be_fixed(y_min),
        can_be_fixed(y_max),
        y_min is Some <==> y_max is None,
        y_min matches Some(min) ==> min.size.units() <= pow2(52) * one(),
        y_max matches Some(max) ==> max.size.units() <= pow2(52) * one(),
    ensures
        y_bounds(values, y_min, y_max).lower matches Some(lower) && y_bounds(
            values,
            y_min,
            y_max,
        ).upper.units() - lower.units() > (MIN_Y_AXIS_SPAN - 1) * one(),
{
    lemma_nothing();
    lemma_data_ends(values);
    lemma_mantissa_powers();
    assert(pow2(52) * one() == 0x10_0000_0000_0000 * one());
    if let Some(min) = y_min {
        lemma_fixed_end(min);
        lemma_signed_of_units(min);
        lemma_close_to(min.units() + smallest_span());
        lemma_nearly_a_span(data_top(values) - min.units());
    }
    if let Some(max) = y_max {
        lemma_fixed_end(max);
        lemma_signed_of_units(max);
        lemma_close_to(max.units() - smallest_span());
        lemma_nearly_a_span(max.units() - data_bottom(values));
    }
}

/// Up to 2 to the 53rd, rounding moves a number by at most a half.
pub(crate) proof fn lemma_close_to(x: int)
    requires
        size_of(x) < 0x20_0000_0000_0000 * one(),
    ensures
        -one() <= 2 * (signed_rounded(x) - x) <= one(),
{
    let size = size_of(x);
    lemma_mantissa_powers();
    lemma_rounded_close(size, 1);
    let bits = excess_bits(size);
    lemma_excess_bits(size);
    vstd::arithmetic::power2::lemma_pow2_adds(53, UNIT_BITS as nat);
    if bits > UNIT_BITS {
        if 1_127 < 52 + bits {
            vstd::arithmetic::power2::lemma_pow2_strictly_increases(
                53 + UNIT_BITS as nat,
                52 + bits,
            );
        }
    } else if bits < UNIT_BITS {
        vstd::arithmetic::power2::lemma_pow2_strictly_increases(bits, UNIT_BITS as nat);
    }
}

pub(crate) proof fn lemma_nearly_a_span(x: int)
    ensures
        signed_rounded(x) >= smallest_span() ==> x > (MIN_Y_AXIS_SPAN - 1) * one(),
{
    lemma_nothing();
    lemma_whole_exact(999);
    law_rounding_settles(999 * one(), 1);
    let less = 999 * one() as int;
    if x <= less {
        law_signed_rounding_keeps_order(x, less);
    }
}

/// Without a fixed end the axis reaches a tenth below the least and a tenth above the greatest value,
/// exactly so where these are whole tens of microseconds below 2 to the 49th.
pub proof fn law_free_axis_has_a_margin(values: Seq<u128>)
    requires
        values.len() > 0,
        least(values) % 10 == 0,
        greatest(values) % 10 == 0,
        greatest(values) < 0x2_0000_0000_0000,
    ensures
        y_bounds(values, None, None).lower matches Some(lower) && 10 * lower.units() == 9 * least(
            values,
        ) * one(),
        10 * y_bounds(values, None, None).upper.units() == 11 * greatest(values) * one(),
{
    lemma_extremes(values);
    lemma_data_ends(values);
    assert(least(values) <= greatest(values));
    let low = (least(values) / 10) as nat;
    let high = (greatest(values) / 10) as nat;
    lemma_exact_tenth(low);
    lemma_exact_tenth(high);
    assert(10 * (9 * low * one()) == 9 * (10 * low) * one()) by (nonlinear_arith);
    assert(10 * (11 * high * one()) == 11 * (10 * high) * one()) by (nonlinear_arith);
}

pub(crate) proof fn lemma_exact_tenth(n: nat)
    requires
        10 * n < 0x2_0000_0000_0000,
    ensures
        whole(10 * n) == 10 * n * one(),
        tenth(10 * n * one()) == n * one(),
        signed_rounded((9 * n * one()) as int) == 9 * n * one(),
        signed_rounded((11 * n * one()) as int) == 11 * n * one(),
        10 * n * one() - n * one() == 9 * n * one(),
        10 * n * one() + n * one() == 11 * n * one(),
{
    vstd::arithmetic::power2::lemma_pow2_pos(UNIT_BITS as nat);
    lemma_whole_exact(10);
    lemma_whole_exact(100);
    lemma_whole_exact(10 * n);
    lemma_whole_exact(100 * n);
    lemma_whole_exact(9 * n);
    lemma_whole_exact(11 * n);
    lemma_whole_exact(n);
    let u = n * one();
    assert(10 * n * one() == 10 * u) by (nonlinear_arith)
        requires
            u == n * one(),
    ;
    assert(9 * n * one() == 9 * u && 11 * n * one() == 11 * u && 100 * n * one() == 100 * u)
        by (nonlinear_arith)
        requires
            u == n * one(),
    ;
    assert((10 * u) * (10 * one()) == (100 * u) * one()) by (nonlinear_arith);
    lemma_rounded_scaled(100 * u, 1, one());
    assert(1 * one() == one());
    assert(product(10 * u, whole(10)) == 100 * u);
    assert((100 * u) * one() == u * (100 * one())) by (nonlinear_arith);
    lemma_rounded_scaled(u, 1, 100 * one());
    assert(1 * (100 * one()) == 100 * one());
    assert(9 * u >= 0 && 11 * u >= 0);
}

/// The ends of an axis that are whole numbers of microseconds, and not too far from zero.
pub open spec fn whole_ends(bounds: YBounds, lower: int, upper: int) -> bool {
    &&& bounds.lower matches Some(end) && end.units() == lower * one()
    &&& bounds.upper.units() == upper * one()
    &&& -0x8_0000_0000_0000 <= lower <= upper <= 0x8_0000_0000_0000
}

/// The first label stands for the bottom of the axis. The last one stands for its top, at any rate
/// where the ends are whole numbers of microseconds up to 2 to the 51st.
pub proof fn law_y_labels_span_the_axis(bounds: YBounds)
    requires
        bounds.ordered(),
    ensures
        y_label(bounds, 0) == shown_micros(bounds.lower.unwrap().units()),
        (exists|lower: int, upper: int| #[trigger] whole_ends(bounds, lower, upper)) ==> y_label(
            bounds,
            Y_LABELS - 1,
        ) == shown_micros(bounds.upper.units()),
{
    let bottom = bounds.lower.unwrap().units();
    let top = bounds.upper.units();
    lemma_nothing();
    lemma_whole_exact(0);
    assert(0 * one() == 0);
    let step = signed_quotient(signed_difference(top, bottom), whole((Y_LABELS - 1) as nat));
    assert(size_of(step) * 0 == 0);
    assert(0 * pow2(0) * one() == 0);
    lemma_rounded_at_most(0, one(), 0, 0);
    assert(signed_product(step, whole(0)) == 0);
    law_signed_rounding_settles(bounds.lower.unwrap());
    if exists|lower: int, upper: int| #[trigger] whole_ends(bounds, lower, upper) {
        let (lower, upper) = choose|lower: int, upper: int| #[trigger] whole_ends(
            bounds,
            lower,
            upper,
        );
        let gap = (upper - lower) as nat;
        assert(top - bottom == gap * one()) by (nonlinear_arith)
            requires
                top == upper * one(),
                bottom == lower * one(),
                gap == upper - lower,
        ;
        lemma_whole_exact(gap);
        lemma_six_sixths(gap);
        assert(gap * one() >= 0);
        law_signed_rounding_settles(bounds.upper);
    }
}

/// Six times a sixth of a whole number is that number again, in spite of rounding.
proof fn lemma_six_sixths(n: nat)
    requires
        n <= 0x10_0000_0000_0000,
    ensures
        product(quotient(n * one(), whole(6)), whole(6)) == n * one(),
{
    let x = n * one();
    vstd::arithmetic::power2::lemma_pow2_pos(UNIT_BITS as nat);
    lemma_whole_exact(6);
    lemma_rounded_scaled(x, 6, one());
    let step = rounded(x, 6);
    assert(quotient(x, whole(6)) == step);
    assert(step * (6 * one()) == (6 * step) * one()) by (nonlinear_arith);
    lemma_rounded_scaled(6 * step, 1, one());
    assert(1 * one() == one());
    assert(product(step, whole(6)) == rounded(6 * step, 1));
    if n == 0 {
        assert(0 * one() == 0);
        assert(0 * pow2(0) * 6 == 0);
        lemma_rounded_at_most(0, 6, 0, 0);
        assert(0 * pow2(0) * 1 == 0);
        lemma_rounded_at_most(0, 1, 0, 0);
    } else {
        lemma_sixth(n);
    }
}

/// How a sixth of a whole number is rounded: the number is a multiple of 8, in steps of the last bit
/// of its sixth, and six of the rounded sixths are at most two such steps off.
#[verifier::spinoff_prover]
proof fn lemma_sixth(n: nat)
    requires
        0 < n <= 0x10_0000_0000_0000,
    ensures
        rounded(6 * rounded(n * one(), 6), 1) == n * one(),
{
    let x = n * one();
    let bits = excess_bits(x / 6);
    let power = pow2(bits);
    vstd::arithmetic::power2::lemma_pow2_pos(bits);
    lemma_sixth_bits(n);
    let gap = (UNIT_BITS - bits - 3) as nat;
    vstd::arithmetic::power2::lemma_pow2_adds(gap, bits + 3);
    vstd::arithmetic::power2::lemma_pow2_unfold(bits + 3);
    vstd::arithmetic::power2::lemma_pow2_unfold(bits + 2);
    vstd::arithmetic::power2::lemma_pow2_unfold(bits + 1);
    let part = n * pow2(gap);
    assert(x == part * (8 * power)) by (nonlinear_arith)
        requires
            x == n * one(),
            one() == pow2(gap) * (8 * power),
            part == n * pow2(gap),
    ;
    let all = 8 * part;
    assert(x == all * power) by (nonlinear_arith)
        requires
            x == part * (8 * power),
            all == 8 * part,
    ;
    // The sixth, in steps of its last bit.
    let step = power * 6;
    let down = all / 6;
    let left = all % 6;
    let rest = left * power;
    assert(x == down * step + rest) by (nonlinear_arith)
        requires
            x == all * power,
            all == 6 * down + left,
            step == power * 6,
            rest == left * power,
    ;
    assert(left == 0 || left == 2 || left == 4);
    assert(left == 0 ==> rest == 0);
    assert(left == 2 ==> rest == 2 * power);
    assert(left == 4 ==> rest == 4 * power);
    vstd::arithmetic::div_mod::lemma_fundamental_div_mod_converse(
        x as int,
        step as int,
        down as int,
        rest as int,
    );
    let sixth = if left == 4 {
        down + 1
    } else {
        down
    };
    assert(rounded(x, 6) == sixth * power);
    let again = 6 * sixth;
    let y = 6 * (sixth * power);
    assert(y == again * power) by (nonlinear_arith)
        requires
            y == 6 * (sixth * power),
            again == 6 * sixth,
    ;
    assert(again == all || again == all + 2 || again + 2 == all);
    // Where the number itself lies.
    assert(6 * 0x10_0000_0000_0000 <= all) by (nonlinear_arith)
        requires
            6 * (0x10_0000_0000_0000 * power) <= all * power,
            power > 0,
    ;
    assert(all < 6 * 0x20_0000_0000_0000) by (nonlinear_arith)
        requires
            all * power < 6 * (0x20_0000_0000_0000 * power),
            power > 0,
    ;
    lemma_back_to_the_number(part, again, bits);
}

/// Where the last bit of a sixth of a whole number lies.
#[verifier::spinoff_prover]
proof fn lemma_sixth_bits(n: nat)
    requires
        0 < n <= 0x10_0000_0000_0000,
    ensures
        ({
            let x = n * one();
            let bits = excess_bits(x / 6);
            &&& bits > 0
            &&& bits + 3 <= UNIT_BITS
            &&& 6 * (0x10_0000_0000_0000 * pow2(bits)) <= x < 6 * (0x20_0000_0000_0000 * pow2(bits))
        }),
{
    let x = n * one();
    let units = x / 6;
    let bits = excess_bits(units);
    let power = pow2(bits);
    lemma_mantissa_powers();
    lemma_excess_bits(units);
    vstd::arithmetic::power2::lemma_pow2_pos(bits);
    vstd::arithmetic::power2::lemma2_to64();
    vstd::arithmetic::power2::lemma_pow2_adds(52, bits);
    vstd::arithmetic::power2::lemma_pow2_adds(53, bits);
    assert(one() <= x <= 0x10_0000_0000_0000 * one()) by (nonlinear_arith)
        requires
            x == n * one(),
            1 <= n <= 0x10_0000_0000_0000,
    ;
    assert(pow2(53 + bits) == 0x20_0000_0000_0000 * power);
    assert(units < 0x20_0000_0000_0000 * power);
    assert(x < 6 * (0x20_0000_0000_0000 * power));
    if bits == 0 {
        vstd::arithmetic::power2::lemma_pow2_strictly_increases(60, 1_074);
        vstd::arithmetic::power2::lemma2_to64_rest();
        assert(power == 1);
        assert(false);
    }
    assert(pow2(52 + bits) == 0x10_0000_0000_0000 * power);
    assert(6 * (0x10_0000_0000_0000 * power) <= x);
    if bits + 3 > UNIT_BITS {
        vstd::arithmetic::power2::lemma_pow2_unfold(1_074);
        vstd::arithmetic::power2::lemma_pow2_unfold(1_073);
        let quarter = pow2(1_072);
        vstd::arithmetic::power2::lemma_pow2_pos(1_072);
        if bits > 1_072 {
            vstd::arithmetic::power2::lemma_pow2_strictly_increases(1_072, bits);
        }
        assert(quarter <= power);
        assert(one() == 4 * quarter);
        assert(6 * (0x10_0000_0000_0000 * power) >= 6 * (0x10_0000_0000_0000 * quarter));
        assert(0x10_0000_0000_0000 * one() == 4 * (0x10_0000_0000_0000 * quarter));
        assert(false);
    }
}

/// What lies at most two steps beside a number of which the steps are an eighth part is rounded to
/// that number.
#[verifier::spinoff_prover]
proof fn lemma_back_to_the_number(part: nat, again: nat, bits: nat)
    requires
        again == 8 * part || again == 8 * part + 2 || again + 2 == 8 * part,
        6 * 0x10_0000_0000_0000 <= 8 * part < 6 * 0x20_0000_0000_0000,
    ensures
        rounded(again * pow2(bits), 1) == 8 * part * pow2(bits),
{
    let power = pow2(bits);
    let y = again * power;
    vstd::arithmetic::power2::lemma_pow2_pos(bits);
    vstd::arithmetic::power2::lemma_pow2_unfold(bits + 3);
    vstd::arithmetic::power2::lemma_pow2_unfold(bits + 2);
    vstd::arithmetic::power2::lemma_pow2_unfold(bits + 1);
    let two = 2 * power;
    let exact = 8 * part * power;
    assert(y == exact || y == exact + two || y + two == exact) by (nonlinear_arith)
        requires
            y == again * power,
            two == 2 * power,
            exact == 8 * part * power,
            again == 8 * part || again == 8 * part + 2 || again + 2 == 8 * part,
    ;
    if 8 * part < 0x80_0000_0000_0000 {
        // The number has its last bit two places higher up, and an even one.
        let m = 2 * part;
        let step = 4 * power;
        assert(exact == m * step) by (nonlinear_arith)
            requires
                exact == 8 * part * power,
                m == 2 * part,
                step == 4 * power,
        ;
        if y + two == exact {
            let less = (m - 1) as nat;
            assert(y == less * step + two) by (nonlinear_arith)
                requires
                    y + two == m * step,
                    less == m - 1,
                    step == 2 * two,
            ;
            lemma_rounded_split(y, 1, bits + 2, less, two);
            assert(less % 2 == 1);
            assert((less + 1) * step == exact);
        } else {
            lemma_rounded_split(y, 1, bits + 2, m, (y - exact) as nat);
            assert(m % 2 == 0);
        }
    } else {
        // The number has its last bit three places higher up.
        let m = part;
        let step = 8 * power;
        assert(exact == m * step) by (nonlinear_arith)
            requires
                exact == 8 * part * power,
                m == part,
                step == 8 * power,
        ;
        if y + two != exact {
            lemma_rounded_split(y, 1, bits + 3, m, (y - exact) as nat);
        } else if m > 0x10_0000_0000_0000 {
            let less = (m - 1) as nat;
            assert(y == less * step + 6 * power) by (nonlinear_arith)
                requires
                    y + two == m * step,
                    two == 2 * power,
                    less == m - 1,
                    step == 8 * power,
            ;
            lemma_rounded_split(y, 1, bits + 3, less, 6 * power);
            assert((less + 1) * step == exact);
        } else {
            let less = 0x1F_FFFF_FFFF_FFFFnat;
            assert(m == 0x10_0000_0000_0000);
            assert(y == less * (4 * power) + two) by (nonlinear_arith)
                requires
                    y + two == m * step,
                    m == 0x10_0000_0000_0000,
                    step == 8 * power,
                    two == 2 * power,
                    less == 0x1F_FFFF_FFFF_FFFF,
            ;
            lemma_rounded_split(y, 1, bits + 2, less, two);
            assert((less + 1) * (4 * power) == exact) by (nonlinear_arith)
                requires
                    y == less * (4 * power) + two,
                    y + two == exact,
                    two == 2 * power,
            ;
        }
    }
}

/// The labels stand evenly: where the distance between two whole ends can be divided by the number of
/// gaps, each label is one such part farther up than the one before.
pub proof fn law_y_labels_are_even(bounds: YBounds, lower: int, part: int, number: int)
    requires
        bounds.ordered(),
        whole_ends(bounds, lower, lower + (Y_LABELS - 1) * part),
        0 <= number < Y_LABELS,
    ensures
        y_label(bounds, number) == shown_micros((lower + number * part) * one()),
{
    let gap = (6 * part) as nat;
    let bottom = bounds.lower.unwrap().units();
    let top = bounds.upper.units();
    let n = part as nat;
    lemma_nothing();
    assert(top - bottom == gap * one()) by (nonlinear_arith)
        requires
            top == (lower + 6 * part) * one(),
            bottom == lower * one(),
            gap == 6 * part,
    ;
    lemma_whole_exact(gap);
    lemma_whole_exact(6);
    lemma_whole_exact(n);
    lemma_whole_exact(number as nat);
    assert(gap * one() >= 0);
    // A sixth of the distance is a whole number.
    let u = n * one();
    assert((gap * one()) * one() == u * (6 * one())) by (nonlinear_arith)
        requires
            gap == 6 * n,
            u == n * one(),
    ;
    lemma_rounded_scaled(u, 1, 6 * one());
    assert(1 * (6 * one()) == 6 * one());
    assert(quotient(gap * one(), whole(6)) == u);
    // So are some such sixths.
    let k = number as nat;
    let some = k * n;
    assert(some <= 6 * n) by (nonlinear_arith)
        requires
            some == k * n,
            k <= 6,
    ;
    lemma_whole_exact(some);
    assert(u * (k * one()) == (some * one()) * one()) by (nonlinear_arith)
        requires
            u == n * one(),
            some == k * n,
    ;
    lemma_rounded_scaled(some * one(), 1, one());
    assert(1 * one() == one());
    assert(product(u, whole(k)) == some * one());
    // And what they add up to with the bottom.
    let level = lower + number * part;
    assert(number * part == some);
    assert(bottom + some * one() == level * one()) by (nonlinear_arith)
        requires
            bottom == lower * one(),
            level == lower + some,
    ;
    lemma_whole_exact(size_of(level));
    assert(size_of(level * one()) == size_of(level) * one()) by (nonlinear_arith)
        requires
            one() > 0,
    ;
    assert(level * one() < 0 <==> level < 0) by (nonlinear_arith)
        requires
            one() > 0,
    ;
    assert(on_side_of(level * one(), size_of(level * one())) == level * one());
}

/// From one label to the next the axis never goes down.
pub proof fn law_y_labels_ascend(bounds: YBounds, one: int, other: int)
    requires
        bounds.ordered(),
        0 <= one <= other < Y_LABELS,
    ensures
        y_label(bounds, one) <= y_label(bounds, other),
{
    let lower = bounds.lower.unwrap().units();
    let upper = bounds.upper.units();
    let unit = pow2(UNIT_BITS as nat);
    lemma_nothing();
    law_signed_rounding_keeps_order(0, upper - lower);
    let step = signed_quotient(signed_difference(upper, lower), whole((Y_LABELS - 1) as nat));
    law_whole_keeps_order(one as nat, other as nat);
    let a = whole(one as nat);
    let b = whole(other as nat);
    let s = step as nat;
    assert(s * a <= s * b) by (nonlinear_arith)
        requires
            a <= b,
    ;
    law_rounding_keeps_order(s * a, s * b, unit);
    let low = lower + signed_product(step, a);
    let high = lower + signed_product(step, b);
    law_signed_rounding_keeps_order(low, high);
    lemma_shown_keeps_order(signed_rounded(low), signed_rounded(high));
}

proof fn lemma_shown_keeps_order(a: int, b: int)
    requires
        a <= b,
    ensures
        shown_micros(a) <= shown_micros(b),
{
    vstd::arithmetic::power2::lemma_pow2_pos(UNIT_BITS as nat);
    if a > 0 {
        vstd::arithmetic::div_mod::lemma_div_is_ordered(
            2 * a + one(),
            2 * b + one(),
            2 * one() as int,
        );
    }
}

/// The X axis always spans exactly the stretch of time that the graph shows.
pub proof fn law_x_axis_spans_the_interval(started: Moment, interval: i64, now: Moment)
    requires
        stretch_fits(started, interval),
        now.wf(),
    ensures
        x_bounds(started, interval, now).upper - x_bounds(started, interval, now).lower == interval,
{
}

/// From the start on, the present lies on the X axis.
pub proof fn law_x_axis_shows_the_present(started: Moment, interval: i64, now: Moment)
    requires
        stretch_fits(started, interval),
        now.wf(),
        started.nanoseconds() <= now.nanoseconds(),
    ensures
        x_bounds(started, interval, now).lower <= now.milliseconds() <= x_bounds(
            started,
            interval,
            now,
        ).upper,
{
}

/// The X axis never moves back while time moves forward.
pub proof fn law_x_axis_moves_forward(started: Moment, interval: i64, now: Moment, later: Moment)
    requires
        stretch_fits(started, interval),
        now.wf(),
        later.wf(),
        now.nanoseconds() <= later.nanoseconds(),
    ensures
        x_bounds(started, interval, now).lower <= x_bounds(started, interval, later).lower,
        x_bounds(started, interval, now).upper <= x_bounds(started, interval, later).upper,
{
}

/// The X axis can always be labelled.
pub proof fn law_x_axis_has_labels(started: Moment, interval: i64, now: Moment)
    requires
        stretch_fits(started, interval),
        now.wf(),
    ensures
        has_labels(x_bounds(started, interval, now)),
{
}

/// The middle label stands for the instant halfway between the other two.
pub proof fn law_middle_label_is_halfway(bounds: XBounds)
    requires
        has_labels(bounds),
    ensures
        ({
            let moments = label_moments(bounds);
            2 * moments[1].nanoseconds() == moments[0].nanoseconds() + moments[2].nanoseconds()
        }),
{
}

}
