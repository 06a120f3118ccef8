//! The measurements of one host, and sequences of round trip times.

use vstd::prelude::*;

use crate::double::Double;
#[allow(unused_imports)]
use crate::double::double_of;
#[allow(unused_imports)]
use crate::rounding::whole;
use crate::signed::Signed;

verus! {

/// What came of one ping or one run of a command.
#[derive(Clone, Copy, Debug, PartialEq, Eq, Structural)]
pub struct Sample {
    /// When the outcome was recorded, in milliseconds since the Unix epoch.
    pub at: i64,
    /// The round trip time in microseconds, or nothing after a timeout.
    pub rtt: Option<u128>,
}

/// A point of a plotted line.
#[derive(Clone, Copy, Debug, PartialEq, Eq, Structural)]
pub struct Point {
    /// Position on the X axis, in milliseconds since the Unix epoch.
    pub at: i64,
    /// Level on the Y axis in microseconds, or nothing where the line has a gap.
    pub level: Option<Signed>,
}

/// The level of a reply.
pub open spec fn reply_level(rtt: u128) -> Signed {
    Signed { negative: false, size: double_of(whole(rtt as nat)) }
}

/// The point at which a raw sample is drawn.
pub open spec fn raw_point(sample: Sample) -> Point {
    Point {
        at: sample.at,
        level: match sample.rtt {
            Some(rtt) => Some(reply_level(rtt)),
            None => None,
        },
    }
}

/// The points at which raw samples are drawn.
pub open spec fn raw_points(data: Seq<Sample>) -> Seq<Point> {
    data.map_values(|sample: Sample| raw_point(sample))
}

/// The round trip times among `data`, in the order in which they came.
pub open spec fn replies(data: Seq<Sample>) -> Seq<u128>
    decreases data.len(),
{
    if data.len() == 0 {
        Seq::empty()
    } else {
        match data.last().rtt {
            Some(rtt) => replies(data.drop_last()).push(rtt),
            None => replies(data.drop_last()),
        }
    }
}

/// How many of `data` are timeouts.
pub open spec fn timeouts(data: Seq<Sample>) -> nat
    decreases data.len(),
{
    if data.len() == 0 {
        0
    } else {
        timeouts(data.drop_last()) + (if data.last().rtt is None {
            1nat
        } else {
            0
        })
    }
}

/// The least of `values`.
pub open spec fn least(values: Seq<u128>) -> u128
    recommends
        values.len() > 0,
    decreases values.len(),
{
    if values.len() <= 1 {
        values[0]
    } else {
        let rest = least(values.drop_last());
        if values.last() < rest {
            values.last()
        } else {
            rest
        }
    }
}

/// The greatest of `values`.
pub open spec fn greatest(values: Seq<u128>) -> u128
    recommends
        values.len() > 0,
    decreases values.len(),
{
    if values.len() <= 1 {
        values[0]
    } else {
        let rest = greatest(values.drop_last());
        if values.last() > rest {
            values.last()
        } else {
            rest
        }
    }
}

/// The sum of `values`.
pub open spec fn total(values: Seq<u128>) -> nat
    decreases values.len(),
{
    if values.len() == 0 {
        0
    } else {
        total(values.drop_last()) + values.last() as nat
    }
}

/// Every sample is either a reply or a timeout.
pub proof fn law_samples_are_replies_or_timeouts(data: Seq<Sample>)
    ensures
        replies(data).len() + timeouts(data) == data.len(),
    decreases data.len(),
{
    if data.len() > 0 {
        law_samples_are_replies_or_timeouts(data.drop_last());
    }
}

/// The least and the greatest of some values are among them, and all lie between the two.
pub proof fn lemma_extremes(values: Seq<u128>)
    requires
        values.len() > 0,
    ensures
        values.contains(least(values)),
        values.contains(greatest(values)),
        forall|i: int|
            0 <= i < values.len() ==> least(values) <= #[trigger] values[i] <= greatest(values),
    decreases values.len(),
{
    if values.len() > 1 {
        let rest = values.drop_last();
        lemma_extremes(rest);
        let low = choose|i: int| 0 <= i < rest.len() && rest[i] == least(rest);
        let high = choose|i: int| 0 <= i < rest.len() && rest[i] == greatest(rest);
        assert(values[low] == rest[low]);
        assert(values[high] == rest[high]);
        assert(values[values.len() - 1] == values.last());
        assert forall|i: int| 0 <= i < values.len() implies least(values) <= #[trigger] values[i]
            <= greatest(values) by {
            if i < rest.len() {
                assert(values[i] == rest[i]);
            }
        }
    }
}

/// The only value that is among some values and at most each of them is the least one, and
/// likewise for the greatest.
pub proof fn lemma_extremes_unique(values: Seq<u128>, low: u128, high: u128)
    requires
        values.contains(low),
        values.contains(high),
        forall|i: int| 0 <= i < values.len() ==> low <= #[trigger] values[i] <= high,
    ensures
        low == least(values),
        high == greatest(values),
{
    lemma_extremes(values);
    let i = choose|i: int| 0 <= i < values.len() && values[i] == low;
    let j = choose|j: int| 0 <= j < values.len() && values[j] == high;
    let k = choose|k: int| 0 <= k < values.len() && values[k] == least(values);
    let l = choose|l: int| 0 <= l < values.len() && values[l] == greatest(values);
    assert(low == least(values));
}

/// The sum of some values lies between their number times the least and times the greatest.
pub proof fn lemma_total_between(values: Seq<u128>, low: int, high: int)
    requires
        0 <= low,
        forall|i: int| 0 <= i < values.len() ==> low <= #[trigger] values[i] <= high,
    ensures
        values.len() * low <= total(values) <= values.len() * high,
    decreases values.len(),
{
    if values.len() == 0 {
        assert(0 * low == 0 && 0 * high == 0);
    } else {
        let rest = values.drop_last();
        let n = rest.len() as int;
        assert(forall|i: int| 0 <= i < rest.len() ==> rest[i] == values[i]);
        lemma_total_between(rest, low, high);
        assert((n + 1) * low == n * low + low) by (nonlinear_arith);
        assert((n + 1) * high == n * high + high) by (nonlinear_arith);
    }
}

/// The point at which a raw sample is drawn.
pub fn point_of(sample: Sample) -> (point: Point)
    ensures
        point == raw_point(sample),
        point.level matches Some(level) ==> level.wf(),
{
    let level: Option<Signed> = match sample.rtt {
        Some(rtt) => Some(Signed::of(Double::of_whole(rtt))),
        None => None,
    };
    Point { at: sample.at, level }
}

/// The round trip times among `data`, in the order in which they came.
pub fn reply_values(data: &Vec<Sample>) -> (values: Vec<u128>)
    ensures
        values@ == replies(data@),
{
    let mut values: Vec<u128> = Vec::new();
    let mut i: usize = 0;
    while i < data.len()
        invariant
            i <= data.len(),
            values@ == replies(data@.take(i as int)),
        decreases data.len() - i,
    {
        assert(data@.take(i + 1).drop_last() =~= data@.take(i as int));
        if let Some(rtt) = data[i].rtt {
            values.push(rtt);
        }
        i = i + 1;
    }
    assert(data@.take(i as int) =~= data@);
    values
}

}
