//! What is kept of one host, and how it is plotted.

use ratatui::style::Style;
use vstd::prelude::*;

use crate::axis::{clamp_level, YBounds};
#[allow(unused_imports)]
use crate::axis::clamped;
use crate::clock::{window_millis, Moment};
#[allow(unused_imports)]
use crate::clock::{signed_seconds, LAST_SECOND, SPAN_SECONDS};
use crate::double::Double;
#[allow(unused_imports)]
use crate::double::lemma_whole_can_be_written;
#[allow(unused_imports)]
use crate::rounding::{one, whole};
use crate::samples::{point_of, reply_values, Point, Sample};
#[allow(unused_imports)]
use crate::samples::{
    law_samples_are_replies_or_timeouts, raw_point, raw_points, replies, reply_level, timeouts,
};
use crate::signed::Signed;
use crate::smoothing::{next_average, Weight};
#[allow(unused_imports)]
use crate::smoothing::{
    answered, average_in_range, average_of, averaged, law_extreme_weights, law_step_stays_in_range,
    law_timeouts_leave_the_average,
};
use crate::stats::stats;
#[allow(unused_imports)]
use crate::stats::stats_of;
use crate::text::{decimal_string, duration_debug, joined};
#[allow(unused_imports)]
use crate::text::{decimal, duration_text};

verus! {

/// The declaration of `ratatui::style::Style`, which is carried along and never read.
#[verifier::external_type_specification]
#[verifier::external_body]
pub struct ExStyle(Style);

/// The symbol that a line is drawn with.
#[derive(Clone, Copy, Debug, PartialEq, Eq, Structural)]
pub enum Marker {
    Dot,
    Braille,
}

/// The samples of one host within a window of time, with their moving average when smoothing is on.
pub struct PlotData {
    /// The name that the host is shown under.
    pub display: String,
    /// The samples, oldest first.
    pub data: Vec<Sample>,
    /// The style in which the host is shown.
    pub style: Style,
    /// The length of the window in milliseconds.
    buffer: i64,
    simple_graphics: bool,
    /// Weight given to the newest sample by the moving average, if smoothing is on.
    smoothing: Option<Weight>,
    /// The smoothed counterpart of `data`, kept in step with it. Empty when smoothing is off.
    smoothed: Vec<Point>,
    /// The last average, carried over timeouts.
    average: Option<Double>,
}

/// What a `PlotData` holds.
pub struct PlotModel {
    pub display: Seq<char>,
    pub data: Seq<Sample>,
    pub style: Style,
    pub window: int,
    pub simple_graphics: bool,
    pub smoothing: Option<Weight>,
    pub smoothed: Seq<Point>,
    pub average: Option<Double>,
}

impl View for PlotData {
    type V = PlotModel;

    closed spec fn view(&self) -> PlotModel {
        PlotModel {
            display: self.display@,
            data: self.data@,
            style: self.style,
            window: self.buffer as int,
            simple_graphics: self.simple_graphics,
            smoothing: self.smoothing,
            smoothed: self.smoothed@,
            average: self.average,
        }
    }
}

/// A smoothed point stands where its sample stands, and has a gap where that has a timeout.
pub open spec fn in_step(data: Seq<Sample>, smoothed: Seq<Point>) -> bool {
    &&& smoothed.len() == data.len()
    &&& forall|i: int|
        0 <= i < data.len() ==> (#[trigger] smoothed[i]).at == data[i].at && (smoothed[i].level
            is None <==> data[i].rtt is None)
}

/// How many samples are dropped from the front when those before `earliest` have expired: all that
/// stand before the last expired one, which itself stays.
pub open spec fn expired(data: Seq<Sample>, earliest: int) -> nat
    decreases data.len(),
{
    if data.len() == 0 {
        0
    } else if data.last().at < earliest {
        (data.len() - 1) as nat
    } else {
        expired(data.drop_last(), earliest)
    }
}

impl PlotModel {
    /// The smoothed line is in step with the samples when smoothing is on, and there is none when
    /// it is off.
    pub open spec fn wf(self) -> bool {
        match self.smoothing {
            None => self.smoothed.len() == 0 && self.average is None,
            Some(weight) => {
                &&& weight.wf()
                &&& in_step(self.data, self.smoothed)
                &&& average_in_range(self.average)
                &&& forall|i: int|
                    0 <= i < self.smoothed.len() ==> ((#[trigger] self.smoothed[i]).level matches Some(
                        level,
                    ) ==> level.wf())
            },
        }
    }

    /// The sample that comes of `item` at the time `now`, added at the end.
    pub open spec fn recorded(self, now: i64, item: Option<u128>) -> PlotModel {
        let data = self.data.push(Sample { at: now, rtt: item });
        match self.smoothing {
            None => PlotModel { data, ..self },
            Some(weight) => {
                let average = averaged(weight, self.average, item);
                let level = match (item, average) {
                    (Some(_), Some(micros)) => Some(Signed { negative: false, size: micros }),
                    _ => None,
                };
                PlotModel {
                    data,
                    average,
                    smoothed: self.smoothed.push(Point { at: now, level }),
                    ..self
                }
            },
        }
    }

    /// Without the first `count` samples and smoothed points.
    pub open spec fn trimmed(self, count: nat) -> PlotModel {
        PlotModel {
            data: self.data.skip(count as int),
            smoothed: if self.smoothing is Some {
                self.smoothed.skip(count as int)
            } else {
                self.smoothed
            },
            ..self
        }
    }

    /// After an update at the time `now`: with the new sample, and without what has expired.
    pub open spec fn updated(self, now: i64, item: Option<u128>) -> PlotModel {
        let recorded = self.recorded(now, item);
        recorded.trimmed(expired(recorded.data, now - self.window))
    }

    /// The points that end up on the graph.
    pub open spec fn points(self) -> Seq<Point> {
        if self.smoothing is Some {
            self.smoothed
        } else {
            raw_points(self.data)
        }
    }

    /// The points that end up on the graph, pulled inside the bounds.
    pub open spec fn clamped_points(self, lower: Signed, upper: Signed) -> Seq<Point> {
        self.points().map_values(|point: Point| clamped_point(point, lower, upper))
    }
}

/// A point pulled inside the bounds. A gap stays a gap.
pub open spec fn clamped_point(point: Point, lower: Signed, upper: Signed) -> Point {
    Point {
        at: point.at,
        level: match point.level {
            Some(level) => Some(clamped(level, lower, upper)),
            None => None,
        },
    }
}

/// The lines shown above the graph for one host: its name, and if there has been a reply, the
/// statistics over its samples.
pub open spec fn header_lines(display: Seq<char>, data: Seq<Sample>) -> Seq<Seq<char>> {
    match stats_of(data) {
        None => seq![display],
        Some(s) => seq![
            display,
            "last "@ + duration_text(s.last),
            "min "@ + duration_text(s.min),
            "max "@ + duration_text(s.max),
            "avg "@ + duration_text(s.avg),
            "jtr "@ + duration_text(s.jtr),
            "p95 "@ + duration_text(s.p95),
            "t/o "@ + decimal(timeouts(data)),
        ],
    }
}

proof fn lemma_points_can_be_clamped(plot: PlotModel)
    requires
        plot.wf(),
    ensures
        forall|i: int|
            0 <= i < plot.points().len() ==> ((#[trigger] plot.points()[i]).level matches Some(level)
                ==> level.wf()),
{
    assert forall|i: int| 0 <= i < plot.points().len() implies ((
    #[trigger] plot.points()[i]).level matches Some(level) ==> level.wf()) by {
        if plot.smoothing is None {
            if let Some(rtt) = plot.data[i].rtt {
                lemma_whole_can_be_written(rtt as nat);
            }
        }
    }
}

/// The index of the last sample before `earliest`, or 0 if there is none.
fn expired_count(data: &Vec<Sample>, earliest: i128) -> (count: usize)
    ensures
        count == expired(data@, earliest as int),
        data.len() > 0 ==> count < data.len(),
        data.len() == 0 ==> count == 0,
{
    let mut i: usize = data.len();
    assert(data@.take(i as int) =~= data@);
    while i > 0
        invariant
            i <= data.len(),
            expired(data@, earliest as int) == expired(data@.take(i as int), earliest as int),
        decreases i,
    {
        assert(data@.take(i as int).last() == data@[i - 1]);
        assert(data@.take(i as int).drop_last() =~= data@.take(i - 1));
        if (data[i - 1].at as i128) < earliest {
            return i - 1;
        }
        i = i - 1;
    }
    0
}

impl PlotData {
    /// A host without any sample yet.
    pub fn new(
        display: String,
        buffer: u64,
        style: Style,
        simple_graphics: bool,
        smoothing: Option<Weight>,
    ) -> (plot: PlotData)
        requires
            -SPAN_SECONDS <= signed_seconds(buffer) <= SPAN_SECONDS,
            smoothing matches Some(weight) ==> weight.wf(),
        ensures
            plot@ == (PlotModel {
                display: display@,
                data: Seq::empty(),
                style,
                window: signed_seconds(buffer) * 1_000,
                simple_graphics,
                smoothing,
                smoothed: Seq::empty(),
                average: None,
            }),
            plot@.wf(),
    {
        let window: i64 = window_millis(buffer).unwrap();
        PlotData {
            display,
            data: Vec::with_capacity(150),
            style,
            buffer: window,
            simple_graphics,
            smoothing,
            smoothed: Vec::new(),
            average: None,
        }
    }

    /// Records what came of a ping at the time `now`, in milliseconds since the Unix epoch: a round
    /// trip time in microseconds, or a timeout. Then drops what has left the window.
    pub fn update_at(&mut self, now: i64, item: Option<u128>)
        requires
            old(self)@.wf(),
        ensures
            final(self)@ == old(self)@.updated(now, item),
            final(self)@.wf(),
    {
        let ghost before = self@;
        self.data.push(Sample { at: now, rtt: item });
        if let Some(weight) = self.smoothing {
            self.average = next_average(weight, self.average, item);
            let level: Option<Signed> = match (item, self.average) {
                (Some(_), Some(micros)) => Some(Signed { negative: false, size: micros }),
                _ => None,
            };
            self.smoothed.push(Point { at: now, level });
        }
        let ghost recorded = before.recorded(now, item);
        assert(self@.data =~= recorded.data);
        assert(self@.smoothed =~= recorded.smoothed);
        let earliest: i128 = now as i128 - self.buffer as i128;
        let count: usize = expired_count(&self.data, earliest);
        self.data = self.data.split_off(count);
        if self.smoothing.is_some() {
            self.smoothed = self.smoothed.split_off(count);
        }
        assert(self@.data =~= before.updated(now, item).data);
        assert(self@.smoothed =~= before.updated(now, item).smoothed);
    }

    /// Records what came of a ping just now.
    pub fn update(&mut self, item: Option<u128>)
        requires
            old(self)@.wf(),
        ensures
            exists|now: i64|
                0 <= now <= LAST_SECOND * 1_000 + 999 && final(self)@ == #[trigger] old(
                    self,
                )@.updated(now, item),
            final(self)@.wf(),
    {
        let now: i64 = Moment::now().timestamp_millis();
        self.update_at(now, item);
    }

    /// The points that end up on the graph: the smoothed line when smoothing is on, the raw samples
    /// otherwise. The header always uses the raw samples.
    pub fn plot_points(&self) -> (points: Vec<Point>)
        ensures
            points@ == self@.points(),
    {
        if self.smoothing.is_some() {
            let mut points: Vec<Point> = Vec::new();
            let mut i: usize = 0;
            while i < self.smoothed.len()
                invariant
                    i <= self.smoothed.len(),
                    points@ == self.smoothed@.take(i as int),
                decreases self.smoothed.len() - i,
            {
                points.push(self.smoothed[i]);
                assert(self.smoothed@.take(i as int).push(self.smoothed@[i as int])
                    =~= self.smoothed@.take(i + 1));
                i = i + 1;
            }
            assert(points@ =~= self.smoothed@);
            points
        } else {
            let mut points: Vec<Point> = Vec::new();
            let mut i: usize = 0;
            while i < self.data.len()
                invariant
                    i <= self.data.len(),
                    points@.len() == i,
                    forall|j: int| 0 <= j < i ==> points@[j] == raw_point(self.data@[j]),
                decreases self.data.len() - i,
            {
                points.push(point_of(self.data[i]));
                i = i + 1;
            }
            assert(points@ =~= raw_points(self.data@));
            points
        }
    }

    /// The plotted points with their levels pulled inside the bounds, so that a reply outside of
    /// them stays visible as a line along the top or the bottom of the graph. Gaps stay gaps.
    pub fn clamped_data(&self, bounds: YBounds) -> (points: Vec<Point>)
        requires
            self@.wf(),
            self@.points().len() > 0 ==> bounds.ordered(),
        ensures
            points@ == self@.clamped_points(bounds.lower.unwrap(), bounds.upper),
    {
        let mut points: Vec<Point> = self.plot_points();
        let ghost plotted = points@;
        proof {
            lemma_points_can_be_clamped(self@);
        }
        let ghost lower = bounds.lower.unwrap();
        let ghost upper = bounds.upper;
        let mut i: usize = 0;
        while i < points.len()
            invariant
                i <= points.len(),
                points.len() == plotted.len(),
                plotted.len() > 0 ==> bounds.ordered(),
                forall|j: int|
                    0 <= j < plotted.len() ==> ((#[trigger] plotted[j]).level matches Some(level)
                        ==> level.wf()),
                lower == bounds.lower.unwrap(),
                upper == bounds.upper,
                forall|j: int| 0 <= j < i ==> points@[j] == clamped_point(plotted[j], lower, upper),
                forall|j: int| i <= j < points.len() ==> points@[j] == plotted[j],
            decreases points.len() - i,
        {
            let point: Point = points[i];
            if let Some(bottom) = bounds.lower {
                let level: Option<Signed> = match point.level {
                    Some(level) => Some(clamp_level(level, bottom, bounds.upper)),
                    None => None,
                };
                points.set(i, Point { at: point.at, level });
            }
            i = i + 1;
        }
        assert(points@ =~= self@.clamped_points(lower, upper));
        points
    }

    /// The lines shown above the graph.
    pub fn header_stats(&self) -> (lines: Vec<String>)
        ensures
            lines@.map_values(|line: String| line@) == header_lines(self@.display, self@.data),
    {
        let mut lines: Vec<String> = Vec::new();
        lines.push(self.display.clone());
        if let Some(s) = stats(&self.data) {
            lines.push(joined("last ", duration_debug(s.last).as_str()));
            lines.push(joined("min ", duration_debug(s.min).as_str()));
            lines.push(joined("max ", duration_debug(s.max).as_str()));
            lines.push(joined("avg ", duration_debug(s.avg).as_str()));
            lines.push(joined("jtr ", duration_debug(s.jtr).as_str()));
            lines.push(joined("p95 ", duration_debug(s.p95).as_str()));
            proof {
                law_samples_are_replies_or_timeouts(self.data@);
                assert(self.data@.len() == self.data.len());
            }
            lines.push(joined("t/o ", decimal_string(s.timeouts as u64).as_str()));
        }
        assert(lines@.map_values(|line: String| line@) =~= header_lines(self@.display, self@.data));
        lines
    }

    /// The round trip times in microseconds, oldest first.
    pub fn replies(&self) -> (values: Vec<u128>)
        ensures
            values@ == replies(self@.data),
    {
        reply_values(&self.data)
    }

    /// The symbol that the line is drawn with.
    pub fn marker(&self) -> (marker: Marker)
        ensures
            marker == (if self@.simple_graphics {
                Marker::Dot
            } else {
                Marker::Braille
            }),
    {
        if self.simple_graphics {
            Marker::Dot
        } else {
            Marker::Braille
        }
    }
}

/// Samples stand in the order of time.
pub open spec fn chronological(data: Seq<Sample>) -> bool {
    forall|i: int, j: int| 0 <= i <= j < data.len() ==> data[i].at <= data[j].at
}

/// What is dropped ends just before the last expired sample, and nothing is dropped without one.
pub proof fn law_expired_ends_at_the_last_one(data: Seq<Sample>, earliest: int)
    ensures
        expired(data, earliest) <= data.len(),
        data.len() > 0 ==> expired(data, earliest) < data.len(),
        forall|i: int|
            expired(data, earliest) < i < data.len() ==> (#[trigger] data[i]).at >= earliest,
        expired(data, earliest) > 0 ==> data[expired(data, earliest) as int].at < earliest,
        (exists|i: int| 0 <= i < data.len() && (#[trigger] data[i]).at < earliest)
            ==> data[expired(data, earliest) as int].at < earliest,
    decreases data.len(),
{
    if data.len() > 0 && data.last().at >= earliest {
        let rest = data.drop_last();
        law_expired_ends_at_the_last_one(rest, earliest);
        let count = expired(data, earliest) as int;
        assert forall|i: int| count < i < data.len() implies (#[trigger] data[i]).at
            >= earliest by {
            if i < rest.len() {
                assert(rest[i] == data[i]);
            }
        }
        if exists|i: int| 0 <= i < data.len() && (#[trigger] data[i]).at < earliest {
            let i = choose|i: int| 0 <= i < data.len() && (#[trigger] data[i]).at < earliest;
            assert(rest[i] == data[i]);
        }
    }
}

/// An update never drops the sample that it adds.
pub proof fn law_newest_sample_stays(plot: PlotModel, now: i64, item: Option<u128>)
    ensures
        plot.updated(now, item).data.len() > 0,
        plot.updated(now, item).data.last() == (Sample { at: now, rtt: item }),
{
    law_expired_ends_at_the_last_one(plot.recorded(now, item).data, now - plot.window);
}

/// While time moves forward, the samples stay in the order of time, an update drops none that lies
/// within the window, and of those that remain at most the first lies outside of it.
pub proof fn law_update_keeps_the_window(plot: PlotModel, now: i64, item: Option<u128>)
    requires
        chronological(plot.data),
        plot.data.len() > 0 ==> plot.data.last().at <= now,
    ensures
        chronological(plot.updated(now, item).data),
        ({
            let recorded = plot.recorded(now, item).data;
            let count = expired(recorded, now - plot.window);
            let kept = plot.updated(now, item).data;
            &&& kept == recorded.skip(count as int)
            &&& forall|i: int|
                0 <= i < count ==> (#[trigger] recorded[i]).at < now - plot.window
            &&& forall|i: int|
                1 <= i < kept.len() ==> (#[trigger] kept[i]).at >= now - plot.window
        }),
{
    let recorded = plot.recorded(now, item).data;
    let earliest = now - plot.window;
    let count = expired(recorded, earliest) as int;
    law_expired_ends_at_the_last_one(recorded, earliest);
    assert forall|i: int, j: int| 0 <= i <= j < recorded.len() implies recorded[i].at
        <= recorded[j].at by {
        if j == plot.data.len() && i < j {
            assert(plot.data[i].at <= plot.data[plot.data.len() - 1].at);
        }
    }
    assert forall|i: int| 0 <= i < count implies (#[trigger] recorded[i]).at < earliest by {
        assert(recorded[i].at <= recorded[count].at);
    }
    let kept = plot.updated(now, item).data;
    assert forall|i: int| 1 <= i < kept.len() implies (#[trigger] kept[i]).at >= earliest by {
        assert(kept[i] == recorded[i + count]);
    }
    assert forall|i: int, j: int| 0 <= i <= j < kept.len() implies kept[i].at <= kept[j].at by {
        assert(kept[i] == recorded[i + count]);
        assert(kept[j] == recorded[j + count]);
    }
}

/// The smoothed line stays in step with the samples through every update.
pub proof fn law_update_keeps_step(plot: PlotModel, now: i64, item: Option<u128>)
    requires
        plot.wf(),
    ensures
        plot.updated(now, item).wf(),
        plot.updated(now, item).smoothing == plot.smoothing,
{
    let recorded = plot.recorded(now, item);
    law_expired_ends_at_the_last_one(recorded.data, now - plot.window);
    if let Some(weight) = plot.smoothing {
        law_step_stays_in_range(weight, plot.average, item);
        let count = expired(recorded.data, now - plot.window) as int;
        let after = plot.updated(now, item);
        assert forall|i: int| 0 <= i < after.smoothed.len() implies ((
        #[trigger] after.smoothed[i]).level matches Some(level) ==> level.wf()) by {
            assert(after.smoothed[i] == recorded.smoothed[i + count]);
            if i + count < plot.smoothed.len() {
                assert(recorded.smoothed[i + count] == plot.smoothed[i + count]);
            }
        }
    }
}

/// Whether smoothing is on or off, there is one plotted point for each sample, at its time, with a
/// gap exactly where the sample is a timeout.
pub proof fn law_points_match_samples(plot: PlotModel)
    requires
        plot.wf(),
    ensures
        in_step(plot.data, plot.points()),
{
}

/// A timeout leaves the average as it was and leaves a gap at the end of the plotted line.
pub proof fn law_timeout_freezes_the_average(plot: PlotModel, now: i64)
    requires
        plot.wf(),
    ensures
        plot.updated(now, None).average == plot.average,
        plot.updated(now, None).points().last() == (Point { at: now, level: None }),
{
    law_newest_sample_stays(plot, now, None);
    law_update_keeps_step(plot, now, None);
    let after = plot.updated(now, None);
    law_points_match_samples(after);
    assert(after.points()[after.points().len() - 1].at == now);
}

/// A reply ends the plotted line with the average when smoothing is on, and with the round trip
/// time itself when it is off.
pub proof fn law_reply_is_plotted(plot: PlotModel, now: i64, rtt: u128)
    requires
        plot.wf(),
    ensures
        plot.updated(now, Some(rtt)).points().last() == (Point {
            at: now,
            level: Some(
                if plot.smoothing is Some {
                    Signed { negative: false, size: plot.updated(now, Some(rtt)).average.unwrap() }
                } else {
                    reply_level(rtt)
                },
            ),
        }),
{
    let item = Some(rtt);
    law_newest_sample_stays(plot, now, item);
    law_update_keeps_step(plot, now, item);
    let after = plot.updated(now, item);
    law_points_match_samples(after);
    law_expired_ends_at_the_last_one(plot.recorded(now, item).data, now - plot.window);
}

/// Smoothing has no part in the samples that are kept, and so none in what the header shows.
pub proof fn law_header_ignores_smoothing(plot: PlotModel, now: i64, item: Option<u128>)
    ensures
        ({
            let raw = PlotModel {
                smoothing: None,
                smoothed: Seq::empty(),
                average: None,
                ..plot
            };
            let one = plot.updated(now, item);
            let other = raw.updated(now, item);
            &&& one.data == other.data
            &&& header_lines(one.display, one.data) == header_lines(other.display, other.data)
        }),
{
}

/// After a series of updates, oldest first, each at its time.
pub open spec fn after_updates(plot: PlotModel, updates: Seq<(i64, Option<u128>)>) -> PlotModel
    decreases updates.len(),
{
    if updates.len() == 0 {
        plot
    } else {
        after_updates(plot, updates.drop_last()).updated(updates.last().0, updates.last().1)
    }
}

/// The outcomes in a series of updates.
pub open spec fn outcomes(updates: Seq<(i64, Option<u128>)>) -> Seq<Option<u128>> {
    updates.map_values(|update: (i64, Option<u128>)| update.1)
}

/// From a host without any sample on, the average is that of the whole history, including what has
/// long left the window.
pub proof fn law_average_spans_the_history(
    plot: PlotModel,
    weight: Weight,
    updates: Seq<(i64, Option<u128>)>,
)
    requires
        plot.smoothing == Some(weight),
        plot.average is None,
    ensures
        after_updates(plot, updates).smoothing == Some(weight),
        after_updates(plot, updates).average == average_of(weight, outcomes(updates)),
    decreases updates.len(),
{
    if updates.len() > 0 {
        let rest = updates.drop_last();
        law_average_spans_the_history(plot, weight, rest);
        assert(outcomes(updates).drop_last() =~= outcomes(rest));
    }
}

/// The levels of a line, without its gaps.
pub open spec fn levels(points: Seq<Point>) -> Seq<Signed>
    decreases points.len(),
{
    if points.len() == 0 {
        Seq::empty()
    } else {
        match points.last().level {
            Some(level) => levels(points.drop_last()).push(level),
            None => levels(points.drop_last()),
        }
    }
}

/// The level that is plotted for each reply in a history of samples: that of the average so far when
/// smoothing is on, that of the reply itself when it is off.
pub open spec fn plotted_levels(smoothing: Option<Weight>, history: Seq<Option<u128>>) -> Seq<Signed>
    decreases history.len(),
{
    if history.len() == 0 {
        Seq::empty()
    } else {
        let before = plotted_levels(smoothing, history.drop_last());
        match history.last() {
            None => before,
            Some(rtt) => before.push(
                match smoothing {
                    None => reply_level(rtt),
                    Some(weight) => Signed {
                        negative: false,
                        size: average_of(weight, history).unwrap(),
                    },
                },
            ),
        }
    }
}

/// As long as nothing has been dropped, the plotted line of a host holds the level of each reply in
/// its history.
pub proof fn law_line_follows_the_replies(plot: PlotModel, updates: Seq<(i64, Option<u128>)>)
    requires
        plot.wf(),
        plot.data.len() == 0,
        plot.average is None,
        after_updates(plot, updates).data.len() == updates.len(),
    ensures
        levels(after_updates(plot, updates).points()) == plotted_levels(
            plot.smoothing,
            outcomes(updates),
        ),
    decreases updates.len(),
{
    let after = after_updates(plot, updates);
    lemma_updates_keep_step(plot, updates);
    if updates.len() > 0 {
        let rest = updates.drop_last();
        let before = after_updates(plot, rest);
        let now = updates.last().0;
        let item = updates.last().1;
        lemma_updates_keep_step(plot, rest);
        lemma_at_most_one_sample_each(plot, rest);
        law_expired_ends_at_the_last_one(before.recorded(now, item).data, now - before.window);
        assert(outcomes(updates).drop_last() =~= outcomes(rest));
        assert(outcomes(updates).last() == item);
        law_line_follows_the_replies(plot, rest);
        let recorded = before.recorded(now, item);
        assert(after.data =~= recorded.data);
        assert(after.smoothed =~= recorded.smoothed);
        if let Some(weight) = plot.smoothing {
            law_average_spans_the_history(plot, weight, updates);
        }
        assert(after.points().drop_last() =~= before.points());
        law_points_match_samples(after);
        if let Some(rtt) = item {
            law_reply_is_plotted(before, now, rtt);
        } else {
            law_timeout_freezes_the_average(before, now);
        }
    } else {
        assert(after.points() =~= Seq::empty());
    }
}

proof fn lemma_updates_keep_step(plot: PlotModel, updates: Seq<(i64, Option<u128>)>)
    requires
        plot.wf(),
    ensures
        after_updates(plot, updates).wf(),
        after_updates(plot, updates).smoothing == plot.smoothing,
    decreases updates.len(),
{
    if updates.len() > 0 {
        let rest = updates.drop_last();
        lemma_updates_keep_step(plot, rest);
        law_update_keeps_step(after_updates(plot, rest), updates.last().0, updates.last().1);
    }
}

/// Of each update there is at most one sample.
proof fn lemma_at_most_one_sample_each(plot: PlotModel, updates: Seq<(i64, Option<u128>)>)
    ensures
        after_updates(plot, updates).data.len() <= plot.data.len() + updates.len(),
    decreases updates.len(),
{
    if updates.len() > 0 {
        let rest = updates.drop_last();
        lemma_at_most_one_sample_each(plot, rest);
        let before = after_updates(plot, rest);
        law_expired_ends_at_the_last_one(
            before.recorded(updates.last().0, updates.last().1).data,
            updates.last().0 - before.window,
        );
    }
}

/// The levels that are plotted depend on the replies alone.
proof fn lemma_plotted_levels_of_replies(smoothing: Option<Weight>, history: Seq<Option<u128>>)
    ensures
        plotted_levels(smoothing, history) == plotted_levels(smoothing, answered(history)),
    decreases history.len(),
{
    reveal(Seq::filter);
    if history.len() > 0 {
        let rest = history.drop_last();
        lemma_plotted_levels_of_replies(smoothing, rest);
        if history.last() is Some {
            let kept = answered(rest).push(history.last());
            assert(answered(history) == kept);
            assert(kept.drop_last() =~= answered(rest));
            if let Some(weight) = smoothing {
                law_timeouts_leave_the_average(weight, history);
            }
        } else {
            assert(answered(history) == answered(rest));
        }
    }
}

/// Timeouts leave gaps and nothing else: two hosts that got the same replies, with whatever timeouts
/// in between, have lines with the same levels, as long as nothing has been dropped from either.
pub proof fn law_timeouts_leave_the_line(
    plot: PlotModel,
    updates: Seq<(i64, Option<u128>)>,
    others: Seq<(i64, Option<u128>)>,
)
    requires
        plot.wf(),
        plot.data.len() == 0,
        plot.average is None,
        after_updates(plot, updates).data.len() == updates.len(),
        after_updates(plot, others).data.len() == others.len(),
        answered(outcomes(updates)) == answered(outcomes(others)),
    ensures
        levels(after_updates(plot, updates).points()) == levels(
            after_updates(plot, others).points(),
        ),
{
    law_line_follows_the_replies(plot, updates);
    law_line_follows_the_replies(plot, others);
    lemma_plotted_levels_of_replies(plot.smoothing, outcomes(updates));
    lemma_plotted_levels_of_replies(plot.smoothing, outcomes(others));
}

/// With the whole weight on the newest sample, the plotted line is that of the raw samples.
pub proof fn law_full_weight_plots_the_raw_line(
    plot: PlotModel,
    weight: Weight,
    updates: Seq<(i64, Option<u128>)>,
)
    requires
        plot.wf(),
        plot.data.len() == 0,
        plot.smoothing == Some(weight),
        weight.value.units() == one(),
    ensures
        after_updates(plot, updates).points() == raw_points(after_updates(plot, updates).data),
    decreases updates.len(),
{
    let after = after_updates(plot, updates);
    lemma_updates_keep_step(plot, updates);
    if updates.len() > 0 {
        let rest = updates.drop_last();
        let before = after_updates(plot, rest);
        let now = updates.last().0;
        let item = updates.last().1;
        lemma_updates_keep_step(plot, rest);
        law_full_weight_plots_the_raw_line(plot, weight, rest);
        let recorded = before.recorded(now, item);
        if let Some(rtt) = item {
            if let Some(previous) = before.average {
                law_extreme_weights(weight, previous, rtt);
            }
        }
        assert(recorded.smoothed =~= raw_points(recorded.data)) by {
            assert forall|i: int| 0 <= i < recorded.data.len() implies #[trigger] recorded.smoothed[i]
                == raw_point(recorded.data[i]) by {
                if i < before.data.len() {
                    assert(before.smoothed[i] == raw_points(before.data)[i]);
                }
            }
        }
        law_expired_ends_at_the_last_one(recorded.data, now - before.window);
    }
    assert(after.points() =~= raw_points(after.data));
}

/// Clamping leaves every point at its time, keeps gaps, brings every level inside the bounds, and
/// leaves levels that are inside already as they are.
pub proof fn law_clamping_stays_inside(plot: PlotModel, lower: Signed, upper: Signed)
    requires
        lower.units() <= upper.units(),
    ensures
        plot.clamped_points(lower, upper).len() == plot.points().len(),
        forall|i: int|
            0 <= i < plot.points().len() ==> {
                let before = plot.points()[i];
                let after = #[trigger] plot.clamped_points(lower, upper)[i];
                &&& after.at == before.at
                &&& after.level is None <==> before.level is None
                &&& after.level matches Some(level) ==> lower.units() <= level.units()
                    <= upper.units()
                &&& before.level matches Some(level) ==> lower.units() <= level.units()
                    <= upper.units() ==> after == before
            },
{
}

/// Clamping twice is clamping once.
pub proof fn law_clamping_is_idempotent(point: Point, lower: Signed, upper: Signed)
    requires
        lower.units() <= upper.units(),
    ensures
        clamped_point(clamped_point(point, lower, upper), lower, upper) == clamped_point(
            point,
            lower,
            upper,
        ),
{
}

}
