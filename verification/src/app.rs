//! The graph as a whole, and what happens on each event.

use vstd::prelude::*;
use vstd::string::*;

use crate::axis::{
    x_axis_bounds_of, x_label_texts, y_axis_bounds_of, y_label_texts, XBounds, YBounds,
};
#[allow(unused_imports)]
use crate::axis::{
    can_be_fixed, has_labels, label_moments, law_fixed_axis_can_clamp, possible_offsets,
    stretch_fits, x_bounds, x_labels, y_bounds, y_label, zone_offsets, Y_LABELS,
};
#[allow(unused_imports)]
use crate::clock::SPAN_SECONDS;
use crate::clock::{interval_millis, Moment, FIRST_SECOND, LAST_SECOND};
use crate::plot_data::PlotData;
#[allow(unused_imports)]
use crate::plot_data::PlotModel;
use crate::samples::Point;
#[allow(unused_imports)]
use crate::samples::replies;
use crate::signed::Signed;
#[allow(unused_imports)]
use crate::text::duration_text;

verus! {

/// The graph: one line for each host or command, on common axes.
pub struct App {
    data: Vec<PlotData>,
    /// How many milliseconds the graph shows.
    display_interval: i64,
    /// When the graph was started.
    started: Moment,
    /// Fixed bottom of the Y axis, in microseconds.
    y_min: Option<Signed>,
    /// Fixed top of the Y axis, in microseconds.
    y_max: Option<Signed>,
}

/// What an `App` holds.
pub struct AppModel {
    pub plots: Seq<PlotModel>,
    pub interval: i64,
    pub started: Moment,
    pub y_min: Option<Signed>,
    pub y_max: Option<Signed>,
}

impl View for App {
    type V = AppModel;

    closed spec fn view(&self) -> AppModel {
        AppModel {
            plots: plot_models(self.data@),
            interval: self.display_interval,
            started: self.started,
            y_min: self.y_min,
            y_max: self.y_max,
        }
    }
}

/// What some plots hold.
pub open spec fn plot_models(plots: Seq<PlotData>) -> Seq<PlotModel> {
    plots.map_values(|plot: PlotData| plot@)
}

/// The round trip times on all plots, one plot after the other.
pub open spec fn all_replies(plots: Seq<PlotModel>) -> Seq<u128>
    decreases plots.len(),
{
    if plots.len() == 0 {
        Seq::empty()
    } else {
        all_replies(plots.drop_last()) + replies(plots.last().data)
    }
}

impl AppModel {
    /// Every plot is well formed, the graph was started at an instant that the calendar has, and the
    /// ends of the Y axis are fixed where they can be.
    pub open spec fn wf(self) -> bool {
        &&& forall|i: int| 0 <= i < self.plots.len() ==> (#[trigger] self.plots[i]).wf()
        &&& self.started.wf()
        &&& 0 <= self.interval
        &&& can_be_fixed(self.y_min)
        &&& can_be_fixed(self.y_max)
    }

    /// At least one end of the Y axis is fixed.
    pub open spec fn has_fixed_y_axis(self) -> bool {
        self.y_min is Some || self.y_max is Some
    }

    /// There is nothing to draw.
    pub open spec fn is_blank(self) -> bool {
        forall|i: int| 0 <= i < self.plots.len() ==> (#[trigger] self.plots[i]).points().len() == 0
    }

    /// The bounds of the Y axis.
    pub open spec fn y_bounds(self) -> YBounds {
        y_bounds(all_replies(self.plots), self.y_min, self.y_max)
    }

    /// After an update of one host at the time `now`.
    pub open spec fn updated(self, host: int, now: i64, item: Option<u128>) -> AppModel {
        AppModel { plots: self.plots.update(host, self.plots[host].updated(now, item)), ..self }
    }

    /// The points that are drawn for each host. When the Y axis has a fixed end, what falls outside
    /// of it is pinned to the edge of the graph.
    pub open spec fn drawn(self, bounds: YBounds) -> Seq<Seq<Point>> {
        self.plots.map_values(
            |plot: PlotModel|
                if self.has_fixed_y_axis() {
                    plot.clamped_points(bounds.lower.unwrap(), bounds.upper)
                } else {
                    plot.points()
                },
        )
    }
}

/// What came of a ping or of running a command.
#[derive(Debug)]
pub enum Update {
    /// It took so many microseconds.
    Result(u128),
    /// No answer came, or the command failed.
    Timeout,
    /// Something came that means nothing.
    Unknown,
    /// The program that pings has ended.
    Terminated {
        /// Whether it ended successfully.
        success: bool,
        /// How it ended, as that is shown.
        status: String,
        /// What it wrote to its standard error.
        stderr: String,
    },
}

impl Update {
    /// What came of running a command that took so many microseconds. A command that failed counts
    /// as a timeout.
    pub fn of_command(success: bool, micros: u128) -> (update: Update)
        ensures
            update == (if success {
                Update::Result(micros)
            } else {
                Update::Timeout
            }),
    {
        if success {
            Update::Result(micros)
        } else {
            Update::Timeout
        }
    }

    /// The sample that the update brings, if it brings one: a round trip time, or a timeout.
    pub open spec fn sample(self) -> Option<Option<u128>> {
        match self {
            Update::Result(micros) => Some(Some(micros)),
            Update::Timeout => Some(None),
            Update::Unknown => None,
            Update::Terminated { .. } => None,
        }
    }
}

/// What the program reacts to.
#[derive(Debug)]
pub enum Event {
    /// Something came of a host or command, given by its number.
    Update(usize, Update),
    /// The user ends the program.
    Terminate,
    /// It is time to draw.
    Render,
}

/// What the program does next.
#[derive(Debug)]
pub enum Action {
    /// Wait for the next event.
    Wait,
    /// Draw the graph.
    Draw,
    /// End.
    Stop,
    /// Show a message and end.
    Fail(String),
}

/// The message that is shown when the program that pings has failed.
pub open spec fn failure_text(status: Seq<char>, stderr: Seq<char>) -> Seq<char> {
    "There was an error running ping: "@ + status + "\nStderr: "@ + stderr + "\n"@
}

/// What is done on an event.
pub open spec fn is_reaction(event: Event, action: Action) -> bool {
    match event {
        Event::Update(_, Update::Terminated { success, status, stderr }) => if success {
            action == Action::Stop
        } else {
            action matches Action::Fail(text) && text@ == failure_text(status@, stderr@)
        },
        Event::Update(..) => action == Action::Wait,
        Event::Terminate => action == Action::Stop,
        Event::Render => action == Action::Draw,
    }
}

/// The graph after an event at the time `now`: with the sample that the event brings, if it brings
/// one.
pub open spec fn after_event(app: AppModel, event: Event, now: i64) -> AppModel {
    match event {
        Event::Update(host, update) => match update.sample() {
            Some(item) => app.updated(host as int, now, item),
            None => app,
        },
        _ => app,
    }
}

/// An event that brings a sample names a host that there is.
pub open spec fn fits(event: Event, hosts: nat) -> bool {
    event matches Event::Update(host, update) ==> update.sample() is Some ==> host < hosts
}

impl App {
    /// A graph that was started at `started`, and shows so many seconds.
    pub fn started_at(
        data: Vec<PlotData>,
        buffer: u64,
        started: Moment,
        y_min: Option<Signed>,
        y_max: Option<Signed>,
    ) -> (app: App)
        requires
            buffer <= SPAN_SECONDS,
        ensures
            app@ == (AppModel {
                plots: plot_models(data@),
                interval: (buffer * 1_000) as i64,
                started,
                y_min,
                y_max,
            }),
    {
        let display_interval: i64 = interval_millis(buffer).unwrap();
        App { data, display_interval, started, y_min, y_max }
    }

    /// A graph that starts now, and shows so many seconds.
    pub fn new(
        data: Vec<PlotData>,
        buffer: u64,
        y_min: Option<Signed>,
        y_max: Option<Signed>,
    ) -> (app: App)
        requires
            buffer <= SPAN_SECONDS,
        ensures
            app@ == (AppModel {
                plots: plot_models(data@),
                interval: (buffer * 1_000) as i64,
                started: app@.started,
                y_min,
                y_max,
            }),
            app@.started.wf(),
            app@.started.secs >= 0,
    {
        App::started_at(data, buffer, Moment::now(), y_min, y_max)
    }

    /// Records what came of a host at the time `now`, in milliseconds since the Unix epoch.
    pub fn update_at(&mut self, host_idx: usize, now: i64, item: Option<u128>)
        requires
            old(self)@.wf(),
            host_idx < old(self)@.plots.len(),
        ensures
            final(self)@ == old(self)@.updated(host_idx as int, now, item),
            final(self)@.wf(),
    {
        let ghost before = self@;
        assert(before.plots[host_idx as int].wf());
        self.data[host_idx].update_at(now, item);
        assert(self@.plots =~= before.updated(host_idx as int, now, item).plots);
    }

    /// Records what came of a host just now.
    pub fn update(&mut self, host_idx: usize, item: Option<u128>)
        requires
            old(self)@.wf(),
            host_idx < old(self)@.plots.len(),
        ensures
            exists|now: i64|
                0 <= now <= LAST_SECOND * 1_000 + 999 && final(self)@ == #[trigger] old(
                    self,
                )@.updated(host_idx as int, now, item),
            final(self)@.wf(),
    {
        let now: i64 = Moment::now().timestamp_millis();
        self.update_at(host_idx, now, item);
    }

    /// Whether the user fixed at least one end of the Y axis.
    pub fn has_fixed_y_axis(&self) -> (fixed: bool)
        ensures
            fixed == self@.has_fixed_y_axis(),
    {
        self.y_min.is_some() || self.y_max.is_some()
    }

    /// The bounds of the Y axis.
    pub fn y_axis_bounds(&self) -> (bounds: YBounds)
        requires
            can_be_fixed(self@.y_min),
            can_be_fixed(self@.y_max),
        ensures
            bounds == self@.y_bounds(),
            bounds.in_range(),
    {
        let mut values: Vec<u128> = Vec::new();
        let ghost plots = self@.plots;
        let mut i: usize = 0;
        while i < self.data.len()
            invariant
                i <= self.data.len(),
                plots == plot_models(self.data@),
                values@ == all_replies(plots.take(i as int)),
            decreases self.data.len() - i,
        {
            assert(plots.take(i + 1).drop_last() =~= plots.take(i as int));
            assert(plots.take(i + 1).last() == self.data@[i as int]@);
            let mut more: Vec<u128> = self.data[i].replies();
            values.append(&mut more);
            i = i + 1;
        }
        assert(plots.take(i as int) =~= plots);
        y_axis_bounds_of(values, self.y_min, self.y_max)
    }

    /// Whether the calendar has the end of the stretch of time that the graph shows first. The X axis
    /// has bounds only then.
    pub fn has_x_axis(&self) -> (fits: bool)
        ensures
            fits == stretch_fits(self@.started, self@.interval),
    {
        self.started.secs >= FIRST_SECOND && self.started.secs <= LAST_SECOND && self.started.nanos
            < 1_000_000_000 && self.display_interval >= 0 && self.display_interval
            <= LAST_SECOND * 1_000 + 999 - self.started.timestamp_millis()
    }

    /// The bounds of the X axis at the instant `now`.
    pub fn x_axis_bounds_at(&self, now: Moment) -> (bounds: XBounds)
        requires
            stretch_fits(self@.started, self@.interval),
            now.wf(),
        ensures
            bounds == x_bounds(self@.started, self@.interval, now),
    {
        x_axis_bounds_of(self.started, self.display_interval, now)
    }

    /// The bounds of the X axis.
    pub fn x_axis_bounds(&self) -> (bounds: XBounds)
        requires
            stretch_fits(self@.started, self@.interval),
        ensures
            exists|now: Moment|
                now.wf() && now.secs >= 0 && bounds == #[trigger] x_bounds(
                    self@.started,
                    self@.interval,
                    now,
                ),
    {
        let now: Moment = Moment::now();
        self.x_axis_bounds_at(now)
    }

    /// The labels of the X axis, in local time.
    pub fn x_axis_labels(&self, bounds: XBounds) -> (labels: Vec<String>)
        requires
            has_labels(bounds),
        ensures
            exists|offsets: Seq<i32>|
                possible_offsets(offsets) && zone_offsets(label_moments(bounds), offsets)
                    && labels@.map_values(|label: String| label@) == #[trigger] x_labels(
                    bounds,
                    offsets,
                ),
    {
        x_label_texts(bounds)
    }

    /// The labels of the Y axis.
    pub fn y_axis_labels(&self, bounds: YBounds) -> (labels: Vec<String>)
        requires
            bounds.in_range(),
        ensures
            labels@.map_values(|label: String| label@) == Seq::new(
                Y_LABELS as nat,
                |i: int| duration_text(y_label(bounds, i)),
            ),
    {
        y_label_texts(bounds)
    }

    /// The points that are drawn for each host.
    pub fn drawn_points(&self, bounds: YBounds) -> (drawn: Vec<Vec<Point>>)
        requires
            self@.wf(),
            self@.has_fixed_y_axis() ==> bounds.ordered() || self@.is_blank(),
        ensures
            drawn@.map_values(|points: Vec<Point>| points@) == self@.drawn(bounds),
    {
        let fixed: bool = self.has_fixed_y_axis();
        let mut drawn: Vec<Vec<Point>> = Vec::new();
        let mut i: usize = 0;
        while i < self.data.len()
            invariant
                i <= self.data.len(),
                self@.wf(),
                fixed == self@.has_fixed_y_axis(),
                fixed ==> bounds.ordered() || self@.is_blank(),
                self@.plots == plot_models(self.data@),
                drawn@.len() == i,
                forall|j: int| 0 <= j < i ==> (#[trigger] drawn@[j])@ == self@.drawn(bounds)[j],
            decreases self.data.len() - i,
        {
            assert(self@.plots[i as int] == self.data@[i as int]@);
            if fixed {
                drawn.push(self.data[i].clamped_data(bounds));
            } else {
                drawn.push(self.data[i].plot_points());
            }
            i = i + 1;
        }
        assert(drawn@.map_values(|points: Vec<Point>| points@) =~= self@.drawn(bounds));
        drawn
    }

    /// Takes in an event at the time `now`, in milliseconds since the Unix epoch, and says what to do
    /// next.
    pub fn handle_at(&mut self, event: Event, now: i64) -> (action: Action)
        requires
            old(self)@.wf(),
            fits(event, old(self)@.plots.len()),
        ensures
            is_reaction(event, action),
            final(self)@ == after_event(old(self)@, event, now),
            final(self)@.wf(),
    {
        match event {
            Event::Update(host, update) => match update {
                Update::Result(micros) => {
                    self.update_at(host, now, Some(micros));
                    Action::Wait
                },
                Update::Timeout => {
                    self.update_at(host, now, None);
                    Action::Wait
                },
                Update::Unknown => Action::Wait,
                Update::Terminated { success, status, stderr } => {
                    if success {
                        Action::Stop
                    } else {
                        let mut text: String = "There was an error running ping: ".to_owned();
                        text.append(status.as_str());
                        text.append("\nStderr: ");
                        text.append(stderr.as_str());
                        text.append("\n");
                        Action::Fail(text)
                    }
                },
            },
            Event::Terminate => Action::Stop,
            Event::Render => Action::Draw,
        }
    }

    /// Takes in an event that has just come, and says what to do next.
    pub fn handle(&mut self, event: Event) -> (action: Action)
        requires
            old(self)@.wf(),
            fits(event, old(self)@.plots.len()),
        ensures
            is_reaction(event, action),
            exists|now: i64|
                0 <= now <= LAST_SECOND * 1_000 + 999 && final(self)@ == #[trigger] after_event(
                    old(self)@,
                    event,
                    now,
                ),
            final(self)@.wf(),
    {
        let now: i64 = Moment::now().timestamp_millis();
        self.handle_at(event, now)
    }

    /// The plots.
    pub fn plots(&self) -> (plots: &Vec<PlotData>)
        ensures
            plot_models(plots@) == self@.plots,
    {
        &self.data
    }
}

/// A key that was pressed.
#[derive(Clone, Copy, Debug, PartialEq, Eq, Structural)]
pub enum Key {
    Char(char),
    Esc,
    Other,
}

/// Whether a key ends the program: `q` and escape always do, and `c` does together with the control
/// key and no other.
pub fn ends_program(key: Key, control: bool) -> (ends: bool)
    ensures
        ends == (key == Key::Esc || key == Key::Char('q') || (key == Key::Char('c') && control)),
{
    match key {
        Key::Char(c) => c == 'q' || (c == 'c' && control),
        Key::Esc => true,
        Key::Other => false,
    }
}

/// An event changes nothing but the plot of the host that it is about.
pub proof fn law_events_touch_one_host(app: AppModel, event: Event, now: i64, other: int)
    requires
        fits(event, app.plots.len()),
        0 <= other < app.plots.len(),
        event matches Event::Update(host, _) ==> host != other,
    ensures
        after_event(app, event, now).plots.len() == app.plots.len(),
        after_event(app, event, now).plots[other] == app.plots[other],
        after_event(app, event, now).interval == app.interval,
        after_event(app, event, now).started == app.started,
        after_event(app, event, now).y_min == app.y_min,
        after_event(app, event, now).y_max == app.y_max,
{
}

/// With any end fixed, and two fixed ends in order, whatever has been sampled can be drawn.
pub proof fn law_fixed_axis_can_be_drawn(app: AppModel)
    requires
        app.wf(),
        app.has_fixed_y_axis(),
        app.y_min matches Some(min) ==> app.y_max matches Some(max) ==> min.units() <= max.units(),
    ensures
        app.y_bounds().ordered(),
{
    law_fixed_axis_can_clamp(all_replies(app.plots), app.y_min, app.y_max);
}

/// On an axis with a fixed end, every point is drawn at its level if that lies on the axis, at the
/// bottom of the graph if it is lower, and at the top if it is higher. Gaps stay gaps.
pub proof fn law_points_outside_are_drawn_at_the_edge(app: AppModel, host: int, i: int)
    requires
        app.wf(),
        app.has_fixed_y_axis(),
        app.y_min matches Some(min) ==> app.y_max matches Some(max) ==> min.units() <= max.units(),
        0 <= host < app.plots.len(),
        0 <= i < app.plots[host].points().len(),
    ensures
        ({
            let bounds = app.y_bounds();
            let drawn = app.drawn(bounds)[host];
            let point = app.plots[host].points()[i];
            &&& drawn.len() == app.plots[host].points().len()
            &&& drawn[i].at == point.at
            &&& match point.level {
                None => drawn[i].level is None,
                Some(level) => {
                    let lower = bounds.lower.unwrap();
                    if level.units() < lower.units() {
                        drawn[i].level == bounds.lower
                    } else if level.units() > bounds.upper.units() {
                        drawn[i].level == Some(bounds.upper)
                    } else {
                        drawn[i].level == Some(level)
                    }
                },
            }
        }),
{
    law_fixed_axis_can_be_drawn(app);
}

}
