use gping::app::{App, Action, Event, Key, Update, ends_program};
use gping::axis::{
    value_range, x_axis_bounds_of, x_label_moments, x_label_texts_at, y_axis_bounds_of,
    y_label_values, XBounds, YBounds,
};
use gping::clock::{interval_millis, window_millis, Moment};
use gping::double::Double;
use gping::plot_data::{Marker, PlotData};
use gping::samples::{Point, Sample};
use gping::signed::Signed;
use gping::smoothing::{blended, next_average, Weight};
use ratatui::style::{Color, Style};

fn double(value: f64) -> Double {
    let bits = value.abs().to_bits();
    let fraction = bits & ((1 << 52) - 1);
    match (bits >> 52) as u32 {
        0 => Double { mant: fraction, shift: 0 },
        exponent => Double { mant: fraction | 1 << 52, shift: exponent - 1 },
    }
}

fn signed(value: f64) -> Signed {
    Signed { negative: value < 0.0, size: double(value) }
}

fn bounds(lower: f64, upper: f64) -> YBounds {
    YBounds { lower: Some(signed(lower)), upper: signed(upper) }
}

fn weight(alpha: f64) -> Option<Weight> {
    let weight = Weight::new(double(alpha));
    assert!(weight.is_some());
    weight
}

fn plot(smoothing: Option<Weight>) -> PlotData {
    PlotData::new("test".to_string(), 30, Style::default(), false, smoothing)
}

fn app_with(values: &[u128], y_min: Option<f64>, y_max: Option<f64>) -> App {
    let mut data = plot(None);
    for value in values {
        data.update(Some(*value));
    }
    App::new(vec![data], 30, y_min.map(signed), y_max.map(signed))
}

fn levels(points: &[Point]) -> Vec<Option<Signed>> {
    points.iter().map(|p| p.level).collect()
}

fn generator(mut seed: u64) -> impl FnMut() -> u64 {
    move || {
        seed ^= seed << 13;
        seed ^= seed >> 7;
        seed ^= seed << 17;
        seed
    }
}

#[test]
fn y_axis_bounds_are_taken_from_the_data_by_default() {
    let app = app_with(&[1_000, 2_000], None, None);
    assert_eq!(app.y_axis_bounds(), bounds(900.0, 2_200.0));
}

#[test]
fn y_axis_bounds_honour_both_fixed_ends() {
    let app = app_with(&[1_000, 2_000], Some(8_000.0), Some(50_000.0));
    assert_eq!(app.y_axis_bounds(), bounds(8_000.0, 50_000.0));
}

#[test]
fn y_axis_bounds_keep_a_usable_range_around_a_single_fixed_end() {
    // No data at all: the free end has nothing to derive a bound from.
    assert_eq!(
        app_with(&[], Some(0.0), None).y_axis_bounds(),
        bounds(0.0, 1_000.0)
    );
    assert_eq!(
        app_with(&[], None, Some(50_000.0)).y_axis_bounds(),
        bounds(49_000.0, 50_000.0)
    );
    // Data entirely below the fixed bottom would give an inverted range.
    assert_eq!(
        app_with(&[500], Some(8_000.0), None).y_axis_bounds(),
        bounds(8_000.0, 9_000.0)
    );
}

#[test]
fn y_axis_labels_span_the_whole_axis() {
    let app = app_with(&[], Some(0.0), Some(100_000.0));
    let labels: Vec<String> = app.y_axis_labels(bounds(0.0, 100_000.0));
    assert_eq!(labels.first().unwrap(), "0ns");
    assert_eq!(labels.last().unwrap(), "100ms");
}

#[test]
fn out_of_range_points_are_clamped_to_the_bounds() {
    let mut plot = PlotData::new("test".to_string(), 30, Style::default(), false, None);
    plot.update(Some(500));
    plot.update(None);
    plot.update(Some(80_000));
    let clamped = plot.clamped_data(bounds(8_000.0, 50_000.0));
    assert_eq!(clamped[0].level, Some(signed(8_000.0)));
    assert!(clamped[1].level.is_none());
    assert_eq!(clamped[2].level, Some(signed(50_000.0)));
}

#[test]
fn seven_labels_stand_evenly_beside_the_y_axis() {
    assert_eq!(
        y_label_values(bounds(0.0, 100_000.0)),
        vec![0, 16_667, 33_333, 50_000, 66_667, 83_333, 100_000]
    );
    let app = app_with(&[], None, None);
    assert_eq!(
        app.y_axis_labels(bounds(1_000.0, 7_000.0)),
        vec!["1ms", "2ms", "3ms", "4ms", "5ms", "6ms", "7ms"]
    );
    assert_eq!(app.y_axis_labels(bounds(250.0, 1_450.0))[1], "450µs");
}

#[test]
fn labels_below_zero_and_beyond_the_longest_time_are_cut_off() {
    assert_eq!(
        y_label_values(bounds(-500.0, 700.0)),
        vec![0, 0, 0, 100, 300, 500, 700]
    );
    let far = y_label_values(bounds(0.0, f64::MAX));
    assert_eq!(far[0], 0);
    assert_eq!(far[6], u64::MAX);
    // Half a microsecond is shown as a whole one.
    assert_eq!(y_label_values(bounds(0.5, 0.5))[3], 1);
    assert_eq!(y_label_values(bounds(0.499_999, 0.499_999))[3], 0);
}

#[test]
fn an_axis_without_data_or_fixed_ends_has_no_bottom() {
    let app = app_with(&[], None, None);
    let empty = app.y_axis_bounds();
    assert_eq!(empty, YBounds { lower: None, upper: signed(0.0) });
    assert_eq!(app.y_axis_labels(empty), vec!["0ns"; 7]);
    assert!(!app.has_fixed_y_axis());
    assert!(app_with(&[], None, Some(1.0)).has_fixed_y_axis());
    assert!(app_with(&[], Some(1.0), None).has_fixed_y_axis());
}

#[test]
fn value_ranges() {
    assert_eq!(value_range(vec![]), None);
    assert_eq!(value_range(vec![7]), Some((7, 7)));
    assert_eq!(value_range(vec![7, 7]), Some((7, 7)));
    assert_eq!(value_range(vec![5, 9, 2, 4]), Some((2, 9)));
}

#[test]
fn free_ends_follow_the_data_beyond_the_smallest_range() {
    assert_eq!(y_axis_bounds_of(vec![10_000], Some(signed(100.0)), None), bounds(100.0, 11_000.0));
    assert_eq!(y_axis_bounds_of(vec![10_000], None, Some(signed(50_000.0))), bounds(9_000.0, 50_000.0));
    assert_eq!(y_axis_bounds_of(vec![10_000], None, Some(signed(9_500.0))), bounds(8_500.0, 9_500.0));
    // The bottom may end up below zero.
    assert_eq!(y_axis_bounds_of(vec![], None, Some(signed(500.0))), bounds(-500.0, 500.0));
    // Exactly the smallest range is enough.
    assert_eq!(y_axis_bounds_of(vec![1_000], Some(signed(100.0)), None), bounds(100.0, 1_100.0));
    assert_eq!(
        y_axis_bounds_of(vec![1, 3], None, None),
        bounds(1.0 - 10.0 / 100.0, 3.0 + 30.0 / 100.0)
    );
}

#[test]
fn bounds_come_from_all_plots() {
    let mut one = plot(None);
    one.update_at(1, Some(1_000));
    one.update_at(2, None);
    let mut other = plot(None);
    other.update_at(1, Some(4_000));
    let app = App::new(vec![one, plot(None), other], 30, None, None);
    assert_eq!(app.y_axis_bounds(), bounds(900.0, 4_400.0));
}

#[test]
fn old_samples_leave_the_window_but_for_the_last_of_them() {
    let mut plot = PlotData::new("test".to_string(), 1, Style::default(), false, weight(0.5));
    plot.update_at(0, Some(1));
    plot.update_at(400, Some(2));
    plot.update_at(1_000, Some(3));
    assert_eq!(plot.data.len(), 3);
    plot.update_at(1_400, Some(4));
    // Only the first sample is older than a second, and the last old one stays.
    assert_eq!(plot.data.len(), 4);
    plot.update_at(1_401, None);
    assert_eq!(plot.data[0], Sample { at: 400, rtt: Some(2) });
    assert_eq!(plot.data.len(), 4);
    let times: Vec<i64> = plot.plot_points().iter().map(|p| p.at).collect();
    assert_eq!(times, vec![400, 1_000, 1_400, 1_401]);
    plot.update_at(9_000, Some(5));
    assert_eq!(plot.data, vec![Sample { at: 1_401, rtt: None }, Sample { at: 9_000, rtt: Some(5) }]);
    assert_eq!(plot.plot_points().len(), 2);
}

#[test]
fn a_clock_that_goes_back_drops_everything_before_the_last_old_sample() {
    let mut plot = PlotData::new("test".to_string(), 1, Style::default(), false, None);
    plot.update_at(5_000, Some(1));
    plot.update_at(0, Some(2));
    plot.update_at(5_100, Some(3));
    let times: Vec<i64> = plot.data.iter().map(|s| s.at).collect();
    assert_eq!(times, vec![0, 5_100]);
}

#[test]
fn smoothing_blends_and_timeouts_leave_gaps() {
    let mut plot = plot(weight(0.5));
    plot.update_at(1, None);
    plot.update_at(2, Some(1_000));
    plot.update_at(3, Some(2_000));
    plot.update_at(4, None);
    plot.update_at(5, Some(3_000));
    assert_eq!(
        levels(&plot.plot_points()),
        vec![None, Some(signed(1_000.0)), Some(signed(1_500.0)), None, Some(signed(2_250.0))]
    );
    // The raw samples are kept beside it.
    assert_eq!(plot.data[4], Sample { at: 5, rtt: Some(3_000) });
    assert_eq!(plot.header_stats()[2], "min 1ms");
    assert_eq!(plot.header_stats()[3], "max 3ms");
}

#[test]
fn small_averages_are_kept() {
    let alpha = 1.0 / 2_097_152.0;
    let mut plot = plot(weight(alpha));
    plot.update_at(1, Some(0));
    plot.update_at(2, Some(1));
    assert_eq!(levels(&plot.plot_points()), vec![Some(signed(0.0)), Some(signed(alpha))]);
    // 2 to the power of 1074 - 21 units.
    let average = Double { mant: 1 << 52, shift: 1_001 };
    assert_eq!(plot.plot_points()[1].level, Some(Signed { negative: false, size: average }));
}

#[test]
fn averages_are_those_of_double_precision() {
    let mut random = generator(88_172_645_463_325_252);
    let mut alphas = vec![
        0.0, 1.0, 0.5, 0.1, 0.3, 0.7, 1.0 / 3.0, 1e-9, 1e-15, 1e-16, 1e-17, 1e-300, 5e-324,
        f64::MIN_POSITIVE, 1.0 - f64::EPSILON, 1.0 - f64::EPSILON / 2.0, f64::EPSILON / 2.0,
        f64::EPSILON / 4.0,
    ];
    for _ in 0..200 {
        alphas.push((random() >> 11) as f64 / (1u64 << 53) as f64);
        alphas.push(f64::from_bits(random() % 1f64.to_bits()));
    }
    for alpha in alphas {
        let weight = weight(alpha).unwrap();
        let mut average = None;
        let mut expected: Option<f64> = None;
        for _ in 0..100 {
            let rtt = (random() as u128 * (1 << 20)) >> (random() % 84);
            average = next_average(weight, average, Some(rtt));
            let value = rtt as f64;
            expected = Some(match expected {
                Some(previous) => alpha * value + (1f64 - alpha) * previous,
                None => value,
            });
            assert_eq!(average, expected.map(double), "{alpha} {rtt}");
            assert_eq!(next_average(weight, average, None), average);
        }
    }
}

#[test]
fn one_step_of_the_average() {
    let half = weight(0.5).unwrap();
    assert_eq!(blended(half, double(3.0), 4), double(3.5));
    let tenth = weight(0.1).unwrap();
    assert_eq!(blended(tenth, double(1.0), 2), double(0.1 * 2.0 + (1.0 - 0.1) * 1.0));
    assert_eq!(next_average(half, None, None), None);
    assert_eq!(next_average(half, None, Some(7)), Some(double(7.0)));
}

#[test]
fn operations_are_those_of_double_precision() {
    let values: [f64; 16] = [
        0.0, 5e-324, 1e-310, f64::MIN_POSITIVE, 1e-200, 1e-20, 0.1, 0.5, 1.0 - f64::EPSILON / 2.0,
        1.0, 3.0, 4.0, 1e15, 9_007_199_254_740_993.0, 1e20, 1e100,
    ];
    for a in values {
        for b in values {
            assert_eq!(double(a).times(double(b)), double(a * b), "{a} * {b}");
            assert_eq!(double(a).plus(double(b)), double(a + b), "{a} + {b}");
            assert_eq!(double(a).at_most(double(b)), a <= b);
            if b <= a {
                assert_eq!(double(a).minus(double(b)), double(a - b), "{a} - {b}");
            }
            if b >= 1.0 {
                assert_eq!(double(a).over(double(b)), double(a / b), "{a} / {b}");
                assert_eq!(signed(-a).over(double(b)), signed(-a / b), "-{a} / {b}");
            }
            for (x, y) in [(a, b), (-a, b), (a, -b), (-a, -b)] {
                assert_eq!(signed(x).plus(signed(y)), signed(x + y), "{x} + {y}");
                assert_eq!(signed(x).minus(signed(y)), signed(x - y), "{x} - {y}");
                assert_eq!(signed(x).times(double(y)), signed(x * y.abs()), "{x} * {y}");
                assert_eq!(signed(x).less_than(signed(y)), x < y);
            }
        }
        assert_eq!(double(a).to_whole(), (a as u64, a.round() as u64), "{a}");
        assert_eq!(signed(a).negated(), signed(-a));
    }
    let end = 1 << 53;
    let long = u64::MAX as u128;
    for n in [0, 1, 2, end, end + 1, end + 3, 2 * end + 6, long - 1_024, long, u128::MAX] {
        assert_eq!(Double::of_whole(n), double(n as f64), "{n}");
    }
    let mut random = generator(7);
    for _ in 0..20_000 {
        let a = f64::from_bits(random() >> 2);
        let b = f64::from_bits((random() >> 12) + 1f64.to_bits() + (random() % 60 << 52));
        let c = f64::from_bits((random() >> 12) + 1f64.to_bits() + (random() % 60 << 52));
        assert_eq!(double(a).over(double(b)), double(a / b), "{a} / {b}");
        assert_eq!(double(c).over(double(b)), double(c / b), "{c} / {b}");
        assert_eq!(signed(c).minus(signed(b)), signed(c - b), "{c} - {b}");
        assert_eq!(double(b).times(double(c)), double(b * c), "{b} * {c}");
        assert_eq!(double(b).to_whole(), (b as u64, b.round() as u64), "{b}");
    }
}

/// The bounds and labels of the Y axis, in floating point.
fn y_axis(values: &[u128], y_min: Option<f64>, y_max: Option<f64>) -> ([f64; 2], Vec<u64>) {
    let low = values.iter().min().map_or(f64::INFINITY, |v| *v as f64);
    let high = values.iter().max().map_or(0.0, |v| *v as f64);
    let mut lower = y_min.unwrap_or(low - low * 10.0 / 100.0);
    let mut upper = y_max.unwrap_or(high + high * 10.0 / 100.0);
    match (y_min, y_max) {
        (Some(_), None) if upper - lower < 1_000.0 => upper = lower + 1_000.0,
        (None, Some(_)) if !lower.is_finite() || upper - lower < 1_000.0 => lower = upper - 1_000.0,
        _ => {}
    }
    let step = (upper - lower) / 6.0;
    let labels = (0..7).map(|i| (lower + step * i as f64).max(0.0).round() as u64).collect();
    ([lower, upper], labels)
}

#[test]
fn the_y_axis_is_that_of_double_precision() {
    let mut random = generator(1_234_567);
    for round in 0..20_000 {
        let mut value = || (random() as u128 * (1 << 20)) >> (random() % 84);
        let values: Vec<u128> = (0..round % 4).map(|_| value()).collect();
        let end = |bits: u64| {
            f64::from_bits((bits >> 12) + 0.001f64.to_bits() + (bits % 90 << 52))
        };
        let (one, other) = (end(random()), end(random()));
        let (y_min, y_max) = match random() % 4 {
            0 => (None, None),
            1 => (Some(one), None),
            2 => (None, Some(one)),
            _ => (Some(one.min(other)), Some(one.max(other))),
        };
        let found = y_axis_bounds_of(values.clone(), y_min.map(signed), y_max.map(signed));
        let ([lower, upper], labels) = y_axis(&values, y_min, y_max);
        let expected = if lower.is_nan() {
            YBounds { lower: None, upper: signed(upper) }
        } else {
            bounds(lower, upper)
        };
        assert_eq!(found, expected, "{values:?} {y_min:?} {y_max:?}");
        assert_eq!(y_label_values(found), labels, "{values:?} {y_min:?} {y_max:?}");
    }
}

#[test]
fn long_round_trips_have_the_precision_that_is_left() {
    let rtt: u128 = (1 << 53) + 1;
    let mut plot = plot(None);
    plot.update_at(1, Some(rtt));
    let text = format!("{:?}", std::time::Duration::from_micros(rtt as u64 - 1));
    assert_eq!(plot.header_stats()[1], format!("last {text}"));
    assert_eq!(plot.header_stats()[2], format!("min {text}"));
    assert_eq!(plot.header_stats()[3], format!("max {text}"));
    assert_eq!(plot.header_stats()[4], format!("avg {text}"));
    let found = y_axis_bounds_of(vec![rtt], None, None);
    let value = rtt as f64;
    assert_eq!(found, bounds(value - value * 10.0 / 100.0, value + value * 10.0 / 100.0));
}

#[test]
fn the_longest_durations_are_drawn_where_they_belong() {
    let longest = std::time::Duration::MAX.as_micros();
    let mut plot = plot(weight(0.5));
    plot.update_at(1, Some(longest));
    plot.update_at(2, Some(0));
    let value = longest as f64;
    assert_eq!(levels(&plot.plot_points()), vec![Some(signed(value)), Some(signed(value / 2.0))]);
    // What is shown is cut off.
    let text = format!("max {:?}", std::time::Duration::from_micros(u64::MAX));
    assert_eq!(plot.header_stats()[3], text);
    let found = y_axis_bounds_of(plot.replies(), None, None);
    assert_eq!(found, bounds(0.0, value + value * 10.0 / 100.0));
    assert_eq!(y_label_values(found)[6], u64::MAX);
}

#[test]
fn labels_stand_evenly_between_whole_ends() {
    let mut random = generator(99);
    for _ in 0..5_000 {
        let lower = random() >> 14;
        let upper = lower + (random() >> 14);
        let labels = y_label_values(bounds(lower as f64, upper as f64));
        assert_eq!((labels[0], labels[6]), (lower, upper));
        assert!(labels.windows(2).all(|pair| pair[0] <= pair[1]));
        let part = random() >> 20;
        let even = y_label_values(bounds(lower as f64, (lower + 6 * part) as f64));
        assert_eq!(even, (0..7).map(|i| lower + i * part).collect::<Vec<u64>>());
    }
}

#[test]
fn weights_lie_between_zero_and_one() {
    assert_eq!(Weight::new(double(0.25)), Some(Weight { value: double(0.25) }));
    assert_eq!(Weight::new(double(1.0)), Some(Weight { value: double(1.0) }));
    assert_eq!(Weight::new(double(1.0 + f64::EPSILON)), None);
    assert_eq!(Weight::new(double(2.0)), None);
    // A half that is not written with as many bits in front as there are, and one with too many.
    assert_eq!(Weight::new(Double { mant: 1, shift: 1_073 }), None);
    assert_eq!(Weight::new(Double { mant: 1 << 53, shift: 1_020 }), None);
    let mut all = plot(weight(1.0));
    let mut none = plot(weight(0.0));
    let mut raw = plot(None);
    for (i, rtt) in [7, 9, (1 << 53) + 1, 2].iter().enumerate() {
        all.update_at(i as i64, Some(*rtt));
        none.update_at(i as i64, Some(*rtt));
        raw.update_at(i as i64, Some(*rtt));
    }
    assert_eq!(
        levels(&all.plot_points()),
        vec![
            Some(signed(7.0)),
            Some(signed(9.0)),
            Some(signed(9_007_199_254_740_992.0)),
            Some(signed(2.0))
        ]
    );
    assert_eq!(all.plot_points(), raw.plot_points());
    assert_eq!(levels(&none.plot_points()), vec![Some(signed(7.0)); 4]);
}

#[test]
fn without_smoothing_the_raw_samples_are_plotted() {
    let mut plot = plot(None);
    plot.update_at(10, Some(3));
    plot.update_at(20, None);
    assert_eq!(
        plot.plot_points(),
        vec![Point { at: 10, level: Some(signed(3.0)) }, Point { at: 20, level: None }]
    );
}

#[test]
fn clamping_follows_the_smoothed_line() {
    let mut plot = plot(weight(0.5));
    plot.update_at(1, Some(1_000));
    plot.update_at(2, Some(9_000));
    assert_eq!(
        levels(&plot.clamped_data(bounds(2_000.0, 4_000.0))),
        vec![Some(signed(2_000.0)), Some(signed(4_000.0))]
    );
    let inside = plot.clamped_data(bounds(0.0, 10_000.0));
    assert_eq!(levels(&inside), vec![Some(signed(1_000.0)), Some(signed(5_000.0))]);
}

#[test]
fn drawn_points_are_clamped_only_on_a_fixed_axis() {
    let free = app_with(&[500, 80_000], None, None);
    let drawn = free.drawn_points(free.y_axis_bounds());
    assert_eq!(levels(&drawn[0]), vec![Some(signed(500.0)), Some(signed(80_000.0))]);
    let fixed = app_with(&[500, 80_000], Some(8_000.0), Some(50_000.0));
    let drawn = fixed.drawn_points(fixed.y_axis_bounds());
    assert_eq!(levels(&drawn[0]), vec![Some(signed(8_000.0)), Some(signed(50_000.0))]);
}

#[test]
fn the_header_has_only_the_name_without_a_reply() {
    let mut plot = plot(None);
    assert_eq!(plot.header_stats(), vec!["test"]);
    plot.update(None);
    assert_eq!(plot.header_stats(), vec!["test"]);
}

#[test]
fn the_header_shows_the_statistics() {
    let mut plot = plot(None);
    for item in [Some(3_000), Some(1_000), None, Some(2_500), None] {
        plot.update(item);
    }
    assert_eq!(
        plot.header_stats(),
        vec![
            "test", "last 0ns", "min 1ms", "max 3ms", "avg 2.166ms", "jtr 1ms", "p95 0ns", "t/o 2"
        ]
    );
}

#[test]
fn markers() {
    assert_eq!(plot(None).marker(), Marker::Braille);
    let simple = PlotData::new(String::new(), 30, Style::default(), true, None);
    assert_eq!(simple.marker(), Marker::Dot);
}

#[test]
fn name_and_style_are_kept() {
    let style = Style::default().fg(Color::Red);
    let plot = PlotData::new("name".to_string(), 30, style, true, None);
    assert_eq!(plot.display, "name");
    assert_eq!(plot.style, style);
    assert!(plot.data.is_empty());
}

#[test]
fn the_x_axis_stands_still_until_the_graph_is_full() {
    let started = Moment { secs: 1_000, nanos: 900_000 };
    // Not quite thirty seconds later, though the milliseconds say so.
    let now = Moment { secs: 1_030, nanos: 100_000 };
    assert_eq!(
        x_axis_bounds_of(started, 30_000, now),
        XBounds { lower: 1_000_000, upper: 1_030_000 }
    );
    let later = Moment { secs: 1_042, nanos: 7_999_999 };
    assert_eq!(
        x_axis_bounds_of(started, 30_000, later),
        XBounds { lower: 1_012_007, upper: 1_042_007 }
    );
    let app = App::started_at(vec![], 30, started, None, None);
    assert_eq!(app.x_axis_bounds_at(later), XBounds { lower: 1_012_007, upper: 1_042_007 });
}

#[test]
fn the_x_axis_follows_the_clock() {
    let app = App::new(vec![], 30, None, None);
    let bounds = app.x_axis_bounds();
    assert_eq!(bounds.upper - bounds.lower, 30_000);
    let now = Moment::now().timestamp_millis();
    assert!(bounds.lower <= now && now <= bounds.upper + 20_000);
    // The present lies far behind the start of the epoch.
    assert!(bounds.lower > 1_000_000_000_000);
    assert_eq!(app.x_axis_labels(bounds).len(), 3);
}

#[test]
fn x_labels_are_times_of_day() {
    let bounds = XBounds { lower: 3_600_999, upper: 3_605_001 };
    assert_eq!(
        x_label_texts_at(bounds, &vec![0, 0, 0]),
        vec!["01:00:00", "01:00:02.500", "01:00:05"]
    );
    assert_eq!(
        x_label_texts_at(bounds, &vec![-7_200, 7_200, 86_399]),
        vec!["23:00:00", "03:00:02.500", "01:00:04"]
    );
    let before = XBounds { lower: -3_999, upper: 0 };
    let moments = x_label_moments(before);
    assert_eq!(moments[0], Moment { secs: -3, nanos: 0 });
    assert_eq!(moments[1], Moment { secs: -2, nanos: 500_000_000 });
    assert_eq!(moments[2], Moment { secs: 0, nanos: 0 });
    assert_eq!(
        x_label_texts_at(before, &vec![0, 0, 0]),
        vec!["23:59:57", "23:59:58.500", "00:00:00"]
    );
}

#[test]
fn windows_and_intervals() {
    assert_eq!(window_millis(30), Some(30_000));
    assert_eq!(window_millis(9_223_372_036_854_775), Some(9_223_372_036_854_775_000));
    assert_eq!(window_millis(9_223_372_036_854_776), None);
    assert_eq!(window_millis(u64::MAX), Some(-1_000));
    assert_eq!(window_millis(1 << 63), None);
    assert_eq!(interval_millis(30), Some(30_000));
    assert_eq!(interval_millis(9_223_372_036_854_775), Some(9_223_372_036_854_775_000));
    assert_eq!(interval_millis(9_223_372_036_854_776), None);
    assert_eq!(interval_millis(u64::MAX), None);
}

#[test]
fn events_are_taken_in() {
    let mut app = App::new(vec![plot(None), plot(None)], 30, None, None);
    assert!(matches!(app.handle(Event::Update(1, Update::Result(1_000))), Action::Wait));
    assert!(matches!(app.handle(Event::Update(1, Update::Timeout)), Action::Wait));
    assert!(matches!(app.handle(Event::Update(0, Update::Unknown)), Action::Wait));
    assert!(matches!(app.handle_at(Event::Update(0, Update::Timeout), 5), Action::Wait));
    assert!(app.plots()[0].data == vec![Sample { at: 5, rtt: None }]);
    assert_eq!(app.plots()[1].data.len(), 2);
    assert_eq!(app.plots()[1].data[0].rtt, Some(1_000));
    assert_eq!(app.plots()[1].data[1].rtt, None);
    assert!(matches!(app.handle(Event::Render), Action::Draw));
    assert!(matches!(app.handle(Event::Terminate), Action::Stop));
    app.update(0, Some(9));
    assert_eq!(app.plots()[0].data.last().unwrap().rtt, Some(9));
}

#[test]
fn a_ping_that_ends_stops_the_program() {
    let mut app = App::new(vec![plot(None)], 30, None, None);
    let ended = |success| {
        Event::Update(
            0,
            Update::Terminated {
                success,
                status: "exit status: 2".to_string(),
                stderr: "no route".to_string(),
            },
        )
    };
    assert!(matches!(app.handle(ended(true)), Action::Stop));
    match app.handle(ended(false)) {
        Action::Fail(text) => assert_eq!(
            text,
            "There was an error running ping: exit status: 2\nStderr: no route\n"
        ),
        other => panic!("{other:?}"),
    }
    assert!(app.plots()[0].data.is_empty());
}

#[test]
fn commands_that_fail_count_as_timeouts() {
    assert!(matches!(Update::of_command(true, 12), Update::Result(12)));
    assert!(matches!(Update::of_command(false, 12), Update::Timeout));
}

#[test]
fn keys_that_end_the_program() {
    assert!(ends_program(Key::Char('q'), false));
    assert!(ends_program(Key::Char('q'), true));
    assert!(ends_program(Key::Esc, false));
    assert!(ends_program(Key::Char('c'), true));
    assert!(!ends_program(Key::Char('c'), false));
    assert!(!ends_program(Key::Char('x'), true));
    assert!(!ends_program(Key::Other, true));
}

#[test]
fn the_average_outlives_the_window() {
    let mut plot = PlotData::new("test".to_string(), 1, Style::default(), false, weight(0.25));
    plot.update_at(0, Some(1_000));
    plot.update_at(60_000, None);
    plot.update_at(120_000, Some(2_000));
    assert_eq!(plot.data.len(), 2);
    assert_eq!(levels(&plot.plot_points()), vec![None, Some(signed(1_250.0))]);
}

#[test]
fn timeouts_leave_the_average_alone() {
    let mut with = plot(weight(0.3));
    let mut without = plot(weight(0.3));
    for (i, item) in [Some(31), None, Some(415), None, None, Some(9)].into_iter().enumerate() {
        with.update_at(i as i64, item);
        if item.is_some() {
            without.update_at(i as i64, item);
        }
    }
    assert_eq!(with.plot_points().last(), without.plot_points().last());
    let mut replies = levels(&with.plot_points());
    replies.retain(|level| level.is_some());
    assert_eq!(replies, levels(&without.plot_points()));
}

#[test]
fn the_average_stays_among_the_samples() {
    for alpha in [1e-17, 1e-3, 0.3, 0.999] {
        let weight = weight(alpha).unwrap();
        let mut average = None;
        for i in 0..2_000 {
            average = next_average(weight, average, Some(1_024 + i * 7_919 % 1_025));
            let Some(Double { mant, shift }) = average else { panic!() };
            // The number one is 2 to the power of 1074 units.
            let value = mant as f64 * 2f64.powi(shift as i32 - 1_074);
            assert!(512.0 <= value && value <= 4_096.0);
        }
    }
}

#[test]
fn longer_round_trips_do_not_lower_the_average() {
    let value = |d: Double| f64::from_bits((d.shift as u64 + 1) << 52 | (d.mant - (1 << 52)));
    for alpha in [1e-17, 0.1, 0.3, 1.0] {
        let weight = weight(alpha).unwrap();
        let (mut low, mut high) = (None, None);
        for i in 1..500u128 {
            let rtt = i * 7_919 % 1_000 + 1;
            low = next_average(weight, low, Some(rtt));
            high = next_average(weight, high, Some(rtt + i % 2));
            assert!(value(low.unwrap()) <= value(high.unwrap()));
        }
    }
}

#[test]
fn averages_are_clamped_to_the_last_bit() {
    let mut plot = plot(weight(0.1));
    plot.update_at(1, Some(1));
    plot.update_at(2, Some(2));
    // In double precision this is a little more than 1.1.
    let average = 0.1 * 2.0 + (1.0 - 0.1) * 1.0;
    let at = |lower: f64, upper: f64| plot.clamped_data(bounds(lower, upper))[1].level.unwrap();
    assert_eq!(at(0.0, 1.2), signed(average));
    assert_eq!(at(1.1, average), signed(average));
    assert_eq!(at(average, average), signed(average));
    assert_eq!(at(0.0, 1.1), signed(1.1));
    assert_eq!(at(1.2, 1.3), signed(1.2));
    assert_eq!(at(-7.0, -3.0), signed(-3.0));
}

#[test]
fn the_header_does_not_depend_on_smoothing() {
    let mut smooth = plot(weight(0.1));
    let mut raw = plot(None);
    for (i, item) in [Some(3), None, Some(8), Some(1)].into_iter().enumerate() {
        smooth.update_at(i as i64, item);
        raw.update_at(i as i64, item);
    }
    assert_eq!(smooth.data, raw.data);
    assert_eq!(smooth.header_stats(), raw.header_stats());
}

#[test]
fn clamping_twice_is_clamping_once() {
    let mut plot = plot(None);
    let edges = bounds(2.0, 6.0);
    for (i, rtt) in [1, 4, 9].into_iter().enumerate() {
        plot.update_at(i as i64, Some(rtt));
    }
    let once = plot.clamped_data(edges);
    assert_eq!(levels(&once), vec![Some(signed(2.0)), Some(signed(4.0)), Some(signed(6.0))]);
    let mut again = PlotData::new("test".to_string(), 30, Style::default(), false, None);
    for (point, rtt) in once.iter().zip([2, 4, 6]) {
        again.update_at(point.at, Some(rtt));
    }
    assert_eq!(again.clamped_data(edges), once);
}

#[test]
fn a_stretch_beyond_the_calendar_has_no_x_axis() {
    let started = Moment { secs: 1_000, nanos: 0 };
    assert!(App::started_at(vec![], 30, started, None, None).has_x_axis());
    assert!(App::started_at(vec![], 8_210_266_875_799, started, None, None).has_x_axis());
    assert!(!App::started_at(vec![], 8_210_266_875_800, started, None, None).has_x_axis());
    let nowhere = Moment { secs: i64::MIN, nanos: 0 };
    assert!(!App::started_at(vec![], 30, nowhere, None, None).has_x_axis());
}

#[test]
fn the_x_axis_moves_forward_and_shows_the_present() {
    let started = Moment { secs: 50, nanos: 123_456_789 };
    let mut last = x_axis_bounds_of(started, 10_000, started);
    for step in 0..200 {
        let now = Moment { secs: 50 + step / 4, nanos: 123_456_789 + (step % 4) as u32 * 250_000_000 };
        let next = x_axis_bounds_of(started, 10_000, now);
        assert_eq!(next.upper - next.lower, 10_000);
        assert!(last.lower <= next.lower && last.upper <= next.upper);
        assert!(next.lower <= now.timestamp_millis() && now.timestamp_millis() <= next.upper);
        last = next;
    }
}
