//! What the operations of the library are for, stated of whatever they return.

#[allow(unused_imports)]
use vstd::arithmetic::power2::pow2;
use vstd::prelude::*;
#[allow(unused_imports)]
use vstd::string::*;
#[allow(unused_imports)]
use vstd::utf8::is_ascii_chars;

#[allow(unused_imports)]
use crate::app::{
    after_event, all_replies, ends_program, fits, is_reaction, plot_models, Action, App, AppModel,
    Event, Key, Update,
};
#[allow(unused_imports)]
use crate::args::{check_args, ArgsError, Flag};
#[allow(unused_imports)]
use crate::axis::{
    clamp_level, data_bottom, data_top, has_labels, label_level, label_moments,
    law_free_ends_leave_room, law_y_labels_are_even, law_y_labels_ascend,
    law_y_labels_span_the_axis, lemma_close_to, lemma_data_ends, lemma_fixed_end,
    lemma_nearly_a_span, lemma_nothing, lemma_span_settles, possible_offsets, shown_micros,
    smallest_span, stretch_fits, tenth, value_range, whole_ends, x_axis_bounds_of, x_bounds,
    x_label_moments, x_label_texts_at, x_labels, y_label, y_label_texts, y_label_values,
    zone_offsets, XBounds, YBounds,
};
#[allow(unused_imports)]
use crate::clock::{interval_millis, window_millis, Moment, LAST_SECOND, SPAN_SECONDS};
#[allow(unused_imports)]
use crate::command::{
    is_space, law_one_word, law_whitespace_parts_words, law_words_hold_the_line, letters,
    split_command, split_words, watch_interval_millis, words,
};
#[allow(unused_imports)]
use crate::double::{law_nothing_is_nearer, rounded_down, rounded_half_up, Double};
#[allow(unused_imports)]
use crate::host::{
    ascii_domain, ascii_host, display_name, law_selected_address_is_the_first, name_to_resolve,
    select_address, suits, Address, Family, HostError,
};
#[allow(unused_imports)]
use crate::plot_data::{
    expired, header_lines, law_expired_ends_at_the_last_one, law_points_match_samples, Marker,
    PlotData, PlotModel,
};
#[allow(unused_imports)]
use crate::rounding::{
    difference, distance, excess_bits, lemma_complement, lemma_excess_bits, lemma_mantissa_powers,
    lemma_rounded_close, lemma_rounded_scaled, lemma_rounded_split, lemma_whole_exact, one,
    product, quotient, rounded, whole, MANTISSA_END, UNIT_BITS,
};
#[allow(unused_imports)]
use crate::samples::{
    greatest, least, lemma_extremes, replies, reply_level, reply_values, timeouts, total, Point,
    Sample,
};
#[allow(unused_imports)]
use crate::signed::{
    law_signed_rounding_keeps_order, lemma_signed_of_units, signed_difference, signed_rounded,
    signed_sum, size_of, Signed,
};
#[allow(unused_imports)]
use crate::smoothing::{average_in_range, averaged, blend, next_average, Weight};
#[allow(unused_imports)]
use crate::stats::{
    ascending, double_total, is_ascending, law_ascending_ends, law_ascending_keeps_values,
    law_percentile_index_bound, law_percentile_index_is_95_percent, law_single_is_close,
    law_stats_are_consistent, law_stats_are_exact, lemma_ascending_unique, lemma_total_ascending,
    percentile_index, percentile_position, shown, shown_mean, single, stats, Stats,
};
#[allow(unused_imports)]
use crate::text::{clock_text, decimal, decimal_string, duration_text, padded};

verus! {

/// The replies of two stretches of samples are those of the first and then those of the second, and
/// so are the timeouts.
pub proof fn law_samples_of_parts(a: Seq<Sample>, b: Seq<Sample>)
    ensures
        replies(a + b) == replies(a) + replies(b),
        timeouts(a + b) == timeouts(a) + timeouts(b),
    decreases b.len(),
{
    if b.len() == 0 {
        assert(a + b =~= a);
        assert(replies(a) + replies(b) =~= replies(a));
    } else {
        let rest = b.drop_last();
        law_samples_of_parts(a, rest);
        assert((a + b).drop_last() =~= a + rest);
        assert((a + b).last() == b.last());
        if let Some(rtt) = b.last().rtt {
            assert((replies(a) + replies(rest)).push(rtt) =~= replies(a) + replies(rest).push(rtt));
        }
    }
}

/// A single sample with a round trip time is a reply of that time, and one without is a timeout.
pub proof fn law_samples_of_one(at: i64, rtt: u128)
    ensures
        replies(seq![Sample { at, rtt: Some(rtt) }]) == seq![rtt],
        timeouts(seq![Sample { at, rtt: Some(rtt) }]) == 0,
        replies(seq![Sample { at, rtt: None }]) == Seq::<u128>::empty(),
        timeouts(seq![Sample { at, rtt: None }]) == 1,
        replies(Seq::<Sample>::empty()) == Seq::<u128>::empty(),
        timeouts(Seq::<Sample>::empty()) == 0,
{
    let reply = seq![Sample { at, rtt: Some(rtt) }];
    let timeout = seq![Sample { at, rtt: None }];
    assert(reply.drop_last() =~= Seq::empty());
    assert(timeout.drop_last() =~= Seq::empty());
    assert(replies(reply.drop_last()) == Seq::<u128>::empty());
    assert(replies(timeout.drop_last()) == Seq::<u128>::empty());
    assert(timeouts(reply.drop_last()) == 0);
    assert(timeouts(timeout.drop_last()) == 0);
    assert(Seq::<u128>::empty().push(rtt) =~= seq![rtt]);
}

/// A round trip time is among the replies exactly when some sample has it.
pub proof fn law_replies_are_sampled(data: Seq<Sample>, rtt: u128)
    ensures
        replies(data).contains(rtt) <==> exists|i: int|
            0 <= i < data.len() && (#[trigger] data[i]).rtt == Some(rtt),
    decreases data.len(),
{
    if data.len() > 0 {
        let rest = data.drop_last();
        law_replies_are_sampled(rest, rtt);
        assert(forall|i: int| 0 <= i < rest.len() ==> rest[i] == data[i]);
        assert(data[data.len() - 1] == data.last());
        let before = replies(rest);
        if let Some(last) = data.last().rtt {
            assert(before.push(last)[before.len() as int] == last);
            assert(forall|i: int| 0 <= i < before.len() ==> before.push(last)[i] == before[i]);
            if before.contains(rtt) {
                let i = choose|i: int| 0 <= i < before.len() && before[i] == rtt;
                assert(before.push(last)[i] == rtt);
            }
        }
        if exists|i: int| 0 <= i < rest.len() && (#[trigger] rest[i]).rtt == Some(rtt) {
            let i = choose|i: int| 0 <= i < rest.len() && (#[trigger] rest[i]).rtt == Some(rtt);
            assert(data[i].rtt == Some(rtt));
        }
        if exists|i: int| 0 <= i < data.len() && (#[trigger] data[i]).rtt == Some(rtt) {
            let i = choose|i: int| 0 <= i < data.len() && (#[trigger] data[i]).rtt == Some(rtt);
            if i < rest.len() {
                assert(rest[i].rtt == Some(rtt));
            }
        }
    }
}

/// The replies that are handed out are those of the samples: as many as there are samples that are
/// no timeouts, and each of them sampled.
pub proof fn law_reply_values(data: Vec<Sample>, values: Vec<u128>)
    requires
        call_ensures(reply_values, (&data,), values),
    ensures
        values@.len() + timeouts(data@) == data@.len(),
        forall|rtt: u128|
            #[trigger] values@.contains(rtt) <==> exists|i: int|
                0 <= i < data@.len() && (#[trigger] data@[i]).rtt == Some(rtt),
{
    crate::samples::law_samples_are_replies_or_timeouts(data@);
    assert forall|rtt: u128|
        #[trigger] values@.contains(rtt) <==> exists|i: int|
            0 <= i < data@.len() && (#[trigger] data@[i]).rtt == Some(rtt) by {
        law_replies_are_sampled(data@, rtt);
    }
}

/// The replies on some plots are those on the first of them and then those on the others.
pub proof fn law_all_replies_of_parts(a: Seq<PlotModel>, b: Seq<PlotModel>, plot: PlotModel)
    ensures
        all_replies(a + b) == all_replies(a) + all_replies(b),
        all_replies(seq![plot]) == replies(plot.data),
        all_replies(Seq::<PlotModel>::empty()) == Seq::<u128>::empty(),
    decreases b.len(),
{
    let single = seq![plot];
    assert(single.drop_last() =~= Seq::empty());
    assert(all_replies(single.drop_last()) == Seq::<u128>::empty());
    assert(Seq::<u128>::empty() + replies(plot.data) =~= replies(plot.data));
    if b.len() == 0 {
        assert(a + b =~= a);
        assert(all_replies(a) + all_replies(b) =~= all_replies(a));
    } else {
        let rest = b.drop_last();
        law_all_replies_of_parts(a, rest, plot);
        assert((a + b).drop_last() =~= a + rest);
        assert((a + b).last() == b.last());
        let last = replies(b.last().data);
        assert((all_replies(a) + all_replies(rest)) + last =~= all_replies(a) + (all_replies(rest)
            + last));
    }
}

/// Some host has been sampled with this round trip time.
pub open spec fn sampled_somewhere(plots: Seq<PlotModel>, rtt: u128) -> bool {
    exists|host: int, i: int|
        0 <= host < plots.len() && 0 <= i < plots[host].data.len()
            && (#[trigger] plots[host].data[i]).rtt == Some(rtt)
}

/// A round trip time is among the replies of all hosts exactly when some host has been sampled with
/// it.
pub proof fn law_all_replies_are_sampled(plots: Seq<PlotModel>, rtt: u128)
    ensures
        all_replies(plots).contains(rtt) <==> sampled_somewhere(plots, rtt),
    decreases plots.len(),
{
    if plots.len() > 0 {
        let rest = plots.drop_last();
        let before = all_replies(rest);
        let last = replies(plots.last().data);
        law_all_replies_are_sampled(rest, rtt);
        law_replies_are_sampled(plots.last().data, rtt);
        assert(forall|i: int| 0 <= i < rest.len() ==> rest[i] == plots[i]);
        assert(plots[plots.len() - 1] == plots.last());
        let all = before + last;
        if before.contains(rtt) {
            let i = choose|i: int| 0 <= i < before.len() && before[i] == rtt;
            assert(all[i] == rtt);
            let (host, j) = choose|host: int, j: int|
                0 <= host < rest.len() && 0 <= j < rest[host].data.len()
                    && (#[trigger] rest[host].data[j]).rtt == Some(rtt);
            assert(plots[host].data[j].rtt == Some(rtt));
        }
        if last.contains(rtt) {
            let i = choose|i: int| 0 <= i < last.len() && last[i] == rtt;
            assert(all[before.len() + i] == rtt);
            let j = choose|j: int|
                0 <= j < plots.last().data.len() && (#[trigger] plots.last().data[j]).rtt == Some(
                    rtt,
                );
            assert(plots[plots.len() - 1].data[j].rtt == Some(rtt));
        }
        if all.contains(rtt) {
            let i = choose|i: int| 0 <= i < all.len() && all[i] == rtt;
            if i < before.len() {
                assert(before[i] == rtt);
            } else {
                assert(last[i - before.len()] == rtt);
            }
        }
        if sampled_somewhere(plots, rtt) {
            let (host, j) = choose|host: int, j: int|
                0 <= host < plots.len() && 0 <= j < plots[host].data.len()
                    && (#[trigger] plots[host].data[j]).rtt == Some(rtt);
            if host < rest.len() {
                assert(rest[host].data[j].rtt == Some(rtt));
            } else {
                assert(plots.last().data[j].rtt == Some(rtt));
            }
        }
    } else {
        assert(!all_replies(plots).contains(rtt));
    }
}

/// A round trip time is plotted at its own level. A longer one is plotted no lower, and a timeout is
/// not plotted at all.
pub proof fn law_replies_have_their_level(rtt: u128, longer: u128)
    requires
        rtt <= longer,
    ensures
        rtt <= MANTISSA_END ==> reply_level(rtt).units() == rtt * one(),
        reply_level(rtt).units() <= reply_level(longer).units(),
        reply_level(rtt).wf(),
{
    crate::double::lemma_whole_can_be_written(rtt as nat);
    crate::double::lemma_whole_can_be_written(longer as nat);
    crate::rounding::law_whole_keeps_order(rtt as nat, longer as nat);
    if rtt <= MANTISSA_END {
        lemma_whole_exact(rtt as nat);
    }
}

/// An axis with a free end leaves room there for every reply of every host.
pub proof fn law_axis_has_room_for_every_host(app: App, bounds: YBounds, host: int, i: int)
    requires
        app@.wf(),
        call_ensures(App::y_axis_bounds, (&app,), bounds),
        0 <= host < app@.plots.len(),
        0 <= i < app@.plots[host].data.len(),
    ensures
        app@.plots[host].data[i].rtt matches Some(rtt) ==> {
            &&& app@.y_max is None ==> reply_level(rtt).units() <= bounds.upper.units()
            &&& app@.y_min is None ==> (bounds.lower matches Some(lower) && lower.units()
                <= reply_level(rtt).units())
            &&& app@.y_max is None && rtt <= MANTISSA_END ==> rtt * one() <= bounds.upper.units()
            &&& app@.y_min is None && rtt <= MANTISSA_END ==> bounds.lower.unwrap().units() <= rtt
                * one()
        },
{
    if let Some(rtt) = app@.plots[host].data[i].rtt {
        let values = all_replies(app@.plots);
        law_all_replies_are_sampled(app@.plots, rtt);
        assert(sampled_somewhere(app@.plots, rtt));
        let j = choose|j: int| 0 <= j < values.len() && values[j] == rtt;
        law_free_ends_leave_room(values, app@.y_min, app@.y_max);
        assert(values[j] == rtt);
        law_replies_have_their_level(rtt, rtt);
    }
}

/// An end of the axis that is fixed is where it was fixed.
pub proof fn law_axis_keeps_fixed_ends(app: App, bounds: YBounds)
    requires
        call_ensures(App::y_axis_bounds, (&app,), bounds),
    ensures
        app@.y_min matches Some(min) ==> bounds.lower == Some(min),
        app@.y_max matches Some(max) ==> bounds.upper == max,
{
}

/// How far apart numbers in double precision are up to a power of two.
proof fn lemma_spacing(x: nat, e: nat)
    requires
        x <= pow2(e),
        e >= 52,
    ensures
        pow2(excess_bits(x)) <= pow2((e - 52) as nat),
{
    lemma_excess_bits(x);
    let bits = excess_bits(x);
    if bits > 0 {
        if e < 52 + bits {
            vstd::arithmetic::power2::lemma_pow2_strictly_increases(e, 52 + bits);
        }
    }
    if bits < e - 52 {
        vstd::arithmetic::power2::lemma_pow2_strictly_increases(bits, (e - 52) as nat);
    }
}

/// A tenth of a round trip time of up to 2 to the 48th microseconds, and what comes of taking it away
/// and of adding it, are off by very little.
#[verifier::spinoff_prover]
proof fn lemma_margin(rtt: nat)
    requires
        rtt <= 0x1_0000_0000_0000,
    ensures
        whole(rtt) == rtt * one(),
        ({
            let x = rtt * one() as int;
            let part = tenth((rtt * one()) as nat) as int;
            &&& part <= x
            &&& -one() <= 10 * signed_difference(x, part) - 9 * x <= one()
            &&& -one() <= 10 * signed_sum(x, part) - 11 * x <= one()
            &&& rtt % 10 == 0 ==> 10 * signed_difference(x, part) == 9 * x
            &&& rtt % 10 == 0 ==> 10 * signed_sum(x, part) == 11 * x
        }),
{
    let x = rtt * one();
    vstd::arithmetic::power2::lemma_pow2_pos(UNIT_BITS as nat);
    vstd::arithmetic::power2::lemma2_to64();
    vstd::arithmetic::power2::lemma2_to64_rest();
    lemma_whole_exact(rtt);
    lemma_whole_exact(10);
    lemma_whole_exact(100);
    lemma_whole_exact(10 * rtt);
    assert(10 * rtt * one() == 10 * x) by (nonlinear_arith)
        requires
            x == rtt * one(),
    ;
    assert(x * (10 * one()) == (10 * x) * one()) by (nonlinear_arith);
    lemma_rounded_scaled(10 * x, 1, one());
    assert(1 * one() == one());
    assert(product(x, whole(10)) == 10 * x);
    assert((10 * x) * one() == x * (10 * one())) by (nonlinear_arith);
    lemma_rounded_scaled(x, 10, 10 * one());
    assert(10 * (10 * one()) == 100 * one());
    let part = tenth(x);
    assert(part == rounded(x, 10));
    // How far off the tenth is.
    vstd::arithmetic::power2::lemma_pow2_adds(48, UNIT_BITS as nat);
    assert(x <= 0x1_0000_0000_0000 * one()) by (nonlinear_arith)
        requires
            x == rtt * one(),
            rtt <= 0x1_0000_0000_0000,
    ;
    lemma_rounded_close(x, 10);
    lemma_spacing(x / 10, 48 + UNIT_BITS as nat);
    vstd::arithmetic::power2::lemma_pow2_adds(4, 1_070);
    let bit = pow2(1_070);
    assert(one() == 16 * bit);
    assert(-(bit * 10) <= 2 * (part * 10 - x) <= bit * 10);
    // And what comes of it.
    crate::rounding::lemma_rounded_at_most(x, 10, rtt, UNIT_BITS as nat);
    assert(part <= x);
    let down = (x - part) as nat;
    let up = x + part;
    lemma_rounded_close(down, 1);
    lemma_rounded_close(up, 1);
    lemma_spacing(down, 48 + UNIT_BITS as nat);
    vstd::arithmetic::power2::lemma_pow2_unfold(49 + UNIT_BITS as nat);
    lemma_spacing(up, 49 + UNIT_BITS as nat);
    vstd::arithmetic::power2::lemma_pow2_unfold(1_071);
    if rtt % 10 == 0 {
        let n = rtt / 10;
        crate::axis::lemma_exact_tenth(n);
        assert(10 * (9 * n * one()) == 9 * (10 * n * one())) by (nonlinear_arith);
        assert(10 * (11 * n * one()) == 11 * (10 * n * one())) by (nonlinear_arith);
    }
}

/// No reply of any host is longer.
pub open spec fn longest_of_all(plots: Seq<PlotModel>, rtt: u128) -> bool {
    forall|other: u128| #[trigger] sampled_somewhere(plots, other) ==> other <= rtt
}

/// No reply of any host is shorter.
pub open spec fn shortest_of_all(plots: Seq<PlotModel>, rtt: u128) -> bool {
    forall|other: u128| #[trigger] sampled_somewhere(plots, other) ==> rtt <= other
}

proof fn lemma_extremes_of_all(plots: Seq<PlotModel>, rtt: u128)
    requires
        sampled_somewhere(plots, rtt),
    ensures
        all_replies(plots).len() > 0,
        longest_of_all(plots, rtt) ==> greatest(all_replies(plots)) == rtt,
        shortest_of_all(plots, rtt) ==> least(all_replies(plots)) == rtt,
{
    let values = all_replies(plots);
    law_all_replies_are_sampled(plots, rtt);
    let i = choose|i: int| 0 <= i < values.len() && values[i] == rtt;
    lemma_extremes(values);
    law_all_replies_are_sampled(plots, greatest(values));
    law_all_replies_are_sampled(plots, least(values));
    assert(values[i] == rtt);
}

/// Without a fixed end the axis reaches from a tenth below the shortest reply of all hosts to a tenth
/// above the longest, as nearly as double precision can say, and exactly where the tenth is a whole
/// number of microseconds.
pub proof fn law_axis_has_a_tenth_around_all_hosts(
    app: App,
    bounds: YBounds,
    shortest: u128,
    longest: u128,
)
    requires
        app@.y_min is None && app@.y_max is None,
        call_ensures(App::y_axis_bounds, (&app,), bounds),
        sampled_somewhere(app@.plots, shortest) && shortest_of_all(app@.plots, shortest),
        sampled_somewhere(app@.plots, longest) && longest_of_all(app@.plots, longest),
        longest <= 0x1_0000_0000_0000,
    ensures
        bounds.lower matches Some(lower) && {
            &&& -one() <= 10 * lower.units() - 9 * (shortest * one()) <= one()
            &&& shortest % 10 == 0 ==> 10 * lower.units() == 9 * (shortest * one())
        },
        -one() <= 10 * bounds.upper.units() - 11 * (longest * one()) <= one(),
        longest % 10 == 0 ==> 10 * bounds.upper.units() == 11 * (longest * one()),
{
    lemma_extremes_of_all(app@.plots, shortest);
    lemma_extremes_of_all(app@.plots, longest);
    lemma_data_ends(all_replies(app@.plots));
    lemma_margin(shortest as nat);
    lemma_margin(longest as nat);
}

/// Without a fixed end and without a reply the axis has no bottom, and its top is zero.
pub proof fn law_axis_without_replies(app: App, bounds: YBounds)
    requires
        app@.y_min is None && app@.y_max is None,
        call_ensures(App::y_axis_bounds, (&app,), bounds),
        forall|rtt: u128| !#[trigger] sampled_somewhere(app@.plots, rtt),
    ensures
        bounds.lower is None,
        bounds.upper.units() == 0,
{
    lemma_no_replies(app@.plots);
    lemma_data_ends(all_replies(app@.plots));
}

/// With only the bottom fixed, the top lies a tenth above the longest reply of all hosts where that
/// leaves a range of clearly more than a thousand microseconds, and a thousand microseconds above the
/// bottom where it leaves clearly less or there is no reply.
pub proof fn law_free_top(app: App, bounds: YBounds, min: Signed, longest: u128)
    requires
        app@.wf(),
        app@.y_min == Some(min) && app@.y_max is None,
        call_ensures(App::y_axis_bounds, (&app,), bounds),
        min.size.units() <= pow2(52) * one(),
        longest_of_all(app@.plots, longest),
        longest <= 0x1_0000_0000_0000,
    ensures
        bounds.lower == Some(min),
        sampled_somewhere(app@.plots, longest) && 11 * (longest * one()) >= 10 * min.units() + 10_010
            * one() ==> -one() <= 10 * bounds.upper.units() - 11 * (longest * one()) <= one(),
        sampled_somewhere(app@.plots, longest) && 11 * (longest * one()) <= 10 * min.units() + 9_980
            * one() ==> -one() <= 2 * (bounds.upper.units() - min.units() - 1_000 * one())
            <= one(),
        min.units() >= 0 && (forall|rtt: u128| !#[trigger] sampled_somewhere(app@.plots, rtt))
            ==> -one() <= 2 * (bounds.upper.units() - min.units() - 1_000 * one()) <= one(),
{
    let values = all_replies(app@.plots);
    let gap = data_top(values) - min.units();
    lemma_nothing();
    lemma_data_ends(values);
    lemma_fixed_end(min);
    lemma_span_settles();
    lemma_signed_of_units(min);
    lemma_mantissa_powers();
    assert(pow2(52) * one() == 0x10_0000_0000_0000 * one());
    lemma_close_to(min.units() + smallest_span());
    lemma_nearly_a_span(gap);
    if gap >= smallest_span() {
        law_signed_rounding_keeps_order(smallest_span(), gap);
    }
    if sampled_somewhere(app@.plots, longest) {
        lemma_extremes_of_all(app@.plots, longest);
        lemma_margin(longest as nat);
    }
    if forall|rtt: u128| !#[trigger] sampled_somewhere(app@.plots, rtt) {
        lemma_no_replies(app@.plots);
    }
}

/// With only the top fixed, the bottom lies a tenth below the shortest reply of all hosts where that
/// leaves a range of clearly more than a thousand microseconds, and a thousand microseconds below the
/// top where it leaves clearly less or there is no reply.
pub proof fn law_free_bottom(app: App, bounds: YBounds, max: Signed, shortest: u128)
    requires
        app@.wf(),
        app@.y_max == Some(max) && app@.y_min is None,
        call_ensures(App::y_axis_bounds, (&app,), bounds),
        max.size.units() <= pow2(52) * one(),
        shortest_of_all(app@.plots, shortest),
        shortest <= 0x1_0000_0000_0000,
    ensures
        bounds.upper == max,
        bounds.lower is Some,
        sampled_somewhere(app@.plots, shortest) && 9 * (shortest * one()) <= 10 * max.units()
            - 10_010 * one() ==> -one() <= 10 * bounds.lower.unwrap().units() - 9 * (shortest
            * one()) <= one(),
        sampled_somewhere(app@.plots, shortest) && 9 * (shortest * one()) >= 10 * max.units()
            - 9_980 * one() ==> -one() <= 2 * (bounds.lower.unwrap().units() - max.units() + 1_000
            * one()) <= one(),
        (forall|rtt: u128| !#[trigger] sampled_somewhere(app@.plots, rtt)) ==> -one() <= 2 * (
        bounds.lower.unwrap().units() - max.units() + 1_000 * one()) <= one(),
{
    let values = all_replies(app@.plots);
    let gap = max.units() - data_bottom(values);
    lemma_nothing();
    lemma_data_ends(values);
    lemma_fixed_end(max);
    lemma_span_settles();
    lemma_signed_of_units(max);
    lemma_mantissa_powers();
    assert(pow2(52) * one() == 0x10_0000_0000_0000 * one());
    lemma_close_to(max.units() - smallest_span());
    lemma_nearly_a_span(gap);
    if gap >= smallest_span() {
        law_signed_rounding_keeps_order(smallest_span(), gap);
    }
    if sampled_somewhere(app@.plots, shortest) {
        lemma_extremes_of_all(app@.plots, shortest);
        lemma_margin(shortest as nat);
    }
    if forall|rtt: u128| !#[trigger] sampled_somewhere(app@.plots, rtt) {
        lemma_no_replies(app@.plots);
    }
}

proof fn lemma_no_replies(plots: Seq<PlotModel>)
    requires
        forall|rtt: u128| !#[trigger] sampled_somewhere(plots, rtt),
    ensures
        all_replies(plots).len() == 0,
{
    let values = all_replies(plots);
    if values.len() > 0 {
        law_all_replies_are_sampled(plots, values[0]);
        assert(values.contains(values[0]));
    }
}

/// What an update does to the samples of a host: it adds the newest at the end, and drops from the
/// front what stands before the last sample that is older than the window. Nothing else is dropped,
/// and nothing else about the host changes but its average and its smoothed line.
pub open spec fn takes_in(before: PlotModel, after: PlotModel, now: i64, item: Option<u128>) -> bool {
    let all = before.data.push(Sample { at: now, rtt: item });
    &&& exists|dropped: int|
        {
            &&& 0 <= dropped < all.len()
            &&& after.data == #[trigger] all.skip(dropped)
            &&& dropped > 0 ==> all[dropped].at < now - before.window
            &&& forall|i: int|
                dropped < i < all.len() ==> (#[trigger] all[i]).at >= now - before.window
        }
    &&& after.data.last() == (Sample { at: now, rtt: item })
    &&& after.window == before.window
    &&& after.display == before.display
    &&& after.style == before.style
    &&& after.simple_graphics == before.simple_graphics
    &&& after.smoothing == before.smoothing
    &&& before.smoothing is None ==> after.smoothed == before.smoothed && after.average
        == before.average
    &&& before.smoothing matches Some(weight) ==> {
        &&& is_next_average(weight, before.average, item, after.average)
        &&& after.smoothed == before.smoothed.push(
            Point {
                at: now,
                level: if item is None {
                    None
                } else {
                    Some(Signed { negative: false, size: after.average.unwrap() })
                },
            },
        ).skip(all.len() - after.data.len())
    }
}

/// What a sample does to the average: a timeout leaves it as it was, the first reply starts it, and a
/// reply after that moves it to the mean of the two, in which the reply has the weight and the average
/// so far has the rest.
pub open spec fn is_next_average(
    weight: Weight,
    before: Option<Double>,
    item: Option<u128>,
    after: Option<Double>,
) -> bool {
    match (item, before) {
        (None, _) => after == before,
        (Some(rtt), None) => after matches Some(average) && reply_level(rtt) == (Signed {
            negative: false,
            size: average,
        }),
        (Some(rtt), Some(previous)) => after matches Some(average) && forall|bits: nat|
            bits <= 53 && rtt <= #[trigger] pow2(bits) && previous.units() <= pow2(bits) * one()
                ==> near_the_mean(weight, previous.units(), rtt, average.units(), bits),
    }
}

/// The average is the weighted mean of the reply and the previous average, but for what rounding does
/// to times of up to so many bits.
pub open spec fn near_the_mean(
    weight: Weight,
    previous: nat,
    rtt: u128,
    average: nat,
    bits: nat,
) -> bool {
    let w = weight.value.units();
    let mean = w * (rtt * one()) + (one() - w) * previous;
    -(pow2(bits + 1_024) * one()) <= average * one() - mean <= pow2(bits + 1_024) * one()
}

#[verifier::spinoff_prover]
proof fn lemma_near_the_mean(weight: Weight, previous: nat, rtt: u128, bits: nat)
    requires
        weight.wf(),
        bits <= 53,
        rtt <= pow2(bits),
        previous <= pow2(bits) * one(),
    ensures
        near_the_mean(weight, previous, rtt, blend(weight, previous, rtt), bits),
{
    let w = weight.value.units();
    let c = difference(one(), w);
    let e = bits + UNIT_BITS as nat;
    let v = rtt as nat * one();
    lemma_mantissa_powers();
    if bits < 53 {
        vstd::arithmetic::power2::lemma_pow2_strictly_increases(bits, 53);
    }
    lemma_whole_exact(rtt as nat);
    vstd::arithmetic::power2::lemma_pow2_pos(UNIT_BITS as nat);
    vstd::arithmetic::power2::lemma_pow2_adds(bits, UNIT_BITS as nat);
    assert(v <= pow2(e)) by (nonlinear_arith)
        requires
            v == rtt as nat * one(),
            rtt <= pow2(bits),
            pow2(e) == pow2(bits) * one(),
    ;
    lemma_complement(w);
    lemma_part_close(w, v, e);
    lemma_part_close(c, previous, e);
    let n = product(w, v);
    let m = product(c, previous);
    vstd::arithmetic::power2::lemma_pow2_unfold(e + 1);
    lemma_rounded_close(n + m, 1);
    lemma_spacing(n + m, e + 1);
    let s = blend(weight, previous, rtt);
    let unit = pow2((e - 52) as nat);
    vstd::arithmetic::power2::lemma_pow2_unfold((e - 51) as nat);
    vstd::arithmetic::power2::lemma_pow2_unfold((e - 50) as nat);
    let rest = (one() - w) as nat;
    // What the complement is off by, times the previous average.
    assert(-(unit * one()) <= 2 * (c * previous - rest * previous) <= unit * one()) by {
        vstd::arithmetic::power2::lemma_pow2_adds(1_021, e);
        vstd::arithmetic::power2::lemma_pow2_adds((e - 53) as nat, UNIT_BITS as nat);
        vstd::arithmetic::power2::lemma_pow2_unfold((e - 52) as nat);
        let off = 2 * (c - rest);
        let part = pow2(1_021);
        let top = pow2(e);
        let half = pow2((e - 53) as nat);
        vstd::arithmetic::power2::lemma_pow2_pos(1_021);
        assert(-part <= off <= part);
        assert(-(part * top) <= off * previous <= part * top) by (nonlinear_arith)
            requires
                -part <= off <= part,
                0 <= previous <= top,
        ;
        assert(off * previous == 2 * (c * previous - rest * previous)) by (nonlinear_arith)
            requires
                off == 2 * (c - rest),
        ;
        assert(part * top == half * one());
        assert(unit * one() == half * one() + half * one()) by (nonlinear_arith)
            requires
                unit == 2 * half,
        ;
    }
    let mean = w * v + rest * previous;
    assert(2 * (s * one() - mean) == 2 * (s - (n + m)) * one() + 2 * (n * one() - w * v) + 2 * (m
        * one() - c * previous) + 2 * (c * previous - rest * previous)) by (nonlinear_arith)
        requires
            mean == w * v + rest * previous,
    ;
    let off = 2 * (s - (n + m));
    assert(-((2 * unit) * one()) <= off * one() <= (2 * unit) * one()) by (nonlinear_arith)
        requires
            -(2 * unit) <= off <= 2 * unit,
    ;
    assert((2 * unit) * one() == 2 * (unit * one())) by (nonlinear_arith);
    assert((4 * unit) * one() == 4 * (unit * one())) by (nonlinear_arith);
    assert(pow2(bits + 1_024) == 4 * unit);
}

/// A product with a number that is at most one is off by little.
proof fn lemma_part_close(a: nat, b: nat, e: nat)
    requires
        a <= one(),
        b <= pow2(e),
        e >= UNIT_BITS,
    ensures
        product(a, b) <= pow2(e),
        -(pow2((e - 52) as nat) * one()) <= 2 * (product(a, b) * one() - a * b) <= pow2(
            (e - 52) as nat,
        ) * one(),
{
    let x = a * b;
    let top = pow2(e);
    vstd::arithmetic::power2::lemma_pow2_pos(UNIT_BITS as nat);
    assert(x <= 1 * top * one()) by (nonlinear_arith)
        requires
            x == a * b,
            a <= one(),
            b <= top,
    ;
    crate::rounding::lemma_rounded_at_most(x, one(), 1, e);
    lemma_rounded_close(x, one());
    let floor = x / one();
    vstd::arithmetic::div_mod::lemma_fundamental_div_mod(x as int, one() as int);
    vstd::arithmetic::div_mod::lemma_mod_bound(x as int, one() as int);
    assert(floor <= top) by (nonlinear_arith)
        requires
            one() * floor <= top * one(),
            one() > 0,
    ;
    lemma_spacing(floor, e);
    let power = pow2(excess_bits(floor));
    let unit = pow2((e - 52) as nat);
    assert(power * one() <= unit * one()) by (nonlinear_arith)
        requires
            power <= unit,
    ;
}

proof fn lemma_is_next_average(weight: Weight, before: Option<Double>, item: Option<u128>)
    requires
        weight.wf(),
        average_in_range(before),
    ensures
        is_next_average(weight, before, item, averaged(weight, before, item)),
{
    if let (Some(rtt), Some(previous)) = (item, before) {
        crate::smoothing::lemma_blend_can_be_written(weight, previous.units(), rtt);
        assert forall|bits: nat|
            bits <= 53 && rtt <= #[trigger] pow2(bits) && previous.units() <= pow2(bits)
                * one() implies near_the_mean(
            weight,
            previous.units(),
            rtt,
            blend(weight, previous.units(), rtt),
            bits,
        ) by {
            lemma_near_the_mean(weight, previous.units(), rtt, bits);
        }
    }
}

/// The average that follows a sample is what it should be.
pub proof fn law_averages_are_means(
    weight: Weight,
    before: Option<Double>,
    item: Option<u128>,
    after: Option<Double>,
)
    requires
        weight.wf(),
        average_in_range(before),
        call_ensures(next_average, (weight, before, item), after),
    ensures
        is_next_average(weight, before, item, after),
{
    lemma_is_next_average(weight, before, item);
}

/// Only numbers from zero to one are weights, and each of them is the weight it says.
pub proof fn law_weights(value: Double, weight: Option<Weight>)
    requires
        value.wf(),
        call_ensures(Weight::new, (value,), weight),
    ensures
        weight is Some <==> value.units() <= one(),
        weight matches Some(w) ==> w.value == value,
{
}

proof fn lemma_takes_in(plot: PlotModel, now: i64, item: Option<u128>)
    requires
        plot.wf(),
    ensures
        takes_in(plot, plot.updated(now, item), now, item),
{
    let all = plot.data.push(Sample { at: now, rtt: item });
    let dropped = expired(all, now - plot.window) as int;
    law_expired_ends_at_the_last_one(all, now - plot.window);
    assert(plot.recorded(now, item).data =~= all);
    assert(plot.updated(now, item).data == all.skip(dropped));
    assert(all.skip(dropped).last() == all.last());
    if let Some(weight) = plot.smoothing {
        lemma_is_next_average(weight, plot.average, item);
        assert(plot.updated(now, item).data.len() == all.len() - dropped);
    }
}

/// An update takes in what came of the ping, a reply with its round trip time or a timeout, and keeps
/// what lies within the window.
pub proof fn law_update_takes_in_the_sample(
    plot: &mut PlotData,
    now: i64,
    item: Option<u128>,
    done: (),
)
    requires
        old(plot)@.wf(),
        call_ensures(PlotData::update_at, (plot, now, item), done),
    ensures
        takes_in(old(plot)@, final(plot)@, now, item),
{
    lemma_takes_in(old(plot)@, now, item);
}

/// So does an update at the present time.
pub proof fn law_update_takes_in_the_present_sample(
    plot: &mut PlotData,
    item: Option<u128>,
    done: (),
)
    requires
        old(plot)@.wf(),
        call_ensures(PlotData::update, (plot, item), done),
    ensures
        exists|now: i64| now >= 0 && #[trigger] takes_in(old(plot)@, final(plot)@, now, item),
{
    let now = choose|now: i64|
        0 <= now <= LAST_SECOND * 1_000 + 999 && final(plot)@ == #[trigger] old(plot)@.updated(
            now,
            item,
        );
    lemma_takes_in(old(plot)@, now, item);
}

/// One host takes in a sample, and everything else about the graph stays as it was.
pub open spec fn one_takes_in(
    before: AppModel,
    after: AppModel,
    host: int,
    now: i64,
    item: Option<u128>,
) -> bool {
    &&& after.plots.len() == before.plots.len()
    &&& takes_in(before.plots[host], after.plots[host], now, item)
    &&& forall|other: int|
        0 <= other < before.plots.len() && other != host ==> #[trigger] after.plots[other]
            == before.plots[other]
    &&& same_axes(before, after)
}

/// The start, the stretch of time and the fixed ends are the same.
pub open spec fn same_axes(before: AppModel, after: AppModel) -> bool {
    &&& after.interval == before.interval
    &&& after.started == before.started
    &&& after.y_min == before.y_min
    &&& after.y_max == before.y_max
}

/// An update of a host goes to that host and to no other.
pub proof fn law_update_goes_to_its_host(
    app: &mut App,
    host: usize,
    now: i64,
    item: Option<u128>,
    done: (),
)
    requires
        old(app)@.wf(),
        host < old(app)@.plots.len(),
        call_ensures(App::update_at, (app, host, now, item), done),
    ensures
        one_takes_in(old(app)@, final(app)@, host as int, now, item),
{
    lemma_takes_in(old(app)@.plots[host as int], now, item);
}

/// So does one at the present time.
pub proof fn law_present_update_goes_to_its_host(
    app: &mut App,
    host: usize,
    item: Option<u128>,
    done: (),
)
    requires
        old(app)@.wf(),
        host < old(app)@.plots.len(),
        call_ensures(App::update, (app, host, item), done),
    ensures
        exists|now: i64|
            now >= 0 && #[trigger] one_takes_in(old(app)@, final(app)@, host as int, now, item),
{
    let now = choose|now: i64|
        0 <= now <= LAST_SECOND * 1_000 + 999 && final(app)@ == #[trigger] old(app)@.updated(
            host as int,
            now,
            item,
        );
    lemma_takes_in(old(app)@.plots[host as int], now, item);
    assert(one_takes_in(old(app)@, final(app)@, host as int, now, item));
}

/// What an event does to the graph, and what is done about it: a result is taken in with its time in
/// microseconds, a timeout as a timeout, and nothing else changes the graph. The program waits for
/// more after what came of a host, draws when it is time to, ends when the user or the program that
/// pings ends, and fails with that program's words when it failed.
pub open spec fn reacts(
    before: AppModel,
    after: AppModel,
    event: Event,
    now: i64,
    action: Action,
) -> bool {
    match event {
        Event::Render => after == before && action == Action::Draw,
        Event::Terminate => after == before && action == Action::Stop,
        Event::Update(_, Update::Unknown) => after == before && action == Action::Wait,
        Event::Update(host, Update::Timeout) => action == Action::Wait && one_takes_in(
            before,
            after,
            host as int,
            now,
            None,
        ),
        Event::Update(host, Update::Result(micros)) => action == Action::Wait && one_takes_in(
            before,
            after,
            host as int,
            now,
            Some(micros),
        ),
        Event::Update(_, Update::Terminated { success: true, .. }) => after == before && action
            == Action::Stop,
        Event::Update(_, Update::Terminated { success: false, status, stderr }) => {
            &&& after == before
            &&& action matches Action::Fail(message)
            &&& message@ == "There was an error running ping: "@ + status@ + "\nStderr: "@ + stderr@
                + "\n"@
        },
    }
}

proof fn lemma_reacts(before: AppModel, event: Event, now: i64, action: Action)
    requires
        before.wf(),
        fits(event, before.plots.len()),
        is_reaction(event, action),
    ensures
        reacts(before, after_event(before, event, now), event, now, action),
{
    if let Event::Update(host, update) = event {
        if let Some(item) = update.sample() {
            lemma_takes_in(before.plots[host as int], now, item);
        }
    }
}

/// Each event is taken in and reacted to as it should be.
pub proof fn law_events_are_reacted_to(app: &mut App, event: Event, now: i64, action: Action)
    requires
        old(app)@.wf(),
        fits(event, old(app)@.plots.len()),
        call_ensures(App::handle_at, (app, event, now), action),
    ensures
        reacts(old(app)@, final(app)@, event, now, action),
{
    lemma_reacts(old(app)@, event, now, action);
}

/// So is each event that has just come.
pub proof fn law_present_events_are_reacted_to(app: &mut App, event: Event, action: Action)
    requires
        old(app)@.wf(),
        fits(event, old(app)@.plots.len()),
        call_ensures(App::handle, (app, event), action),
    ensures
        exists|now: i64| now >= 0 && #[trigger] reacts(old(app)@, final(app)@, event, now, action),
{
    let now = choose|now: i64|
        0 <= now <= LAST_SECOND * 1_000 + 999 && final(app)@ == #[trigger] after_event(
            old(app)@,
            event,
            now,
        );
    lemma_reacts(old(app)@, event, now, action);
    assert(reacts(old(app)@, final(app)@, event, now, action));
}

/// Every event but one that brings a sample of a host that there is not can be taken in.
pub proof fn law_only_unknown_hosts_do_not_fit(event: Event, hosts: nat)
    ensures
        !fits(event, hosts) <==> match event {
            Event::Update(host, Update::Result(_)) => host >= hosts,
            Event::Update(host, Update::Timeout) => host >= hosts,
            _ => false,
        },
{
}

/// A command that succeeded is a result with the time it took, and one that failed is a timeout.
pub proof fn law_commands_are_timed(success: bool, micros: u128, update: Update)
    requires
        call_ensures(Update::of_command, (success, micros), update),
    ensures
        success <==> update == Update::Result(micros),
        !success <==> update == Update::Timeout,
{
}

/// The program ends on the escape key, on `q`, and on `c` with the control key, and on nothing else.
pub proof fn law_keys_that_end(key: Key, control: bool, ends: bool)
    requires
        call_ensures(ends_program, (key, control), ends),
    ensures
        ends <==> match key {
            Key::Esc => true,
            Key::Char(c) => c == 'q' || control && c == 'c',
            Key::Other => false,
        },
{
}

/// A graph holds the plots it is made of, in their order, shows so many seconds from its start on, and
/// has its ends fixed where it was told to.
pub proof fn law_graph_is_made_of_its_parts(
    data: Vec<PlotData>,
    buffer: u64,
    started: Moment,
    y_min: Option<Signed>,
    y_max: Option<Signed>,
    app: App,
    fixed: bool,
)
    requires
        buffer <= SPAN_SECONDS,
        call_ensures(App::started_at, (data, buffer, started, y_min, y_max), app) || (
        call_ensures(App::new, (data, buffer, y_min, y_max), app) && app@.started == started),
        call_ensures(App::has_fixed_y_axis, (&app,), fixed),
    ensures
        app@.plots.len() == data@.len(),
        forall|i: int| 0 <= i < data@.len() ==> #[trigger] app@.plots[i] == data@[i]@,
        app@.interval == 1_000 * buffer,
        app@.started == started,
        app@.y_min == y_min,
        app@.y_max == y_max,
        !fixed <==> y_min is None && y_max is None,
{
}

/// The plots that a graph hands out are its own.
pub proof fn law_plots_are_handed_out(app: App, plots: &Vec<PlotData>, host: int)
    requires
        call_ensures(App::plots, (&app,), plots),
        0 <= host < plots@.len(),
    ensures
        plots@.len() == app@.plots.len(),
        plots@[host]@ == app@.plots[host],
{
    assert(plot_models(plots@)[host] == plots@[host]@);
}

/// A new host has no samples, the name and style it was given, a window of so many seconds, and the
/// smoothing it was given.
pub proof fn law_new_host_is_empty(
    display: String,
    buffer: u64,
    style: ratatui::style::Style,
    simple_graphics: bool,
    smoothing: Option<Weight>,
    plot: PlotData,
)
    requires
        call_ensures(PlotData::new, (display, buffer, style, simple_graphics, smoothing), plot),
    ensures
        plot@.data.len() == 0,
        plot@.points().len() == 0,
        plot@.average is None,
        buffer <= i64::MAX ==> plot@.window == 1_000 * buffer,
        buffer > i64::MAX ==> plot@.window == 1_000 * (buffer - u64::MAX - 1),
        plot@.display == display@,
        plot@.style == style,
        plot@.simple_graphics == simple_graphics,
        plot@.smoothing == smoothing,
{
}

/// Simple graphics are drawn with dots, and others in braille.
pub proof fn law_markers(plot: PlotData, marker: Marker)
    requires
        call_ensures(PlotData::marker, (&plot,), marker),
    ensures
        marker == Marker::Dot <==> plot@.simple_graphics,
        marker == Marker::Braille <==> !plot@.simple_graphics,
{
}

/// The replies of a host are those of its samples, in their order.
pub proof fn law_replies_of_a_host(plot: PlotData, values: Vec<u128>)
    requires
        call_ensures(PlotData::replies, (&plot,), values),
    ensures
        values@ == replies(plot@.data),
        forall|rtt: u128|
            #[trigger] values@.contains(rtt) <==> exists|i: int|
                0 <= i < plot@.data.len() && (#[trigger] plot@.data[i]).rtt == Some(rtt),
{
    assert forall|rtt: u128|
        #[trigger] values@.contains(rtt) <==> exists|i: int|
            0 <= i < plot@.data.len() && (#[trigger] plot@.data[i]).rtt == Some(rtt) by {
        law_replies_are_sampled(plot@.data, rtt);
    }
}

/// The line of a host has one point for each of its samples, at the time of the sample, with a gap
/// where that is a timeout. Without smoothing the point is at the level of the reply, and with
/// smoothing it is a point of the smoothed line.
pub open spec fn is_line_of(points: Seq<Point>, plot: PlotModel) -> bool {
    &&& points.len() == plot.data.len()
    &&& forall|i: int|
        0 <= i < points.len() ==> {
            let point = #[trigger] points[i];
            &&& point.at == plot.data[i].at
            &&& point.level is Some <==> plot.data[i].rtt is Some
            &&& plot.smoothing is None ==> (plot.data[i].rtt matches Some(rtt) ==> point.level
                == Some(reply_level(rtt)))
            &&& plot.smoothing is Some ==> point == plot.smoothed[i]
        }
}

proof fn lemma_is_line_of(plot: PlotModel)
    requires
        plot.wf(),
    ensures
        is_line_of(plot.points(), plot),
{
    law_points_match_samples(plot);
}

/// The points of a host are the line of its samples.
pub proof fn law_points_are_the_line(plot: PlotData, points: Vec<Point>)
    requires
        plot@.wf(),
        call_ensures(PlotData::plot_points, (&plot,), points),
    ensures
        is_line_of(points@, plot@),
{
    lemma_is_line_of(plot@);
}

/// A point is pulled to the nearer end of the axis where it lies outside of it, and stays where it is
/// otherwise.
pub open spec fn is_pulled_inside(point: Point, drawn: Point, bottom: Signed, top: Signed) -> bool {
    &&& drawn.at == point.at
    &&& match point.level {
        None => drawn.level is None,
        Some(level) => {
            &&& level.units() < bottom.units() ==> drawn.level == Some(bottom)
            &&& level.units() > top.units() ==> drawn.level == Some(top)
            &&& bottom.units() <= level.units() <= top.units() ==> drawn.level == Some(level)
        },
    }
}

/// The clamped points of a host are those of its line, each pulled inside the axis.
pub proof fn law_clamped_points_are_pulled_inside(
    plot: PlotData,
    bounds: YBounds,
    points: Vec<Point>,
    clamped: Vec<Point>,
)
    requires
        bounds.ordered(),
        call_ensures(PlotData::plot_points, (&plot,), points),
        call_ensures(PlotData::clamped_data, (&plot, bounds), clamped),
    ensures
        clamped@.len() == points@.len(),
        forall|i: int|
            0 <= i < points@.len() ==> is_pulled_inside(
                points@[i],
                #[trigger] clamped@[i],
                bounds.lower.unwrap(),
                bounds.upper,
            ),
{
}

/// Each host is drawn with its own line, in the order of the hosts. With a free axis the line is drawn
/// as it is, and with a fixed one each of its points is pulled inside the axis.
pub proof fn law_each_host_is_drawn(app: App, bounds: YBounds, drawn: Vec<Vec<Point>>, host: int)
    requires
        app@.wf(),
        app@.has_fixed_y_axis() ==> bounds.ordered(),
        call_ensures(App::drawn_points, (&app, bounds), drawn),
        0 <= host < app@.plots.len(),
    ensures
        drawn@.len() == app@.plots.len(),
        drawn@[host]@.len() == app@.plots[host].data.len(),
        app@.y_min is None && app@.y_max is None ==> is_line_of(drawn@[host]@, app@.plots[host]),
        app@.y_min is Some || app@.y_max is Some ==> exists|line: Seq<Point>|
            {
                &&& #[trigger] is_line_of(line, app@.plots[host])
                &&& forall|i: int|
                    0 <= i < line.len() ==> is_pulled_inside(
                        line[i],
                        #[trigger] drawn@[host]@[i],
                        bounds.lower.unwrap(),
                        bounds.upper,
                    )
            },
{
    let plot = app@.plots[host];
    lemma_is_line_of(plot);
    let all = drawn@.map_values(|points: Vec<Point>| points@);
    assert(all.len() == drawn@.len());
    assert(all[host] == drawn@[host]@);
    assert(all[host] == app@.drawn(bounds)[host]);
    if app@.has_fixed_y_axis() {
        let line = plot.points();
        assert forall|i: int| 0 <= i < line.len() implies is_pulled_inside(
            line[i],
            #[trigger] drawn@[host]@[i],
            bounds.lower.unwrap(),
            bounds.upper,
        ) by {}
        assert(is_line_of(line, plot));
    }
}

/// The sum of two stretches of values is the sum of their sums.
pub proof fn law_total_of_parts(a: Seq<u128>, b: Seq<u128>, value: u128)
    ensures
        total(a + b) == total(a) + total(b),
        total(seq![value]) == value,
        total(Seq::<u128>::empty()) == 0,
    decreases b.len(),
{
    let single = seq![value];
    assert(single.drop_last() =~= Seq::empty());
    assert(total(single.drop_last()) == 0);
    if b.len() == 0 {
        assert(a + b =~= a);
    } else {
        law_total_of_parts(a, b.drop_last(), value);
        assert((a + b).drop_last() =~= a + b.drop_last());
        assert((a + b).last() == b.last());
    }
}

/// Some values are in order: no value is followed by a lesser one.
pub open spec fn goes_up(values: Seq<u128>) -> bool {
    forall|i: int, j: int| 0 <= i < j < values.len() ==> #[trigger] values[i] <= #[trigger] values[j]
}

/// The same values, each as often, but in order.
pub open spec fn put_in_order(values: Seq<u128>, ordered: Seq<u128>) -> bool {
    &&& goes_up(ordered)
    &&& ordered.to_multiset() == values.to_multiset()
}

proof fn lemma_put_in_order(values: Seq<u128>, ordered: Seq<u128>)
    requires
        put_in_order(values, ordered),
    ensures
        ordered == ascending(values),
        ordered.len() == values.len(),
        ordered.len() > 0 ==> ordered[0] == least(values) && ordered.last() == greatest(values),
{
    assert(is_ascending(ordered));
    lemma_ascending_unique(ordered, values);
    law_ascending_keeps_values(values);
    if values.len() > 0 {
        law_ascending_ends(values);
    }
}

/// What the header says of the samples, with their replies put in order, as long as these come to less
/// than 2 to the 53rd microseconds: the name, then the last reply or 0 after a timeout, the shortest,
/// the longest, the mean, the mean distance between neighbours, the value at 95 hundredths of the way,
/// or 0 where there is none, and the number of timeouts.
pub open spec fn header_says(
    lines: Seq<String>,
    display: Seq<char>,
    data: Seq<Sample>,
    ordered: Seq<u128>,
) -> bool {
    let count = ordered.len() as int;
    let index = (95 * count + 50) / 100;
    let last = match data.last().rtt {
        Some(rtt) => rtt as int,
        None => 0,
    };
    let spread = ordered[count - 1] - ordered[0];
    &&& lines.len() == 8
    &&& lines[0]@ == display
    &&& lines[1]@ == "last "@ + duration_text(last as u64)
    &&& lines[2]@ == "min "@ + duration_text(ordered[0] as u64)
    &&& lines[3]@ == "max "@ + duration_text(ordered[count - 1] as u64)
    &&& lines[4]@ == "avg "@ + duration_text((total(ordered) as int / count) as u64)
    &&& lines[5]@ == "jtr "@ + duration_text(
        (if count == 1 {
            0
        } else {
            spread / (count - 1)
        }) as u64,
    )
    &&& lines[6]@ == "p95 "@ + duration_text(
        (if index < count {
            ordered[index] as int
        } else {
            0
        }) as u64,
    )
    &&& lines[7]@ == "t/o "@ + decimal((data.len() - count) as nat)
}

/// Each line of the header shows its own statistic over the samples.
pub proof fn law_header_shows_the_samples(plot: PlotData, lines: Vec<String>, ordered: Seq<u128>)
    requires
        call_ensures(PlotData::header_stats, (&plot,), lines),
        put_in_order(replies(plot@.data), ordered),
        0 < ordered.len() <= 2_207_530,
        total(ordered) < MANTISSA_END,
    ensures
        header_says(lines@, plot@.display, plot@.data, ordered),
{
    let data = plot@.data;
    let values = replies(data);
    let count = values.len();
    lemma_put_in_order(values, ordered);
    lemma_total_ascending(values);
    law_stats_are_exact(data);
    law_percentile_index_is_95_percent(count);
    crate::samples::law_samples_are_replies_or_timeouts(data);
    let all = lines@.map_values(|line: String| line@);
    assert(all.len() == lines@.len());
    assert(all == header_lines(plot@.display, data));
    assert(forall|i: int| 0 <= i < 8 ==> all[i] == (#[trigger] lines@[i])@);
}

/// Whatever the replies, the header shows the shortest and the longest of them and the one at 95
/// hundredths of the way as they are in double precision, and with more than ten replies there always
/// is such a one.
pub proof fn law_header_shows_replies(plot: PlotData, lines: Vec<String>, ordered: Seq<u128>)
    requires
        call_ensures(PlotData::header_stats, (&plot,), lines),
        put_in_order(replies(plot@.data), ordered),
        0 < ordered.len() <= 2_207_530,
    ensures
        ({
            let count = ordered.len() as int;
            let index = (95 * count + 50) / 100;
            &&& lines@.len() == 8
            &&& lines@[2]@ == "min "@ + duration_text(shown(ordered[0]))
            &&& lines@[3]@ == "max "@ + duration_text(shown(ordered[count - 1]))
            &&& index < count ==> lines@[6]@ == "p95 "@ + duration_text(shown(ordered[index]))
            &&& index >= count ==> lines@[6]@ == "p95 "@ + duration_text(0)
            &&& count > 10 ==> index < count
            &&& plot@.data.last().rtt matches Some(rtt) ==> lines@[1]@ == "last "@ + duration_text(
                shown(rtt),
            )
            &&& plot@.data.last().rtt is None ==> lines@[1]@ == "last "@ + duration_text(0)
            &&& count == 1 ==> lines@[4]@ == "avg "@ + duration_text(shown(ordered[0]))
            &&& count == 1 ==> lines@[5]@ == "jtr "@ + duration_text(0)
        }),
{
    let data = plot@.data;
    let values = replies(data);
    lemma_put_in_order(values, ordered);
    law_stats_are_consistent(data);
    law_percentile_index_is_95_percent(values.len());
    law_percentile_index_bound(values.len());
    let all = lines@.map_values(|line: String| line@);
    assert(all.len() == lines@.len());
    assert(all == header_lines(plot@.display, data));
    assert(forall|i: int| 0 <= i < 8 ==> all[i] == (#[trigger] lines@[i])@);
}

/// Without a reply the header is the name alone.
pub proof fn law_header_without_replies(plot: PlotData, lines: Vec<String>)
    requires
        call_ensures(PlotData::header_stats, (&plot,), lines),
        forall|i: int| 0 <= i < plot@.data.len() ==> (#[trigger] plot@.data[i]).rtt is None,
    ensures
        lines@.len() == 1,
        lines@[0]@ == plot@.display,
{
    let values = replies(plot@.data);
    if values.len() > 0 {
        law_replies_are_sampled(plot@.data, values[0]);
        assert(values.contains(values[0]));
    }
    let all = lines@.map_values(|line: String| line@);
    assert(all.len() == lines@.len());
    assert(all == header_lines(plot@.display, plot@.data));
    assert(all[0] == lines@[0]@);
}

/// The statistics are those of the samples, as long as these come to less than 2 to the 53rd
/// microseconds.
pub proof fn law_statistics_of_the_samples(
    data: Vec<Sample>,
    result: Option<Stats>,
    ordered: Seq<u128>,
)
    requires
        call_ensures(stats, (&data,), result),
        put_in_order(replies(data@), ordered),
        total(ordered) < MANTISSA_END,
        ordered.len() <= MANTISSA_END,
    ensures
        result is None <==> ordered.len() == 0,
        result matches Some(s) ==> {
            let count = ordered.len() as int;
            &&& s.min == ordered[0]
            &&& s.max == ordered[count - 1]
            &&& s.avg == total(ordered) as int / count
            &&& s.timeouts == data@.len() - count
            &&& count > 1 ==> s.jtr == (ordered[count - 1] - ordered[0]) / (count - 1)
            &&& count == 1 ==> s.jtr == 0
            &&& data@.last().rtt matches Some(rtt) ==> s.last == rtt
            &&& data@.last().rtt is None ==> s.last == 0
            &&& 10 < count <= 2_207_530 ==> s.p95 == ordered[(95 * count + 50) / 100]
            &&& count <= 10 ==> s.p95 == 0
        },
{
    let values = replies(data@);
    let count = values.len();
    lemma_put_in_order(values, ordered);
    lemma_total_ascending(values);
    crate::samples::law_samples_are_replies_or_timeouts(data@);
    assert(data@.len() == data.len());
    if count > 0 {
        law_stats_are_exact(data@);
        if count <= 2_207_530 {
            law_percentile_index_is_95_percent(count);
        }
    }
}

/// The index of the 95th percentile is that of 95 hundredths of the way, rounded, but for what single
/// precision does to great numbers.
pub proof fn law_percentile_position(count: usize, index: usize)
    requires
        call_ensures(percentile_position, (count,), index),
    ensures
        count <= 2_207_530 ==> index == (95 * count + 50) / 100,
        -51 - count / 1_000 <= 100 * index - 95 * count <= 51 + count / 1_000,
{
    if count <= 2_207_530 {
        law_percentile_index_is_95_percent(count as nat);
    }
    lemma_percentile_is_near(count as nat);
}

#[verifier::spinoff_prover]
proof fn lemma_near_95_percent(n: int, near: int, product: int, scaled: int, index: int)
    requires
        n >= 0,
        product == 15_938_355 * near,
        0xFF_FFFF * n <= 0x100_0000 * near <= 0x100_0001 * n,
        0xFF_FFFF * product <= 0x100_0000 * scaled <= 0x100_0001 * product,
        index == (scaled + 0x80_0000) / 0x100_0000,
    ensures
        -51 - n / 1_000 <= 100 * index - 95 * n <= 51 + n / 1_000,
{
    assert(0x100_0000 * index <= scaled + 0x80_0000 < 0x100_0000 * index + 0x100_0000);
    // In parts of a hundred millions, each step loses less than ten.
    assert(99_999_990 * n <= 100_000_000 * near <= 100_000_010 * n) by (nonlinear_arith)
        requires
            n >= 0,
            0xFF_FFFF * n <= 0x100_0000 * near <= 0x100_0001 * n,
    ;
    assert(99_999_990 * product <= 100_000_000 * scaled <= 100_000_010 * product)
        by (nonlinear_arith)
        requires
            product >= 0,
            0xFF_FFFF * product <= 0x100_0000 * scaled <= 0x100_0001 * product,
    ;
    assert(100 * product <= 95 * (0x100_0000 * near)) by (nonlinear_arith)
        requires
            near >= 0,
            product == 15_938_355 * near,
    ;
    assert(100_000_000 * (100 * product) >= 94_999_990 * 100 * (0x100_0000 * near))
        by (nonlinear_arith)
        requires
            near >= 0,
            product == 15_938_355 * near,
    ;
    let big = 0x100_0000int;
    assert(1_000_000 * (100 * scaled) <= 1_000_001 * (95 * (big * near))) by (nonlinear_arith)
        requires
            100_000_000 * scaled <= 100_000_010 * product,
            100 * product <= 95 * (big * near),
            near >= 0,
            big == 0x100_0000,
    ;
    assert(1_000_000 * (100 * scaled) >= 999_999 * (95 * (big * near))) by (nonlinear_arith)
        requires
            100_000_000 * scaled >= 99_999_990 * product,
            100_000_000 * (100 * product) >= 94_999_990 * 100 * (big * near),
            near >= 0,
            big == 0x100_0000,
    ;
    assert(100_000 * (100 * scaled) <= 100_001 * (95 * (big * n))) by (nonlinear_arith)
        requires
            1_000_000 * (100 * scaled) <= 1_000_001 * (95 * (big * near)),
            100_000_000 * near <= 100_000_010 * n,
            n >= 0,
            big == 0x100_0000,
    ;
    assert(100_000 * (100 * scaled) >= 99_999 * (95 * (big * n))) by (nonlinear_arith)
        requires
            1_000_000 * (100 * scaled) >= 999_999 * (95 * (big * near)),
            100_000_000 * near >= 99_999_990 * n,
            n >= 0,
            big == 0x100_0000,
    ;
    let allowed = n / 1_000;
    assert(100 * index - 95 * n <= 51 + allowed) by (nonlinear_arith)
        requires
            100_000 * (100 * scaled) <= 100_001 * (95 * (big * n)),
            big * index <= scaled + 0x80_0000,
            n >= 0,
            1_000 * allowed + 1_000 > n,
            allowed >= 0,
            big == 0x100_0000,
    ;
    assert(-51 - allowed <= 100 * index - 95 * n) by (nonlinear_arith)
        requires
            100_000 * (100 * scaled) >= 99_999 * (95 * (big * n)),
            scaled + 0x80_0000 < big * index + big,
            n >= 0,
            1_000 * allowed + 1_000 > n,
            allowed >= 0,
            big == 0x100_0000,
    ;
}

/// Until the graph is full the X axis stands still, from the start on. From then on it ends at the
/// present. It always spans the stretch of time that the graph shows.
pub open spec fn is_x_axis(started: Moment, interval: i64, now: Moment, bounds: XBounds) -> bool {
    let passed = (now.secs - started.secs) * 1_000_000_000 + (now.nanos - started.nanos);
    &&& bounds.upper - bounds.lower == interval
    &&& passed < interval * 1_000_000 ==> bounds.lower == in_millis(started)
    &&& passed >= interval * 1_000_000 ==> bounds.upper == in_millis(now)
}

/// An instant in whole milliseconds since the Unix epoch.
pub open spec fn in_millis(moment: Moment) -> int {
    moment.secs * 1_000 + moment.nanos as int / 1_000_000
}

proof fn lemma_is_x_axis(started: Moment, interval: i64, now: Moment)
    requires
        stretch_fits(started, interval),
        now.wf(),
    ensures
        is_x_axis(started, interval, now, x_bounds(started, interval, now)),
{
    assert(started.milliseconds() == in_millis(started));
    assert(now.milliseconds() == in_millis(now));
}

/// The X axis is where it should be.
pub proof fn law_x_axis(started: Moment, interval: i64, now: Moment, bounds: XBounds)
    requires
        stretch_fits(started, interval),
        now.wf(),
        call_ensures(x_axis_bounds_of, (started, interval, now), bounds),
    ensures
        is_x_axis(started, interval, now, bounds),
{
    lemma_is_x_axis(started, interval, now);
}

/// While the graph is not full, the X axis is the same at any two instants, and from then on a later
/// one moves it by the time between the two.
pub proof fn law_x_axis_at_two_instants(
    started: Moment,
    interval: i64,
    now: Moment,
    later: Moment,
    bounds: XBounds,
    moved: XBounds,
)
    requires
        stretch_fits(started, interval),
        now.wf(),
        later.wf(),
        call_ensures(x_axis_bounds_of, (started, interval, now), bounds),
        call_ensures(x_axis_bounds_of, (started, interval, later), moved),
    ensures
        now.nanoseconds() <= later.nanoseconds() && later.nanoseconds() - started.nanoseconds()
            < interval * 1_000_000 ==> moved == bounds,
        started.nanoseconds() + interval * 1_000_000 <= now.nanoseconds()
            && now.nanoseconds() <= later.nanoseconds() ==> moved.upper - bounds.upper == in_millis(
            later,
        ) - in_millis(now),
        started.nanoseconds() <= now.nanoseconds() ==> in_millis(started) <= bounds.lower,
{
    lemma_is_x_axis(started, interval, now);
    lemma_is_x_axis(started, interval, later);
    assert(started.milliseconds() == in_millis(started));
    assert(now.milliseconds() == in_millis(now));
}

/// The X axis of a graph is that of its own start and stretch of time.
pub proof fn law_x_axis_of_a_graph(app: App, now: Moment, bounds: XBounds, present: XBounds)
    requires
        stretch_fits(app@.started, app@.interval),
        now.wf(),
        call_ensures(App::x_axis_bounds_at, (&app, now), bounds),
        call_ensures(App::x_axis_bounds, (&app,), present),
    ensures
        is_x_axis(app@.started, app@.interval, now, bounds),
        exists|clock: Moment|
            clock.secs >= 0 && #[trigger] is_x_axis(app@.started, app@.interval, clock, present),
{
    lemma_is_x_axis(app@.started, app@.interval, now);
    let clock = choose|clock: Moment|
        clock.wf() && clock.secs >= 0 && present == #[trigger] x_bounds(
            app@.started,
            app@.interval,
            clock,
        );
    lemma_is_x_axis(app@.started, app@.interval, clock);
}

/// A graph has an X axis exactly when its start is an instant of the calendar and the calendar goes on
/// for the stretch of time that is shown.
pub proof fn law_graphs_with_an_x_axis(app: App, fits: bool)
    requires
        call_ensures(App::has_x_axis, (&app,), fits),
    ensures
        fits <==> {
            &&& -8_334_601_228_800 <= app@.started.secs <= 8_210_266_876_799
            &&& app@.started.nanos < 1_000_000_000
            &&& app@.interval >= 0
            &&& in_millis(app@.started) + app@.interval <= 8_210_266_876_799_999
        },
{
}

/// An instant in whole milliseconds is not after the instant, and less than a millisecond before it.
pub proof fn law_milliseconds(moment: Moment, millis: i64)
    requires
        moment.wf(),
        call_ensures(Moment::timestamp_millis, (&moment,), millis),
    ensures
        millis == in_millis(moment),
        millis * 1_000_000 <= moment.secs * 1_000_000_000 + moment.nanos < (millis + 1) * 1_000_000,
{
}

/// The labels of the X axis stand for its two ends in whole seconds, rounded towards zero, and for the
/// instant just between these.
pub proof fn law_labelled_instants(bounds: XBounds, moments: Vec<Moment>)
    requires
        has_labels(bounds),
        call_ensures(x_label_moments, (bounds,), moments),
    ensures
        moments@.len() == 3,
        is_second_of(moments@[0], bounds.lower),
        is_second_of(moments@[2], bounds.upper),
        2 * (moments@[1].secs * 1_000_000_000 + moments@[1].nanos) == (moments@[0].secs
            + moments@[2].secs) * 1_000_000_000,
        moments@[1].nanos < 1_000_000_000,
{
}

/// A whole second that is nearest to some milliseconds on the side of the Unix epoch.
pub open spec fn is_second_of(moment: Moment, millis: i64) -> bool {
    &&& moment.nanos == 0
    &&& millis >= 0 ==> 0 <= millis - moment.secs * 1_000 < 1_000
    &&& millis <= 0 ==> 0 <= moment.secs * 1_000 - millis < 1_000
}

/// Each label of the X axis is the time of day at its instant, shifted by its offset from UTC.
pub proof fn law_labels_are_times_of_day(
    bounds: XBounds,
    offsets: Vec<i32>,
    moments: Vec<Moment>,
    labels: Vec<String>,
    i: int,
)
    requires
        has_labels(bounds),
        possible_offsets(offsets@),
        call_ensures(x_label_moments, (bounds,), moments),
        call_ensures(x_label_texts_at, (bounds, &offsets), labels),
        0 <= i < 3,
    ensures
        labels@.len() == 3,
        exists|second: nat|
            {
                &&& second < 86_400
                &&& (moments@[i].secs + offsets@[i] - second) % 86_400 == 0
                &&& labels@[i]@ == #[trigger] clock_text(second, moments@[i].nanos as nat)
            },
{
    let all = labels@.map_values(|label: String| label@);
    assert(all.len() == labels@.len());
    assert(all[i] == labels@[i]@);
    let second = ((moments@[i].secs + offsets@[i]) % 86_400) as nat;
    assert(labels@[i]@ == clock_text(second, moments@[i].nanos as nat));
}

/// The bounds of the Y axis come with seven labels, which say the numbers that stand beside it.
pub proof fn law_labels_say_their_numbers(
    app: App,
    bounds: YBounds,
    values: Vec<u64>,
    labels: Vec<String>,
    i: int,
)
    requires
        bounds.in_range(),
        call_ensures(y_label_values, (bounds,), values),
        call_ensures(App::y_axis_labels, (&app, bounds), labels) || call_ensures(
            y_label_texts,
            (bounds,),
            labels,
        ),
        0 <= i < 7,
    ensures
        values@.len() == 7,
        labels@.len() == 7,
        labels@[i]@ == duration_text(values@[i]),
{
    let all = labels@.map_values(|label: String| label@);
    assert(all.len() == labels@.len());
    assert(all[i] == labels@[i]@);
}

/// The level of a label on an axis of up to 2 to the 44th microseconds is off by very little.
#[verifier::spinoff_prover]
proof fn lemma_label_level(lower: int, upper: int, number: int)
    requires
        0 <= lower <= upper <= pow2(44) * one(),
        0 <= number <= 6,
    ensures
        0 <= label_level(lower, upper, number) <= pow2(48) * one(),
        -one() <= 2 * (6 * label_level(lower, upper, number) - 6 * lower - number * (upper - lower))
            <= one(),
{
    let gap = (upper - lower) as nat;
    let k = number as nat;
    vstd::arithmetic::power2::lemma_pow2_pos(UNIT_BITS as nat);
    vstd::arithmetic::power2::lemma2_to64();
    vstd::arithmetic::power2::lemma2_to64_rest();
    vstd::arithmetic::power2::lemma_pow2_adds(44, UNIT_BITS as nat);
    vstd::arithmetic::power2::lemma_pow2_adds(48, UNIT_BITS as nat);
    lemma_whole_exact(6);
    lemma_whole_exact(k);
    let d = rounded(gap, 1);
    lemma_rounded_close(gap, 1);
    lemma_spacing(gap, 1_118);
    crate::rounding::lemma_rounded_at_most(gap, 1, 1, 1_118);
    let step = rounded(d, 6);
    lemma_rounded_scaled(d, 6, one());
    assert(quotient(d, whole(6)) == step);
    lemma_rounded_close(d, 6);
    lemma_spacing(d / 6, 1_118);
    assert(d <= 1 * pow2(1_118) * 6);
    crate::rounding::lemma_rounded_at_most(d, 6, 1, 1_118);
    let some = step * k;
    assert(some <= 6 * pow2(1_118)) by (nonlinear_arith)
        requires
            some == step * k,
            step <= pow2(1_118),
            k <= 6,
    ;
    assert(step * (k * one()) == some * one()) by (nonlinear_arith)
        requires
            some == step * k,
    ;
    lemma_rounded_scaled(some, 1, one());
    assert(1 * one() == one());
    let p = rounded(some, 1);
    assert(product(step, whole(k)) == p);
    vstd::arithmetic::power2::lemma_pow2_adds(3, 1_118);
    vstd::arithmetic::power2::lemma_pow2_adds(4, 1_118);
    lemma_rounded_close(some, 1);
    lemma_spacing(some, 1_121);
    crate::rounding::lemma_rounded_at_most(some, 1, 1, 1_121);
    let x = (lower + p) as nat;
    let v = rounded(x, 1);
    lemma_rounded_close(x, 1);
    lemma_spacing(x, 1_122);
    crate::rounding::lemma_rounded_at_most(x, 1, 1, 1_122);
    assert(label_level(lower, upper, number) == v);
    let bit = pow2(1_066);
    vstd::arithmetic::power2::lemma_pow2_adds(3, 1_066);
    vstd::arithmetic::power2::lemma_pow2_adds(4, 1_066);
    vstd::arithmetic::power2::lemma_pow2_adds(8, 1_066);
    let a = 2 * (6 * step - d);
    let b = 2 * (d - gap);
    let limit = 6 * bit;
    assert(-(6 * limit) <= k * a <= 6 * limit) by (nonlinear_arith)
        requires
            -limit <= a <= limit,
            0 <= k <= 6,
    ;
    assert(-(6 * bit) <= k * b <= 6 * bit) by (nonlinear_arith)
        requires
            -bit <= b <= bit,
            0 <= k <= 6,
    ;
    assert(k * a + k * b + 2 * (k * gap) == 12 * some) by (nonlinear_arith)
        requires
            a == 2 * (6 * step - d),
            b == 2 * (d - gap),
            some == step * k,
    ;
    assert(k * gap == number * (upper - lower));
}

/// The seven numbers beside the Y axis divide it evenly from its bottom to its top: each is the nearest
/// whole number of microseconds, but for what rounding does before, as long as the axis lies above zero
/// and reaches no farther than 2 to the 44th microseconds.
pub proof fn law_labels_divide_the_axis(bounds: YBounds, values: Vec<u64>, number: int)
    requires
        bounds.ordered(),
        0 <= bounds.lower.unwrap().units(),
        bounds.upper.units() <= pow2(44) * one(),
        call_ensures(y_label_values, (bounds,), values),
        0 <= number < 7,
    ensures
        values@.len() == 7,
        ({
            let lower = bounds.lower.unwrap().units();
            let upper = bounds.upper.units();
            -7 * one() <= 2 * (6 * (values@[number] * one()) - 6 * lower - number * (upper - lower))
                <= 7 * one()
        }),
{
    let lower = bounds.lower.unwrap().units();
    let upper = bounds.upper.units();
    let level = label_level(lower, upper, number);
    lemma_label_level(lower, upper, number);
    crate::axis::lemma_nothing_is_shown(level);
    lemma_half_up(level as nat);
    let value = values@[number];
    assert(value == rounded_half_up(level as nat));
}

/// What rounding to the nearest whole number comes to, below what is cut off.
proof fn lemma_half_up(units: nat)
    requires
        units <= pow2(48) * one(),
    ensures
        -one() <= 2 * (rounded_half_up(units) * one() - units) <= one(),
        rounded_down(units) * one() <= units < (rounded_down(units) + 1) * one(),
{
    vstd::arithmetic::power2::lemma_pow2_pos(UNIT_BITS as nat);
    vstd::arithmetic::power2::lemma2_to64();
    vstd::arithmetic::power2::lemma2_to64_rest();
    let x = 2 * units + one();
    let n = x / (2 * one());
    vstd::arithmetic::div_mod::lemma_fundamental_div_mod(x as int, 2 * one() as int);
    vstd::arithmetic::div_mod::lemma_mod_bound(x as int, 2 * one() as int);
    let m = units / one();
    vstd::arithmetic::div_mod::lemma_fundamental_div_mod(units as int, one() as int);
    vstd::arithmetic::div_mod::lemma_mod_bound(units as int, one() as int);
    assert((2 * one()) * n == 2 * (n * one())) by (nonlinear_arith);
    assert(one() * m == m * one()) by (nonlinear_arith);
    assert((m + 1) * one() == m * one() + one()) by (nonlinear_arith);
    let limit = 0x1_0000_0000_0000nat;
    assert(n <= limit + 1) by (nonlinear_arith)
        requires
            2 * (n * one()) <= 2 * units + one(),
            units <= limit * one(),
            one() > 0,
    ;
    assert(m <= limit) by (nonlinear_arith)
        requires
            m * one() <= units,
            units <= limit * one(),
            one() > 0,
    ;
}

/// The lowest label says zero where the axis begins below zero, and an axis without a bottom has
/// labels that say zero only. No label says less than one below it.
pub proof fn law_labels_begin_at_the_bottom(bounds: YBounds, values: Vec<u64>)
    requires
        call_ensures(y_label_values, (bounds,), values),
    ensures
        values@.len() == 7,
        bounds.lower is None ==> forall|i: int| 0 <= i < 7 ==> #[trigger] values@[i] == 0,
        bounds.ordered() && bounds.lower.unwrap().units() <= 0 ==> values@[0] == 0,
        bounds.ordered() && 0 <= bounds.lower.unwrap().units() <= pow2(48) * one() ==> -one() <= 2 * (
        values@[0] * one() - bounds.lower.unwrap().units()) <= one(),
        bounds.ordered() ==> forall|i: int, j: int|
            0 <= i <= j < 7 ==> #[trigger] values@[i] <= #[trigger] values@[j],
{
    if bounds.ordered() {
        let lower = bounds.lower.unwrap();
        law_y_labels_span_the_axis(bounds);
        assert(values@[0] == y_label(bounds, 0));
        if 0 <= lower.units() <= pow2(48) * one() {
            crate::axis::lemma_nothing_is_shown(lower.units());
            lemma_half_up(lower.units() as nat);
        }
        assert forall|i: int, j: int| 0 <= i <= j < 7 implies #[trigger] values@[i]
            <= #[trigger] values@[j] by {
            law_y_labels_ascend(bounds, i, j);
        }
    }
}

/// The last label says the top of the axis, where both ends are whole numbers of microseconds.
pub proof fn law_labels_end_at_the_top(bounds: YBounds, values: Vec<u64>, lower: int, upper: int)
    requires
        call_ensures(y_label_values, (bounds,), values),
        bounds.ordered(),
        bounds.lower.unwrap().units() == lower * one(),
        bounds.upper.units() == upper * one(),
        0 <= lower <= upper <= 0x8_0000_0000_0000,
    ensures
        values@[0] == lower,
        values@[6] == upper,
        forall|i: int|
            0 <= i < 7 && (upper - lower) % 6 == 0 ==> #[trigger] values@[i] == lower + i * ((upper
                - lower) / 6),
{
    assert(whole_ends(bounds, lower, upper));
    law_y_labels_span_the_axis(bounds);
    lemma_shown_whole(lower as nat);
    lemma_shown_whole(upper as nat);
    assert(values@[0] == y_label(bounds, 0));
    assert(values@[6] == y_label(bounds, 6));
    if (upper - lower) % 6 == 0 {
        let part = (upper - lower) / 6;
        assert(lower + 6 * part == upper);
        assert forall|i: int| 0 <= i < 7 implies #[trigger] values@[i] == lower + i * part by {
            law_y_labels_are_even(bounds, lower, part, i);
            assert(0 <= i * part <= 6 * part) by (nonlinear_arith)
                requires
                    0 <= i <= 6,
                    part >= 0,
            ;
            lemma_shown_whole((lower + i * part) as nat);
        }
    }
}

proof fn lemma_shown_whole(n: nat)
    requires
        n <= 0x8_0000_0000_0000,
    ensures
        shown_micros(n * one() as int) == n,
{
    vstd::arithmetic::power2::lemma_pow2_pos(UNIT_BITS as nat);
    assert(n * one() >= 0);
    crate::axis::lemma_nothing_is_shown(n * one() as int);
    let x = 2 * (n * one()) + one();
    assert(x == n * (2 * one()) + one()) by (nonlinear_arith)
        requires
            x == 2 * (n * one()) + one(),
    ;
    vstd::arithmetic::div_mod::lemma_fundamental_div_mod_converse(
        x as int,
        2 * one() as int,
        n as int,
        one() as int,
    );
}

/// A whole number is its own number in double precision up to 2 to the 53rd, and beyond that no number
/// is nearer to it.
pub proof fn law_whole_numbers(n: u128, d: Double, other: Double)
    requires
        other.wf(),
        call_ensures(Double::of_whole, (n,), d),
    ensures
        d.wf(),
        n <= MANTISSA_END ==> d.units() == n * one(),
        distance(d.units(), n as nat * one()) <= distance(other.units(), n as nat * one()),
{
    law_nothing_is_nearer(n as nat * one(), 1, other);
    if n <= MANTISSA_END {
        lemma_whole_exact(n as nat);
    }
}

/// No number is nearer to the sum of two numbers than what comes of adding them.
pub proof fn law_sums(a: Double, b: Double, d: Double, other: Double)
    requires
        a.wf() && b.wf() && other.wf(),
        call_ensures(Double::plus, (a, b), d),
    ensures
        d.wf(),
        distance(d.units(), a.units() + b.units()) <= distance(other.units(), a.units() + b.units()),
{
    law_nothing_is_nearer(a.units() + b.units(), 1, other);
}

/// No number is nearer to the difference of two numbers than what comes of taking one from the other.
pub proof fn law_differences(a: Double, b: Double, d: Double, other: Double)
    requires
        a.wf() && b.wf() && other.wf(),
        b.units() <= a.units(),
        call_ensures(Double::minus, (a, b), d),
    ensures
        d.wf(),
        distance(d.units(), (a.units() - b.units()) as nat) <= distance(
            other.units(),
            (a.units() - b.units()) as nat,
        ),
{
    law_nothing_is_nearer((a.units() - b.units()) as nat, 1, other);
}

/// No number is nearer to the product of two numbers than what comes of multiplying them.
pub proof fn law_products(a: Double, b: Double, d: Double, other: Double)
    requires
        a.wf() && b.wf() && other.wf(),
        call_ensures(Double::times, (a, b), d),
    ensures
        d.wf(),
        distance(d.units() * one(), a.units() * b.units()) <= distance(
            other.units() * one(),
            a.units() * b.units(),
        ),
{
    vstd::arithmetic::power2::lemma_pow2_pos(UNIT_BITS as nat);
    law_nothing_is_nearer(a.units() * b.units(), one(), other);
}

/// No number is nearer to the quotient of two numbers than what comes of dividing them.
pub proof fn law_quotients(a: Double, b: Double, d: Double, other: Double)
    requires
        a.wf() && b.wf() && other.wf(),
        one() <= b.units(),
        call_ensures(Double::over, (a, b), d),
    ensures
        d.wf(),
        distance(d.units() * b.units(), a.units() * one()) <= distance(
            other.units() * b.units(),
            a.units() * one(),
        ),
{
    vstd::arithmetic::power2::lemma_pow2_pos(UNIT_BITS as nat);
    law_nothing_is_nearer(a.units() * one(), b.units(), other);
}

/// Just in the middle between two neighbouring numbers, rounding goes to the one that is even.
pub proof fn law_ties_go_to_the_even_one(m: nat, k: nat, den: nat, x: nat)
    requires
        den > 0,
        m < 0x1F_FFFF_FFFF_FFFF,
        k > 0 ==> m >= 0x10_0000_0000_0000,
        2 * x == (2 * m + 1) * (pow2(k) * den),
    ensures
        rounded(x, den) == (if m % 2 == 0 {
            m
        } else {
            m + 1
        }) * pow2(k),
{
    let step = pow2(k) * den;
    vstd::arithmetic::power2::lemma_pow2_pos(k);
    assert(step > 0) by (nonlinear_arith)
        requires
            step == pow2(k) * den,
            pow2(k) > 0,
            den > 0,
    ;
    assert((2 * m + 1) * step == 2 * (m * step) + step) by (nonlinear_arith);
    let rest = (x - m * step) as nat;
    assert(2 * rest == step);
    lemma_rounded_split(x, den, k, m, rest);
}

/// One number is at most another exactly when it is.
pub proof fn law_numbers_are_compared(a: Double, b: Double, at_most: bool)
    requires
        a.wf() && b.wf(),
        call_ensures(Double::at_most, (a, b), at_most),
    ensures
        at_most <==> a.units() <= b.units(),
{
}

/// A number as a whole one is what is left without its fraction, and the nearest whole one is at most
/// a half away, upwards where two are equally near. What is too great for either is cut off.
pub proof fn law_numbers_become_whole(d: Double, result: (u64, u64))
    requires
        d.wf(),
        call_ensures(Double::to_whole, (d,), result),
    ensures
        result.0 * one() <= d.units(),
        d.units() < (result.0 + 1) * one() || result.0 == u64::MAX,
        (2 * result.1 - 1) * one() <= 2 * d.units(),
        2 * d.units() < (2 * result.1 + 1) * one() || result.1 == u64::MAX,
{
    let units = d.units();
    vstd::arithmetic::power2::lemma_pow2_pos(UNIT_BITS as nat);
    let x = 2 * units + one();
    let n = x / (2 * one());
    let m = units / one();
    vstd::arithmetic::div_mod::lemma_fundamental_div_mod(x as int, 2 * one() as int);
    vstd::arithmetic::div_mod::lemma_mod_bound(x as int, 2 * one() as int);
    vstd::arithmetic::div_mod::lemma_fundamental_div_mod(units as int, one() as int);
    vstd::arithmetic::div_mod::lemma_mod_bound(units as int, one() as int);
    let down = result.0 as int;
    let near = result.1 as int;
    assert(down * one() <= m * one()) by (nonlinear_arith)
        requires
            down <= m,
            one() > 0,
    ;
    assert(near * one() <= n * one()) by (nonlinear_arith)
        requires
            near <= n,
            one() > 0,
    ;
    assert((2 * one()) * n == 2 * (n * one())) by (nonlinear_arith);
    assert(one() * m == m * one()) by (nonlinear_arith);
    assert((down + 1) * one() == down * one() + one()) by (nonlinear_arith);
    assert((2 * near + 1) * one() == 2 * (near * one()) + one()) by (nonlinear_arith);
    assert((2 * near - 1) * one() == 2 * (near * one()) - one()) by (nonlinear_arith);
}

/// No signed number is nearer to the sum or the difference of two than what comes of it, and order is
/// order.
pub proof fn law_signed_arithmetic(
    a: Signed,
    b: Signed,
    added: Signed,
    taken: Signed,
    turned: Signed,
    less: bool,
    other: Signed,
)
    requires
        a.wf() && b.wf() && other.wf(),
        call_ensures(Signed::plus, (a, b), added),
        call_ensures(Signed::minus, (a, b), taken),
        call_ensures(Signed::negated, (a,), turned),
        call_ensures(Signed::less_than, (a, b), less),
    ensures
        turned.units() + a.units() == 0,
        less <==> a.units() < b.units(),
        size_of(added.units() - (a.units() + b.units())) <= size_of(
            other.units() - (a.units() + b.units()),
        ),
        size_of(taken.units() - (a.units() - b.units())) <= size_of(
            other.units() - (a.units() - b.units()),
        ),
{
    lemma_signed_nearest(a.units() + b.units(), other);
    lemma_signed_nearest(a.units() - b.units(), other);
}

proof fn lemma_signed_nearest(x: int, other: Signed)
    requires
        other.wf(),
    ensures
        size_of(signed_rounded(x) - x) <= size_of(other.units() - x),
{
    let size = size_of(x);
    lemma_signed_of_units(other);
    law_nothing_is_nearer(size, 1, other.size);
    if (x < 0) != other.negative {
        // On the other side of zero nothing is nearer than zero itself.
        let zero = Double { mant: 0, shift: 0 };
        law_nothing_is_nearer(size, 1, zero);
        assert(0 * pow2(0) == 0);
    }
}

/// The number that some decimal digits stand for.
pub open spec fn read_digits(digits: Seq<char>) -> int
    decreases digits.len(),
{
    if digits.len() == 0 {
        0
    } else {
        10 * read_digits(digits.drop_last()) + (digits.last() as u32 - '0' as u32)
    }
}

proof fn lemma_decimal(n: nat)
    ensures
        read_digits(decimal(n)) == n,
        decimal(n).len() > 0,
        forall|i: int| 0 <= i < decimal(n).len() ==> '0' <= #[trigger] decimal(n)[i] <= '9',
        n > 0 ==> decimal(n)[0] != '0',
        n == 0 ==> decimal(n) == seq!['0'],
    decreases n,
{
    let text = decimal(n);
    if n < 10 {
        assert(text.drop_last() =~= Seq::empty());
        assert(read_digits(text.drop_last()) == 0);
    } else {
        lemma_decimal(n / 10);
        assert(text.drop_last() =~= decimal(n / 10));
        assert(text.last() == crate::text::digit(n % 10));
    }
}

/// A number in decimal reads as that number, consists of digits, and has no zeros in front.
pub proof fn law_decimals_read_back(n: u64, text: String)
    requires
        call_ensures(decimal_string, (n,), text),
    ensures
        read_digits(text@) == n,
        text@.len() > 0,
        forall|i: int| 0 <= i < text@.len() ==> '0' <= #[trigger] text@[i] <= '9',
        n > 0 ==> text@[0] != '0',
        n == 0 ==> text@ == seq!['0'],
{
    lemma_decimal(n as nat);
}

/// The number of timeouts in the header reads as the number of samples without a reply.
pub proof fn law_header_counts_the_timeouts(plot: PlotData, lines: Vec<String>, digits: Seq<char>)
    requires
        call_ensures(PlotData::header_stats, (&plot,), lines),
        replies(plot@.data).len() > 0,
        lines@[7]@ == "t/o "@ + digits,
    ensures
        lines@.len() == 8,
        read_digits(digits) == plot@.data.len() - replies(plot@.data).len(),
{
    crate::samples::law_samples_are_replies_or_timeouts(plot@.data);
    let all = lines@.map_values(|line: String| line@);
    assert(all.len() == lines@.len());
    assert(all == header_lines(plot@.display, plot@.data));
    assert(all[7] == lines@[7]@);
    let count = decimal(timeouts(plot@.data));
    lemma_decimal(timeouts(plot@.data));
    let line = lines@[7]@;
    assert(line.skip("t/o "@.len() as int) =~= digits);
    assert(line.skip("t/o "@.len() as int) =~= count);
}

/// The seconds of the window and of the graph come to a thousand milliseconds each. Both have the same
/// limit, but only the window takes the upper half of the numbers for negative ones.
pub proof fn law_spans(seconds: u64, window: Option<i64>, interval: Option<i64>)
    requires
        call_ensures(window_millis, (seconds,), window),
        call_ensures(interval_millis, (seconds,), interval),
    ensures
        interval is Some <==> seconds <= 9_223_372_036_854_775,
        interval matches Some(millis) ==> millis == 1_000 * seconds && window == interval,
        9_223_372_036_854_775 < seconds <= i64::MAX ==> window is None,
        seconds > i64::MAX ==> match window {
            Some(millis) => millis == 1_000 * (seconds - u64::MAX - 1) && -millis
                <= 9_223_372_036_854_775_000,
            None => u64::MAX + 1 - seconds > 9_223_372_036_854_775,
        },
{
}

/// Whitespace is what ASCII has of it: tab, line feed, form feed, carriage return and space.
pub proof fn law_whitespace(c: char)
    ensures
        is_space(c) <==> c as u32 == 9 || c as u32 == 10 || c as u32 == 12 || c as u32 == 13
            || c as u32 == 32,
{
}

/// The words of a line are not empty, hold no whitespace, and hold in order everything else.
pub proof fn law_words_of_a_line(line: &str, result: Vec<String>)
    requires
        call_ensures(split_words, (line,), result),
    ensures
        forall|i: int| 0 <= i < result@.len() ==> (#[trigger] result@[i])@.len() > 0,
        forall|i: int, j: int|
            0 <= i < result@.len() && 0 <= j < result@[i]@.len() ==> !is_space(
                #[trigger] result@[i]@[j],
            ),
        letters(result@.map_values(|word: String| word@)) == line@.filter(|c: char| !is_space(c)),
        line@.len() > 0 && (forall|i: int| 0 <= i < line@.len() ==> !is_space(#[trigger] line@[i]))
            ==> result@.len() == 1 && result@[0]@ == line@,
{
    let all = result@.map_values(|word: String| word@);
    assert(all.len() == result@.len());
    assert(all == words(line@));
    law_words_hold_the_line(line@);
    assert forall|i: int| 0 <= i < result@.len() implies (#[trigger] result@[i])@.len() > 0 by {
        assert(all[i] == result@[i]@);
    }
    assert forall|i: int, j: int|
        0 <= i < result@.len() && 0 <= j < result@[i]@.len() implies !is_space(
        #[trigger] result@[i]@[j],
    ) by {
        assert(all[i] == result@[i]@);
        assert(!is_space(words(line@)[i][j]));
    }
    if line@.len() > 0 && forall|i: int| 0 <= i < line@.len() ==> !is_space(#[trigger] line@[i]) {
        law_one_word(line@);
        assert(all[0] == result@[0]@);
    }
}

/// Lines that are put together with whitespace in between have the words of the first and then those
/// of the second.
pub proof fn law_words_of_joined_lines(
    first: &str,
    second: &str,
    line: &str,
    c: char,
    before: Vec<String>,
    after: Vec<String>,
    result: Vec<String>,
)
    requires
        is_space(c),
        line@ == first@ + seq![c] + second@,
        call_ensures(split_words, (first,), before),
        call_ensures(split_words, (second,), after),
        call_ensures(split_words, (line,), result),
    ensures
        result@.len() == before@.len() + after@.len(),
        forall|i: int| 0 <= i < before@.len() ==> (#[trigger] result@[i])@ == before@[i]@,
        forall|i: int|
            0 <= i < after@.len() ==> (#[trigger] after@[i])@ == result@[before@.len() + i]@,
{
    law_whitespace_parts_words(first@, c, second@);
    let all = result@.map_values(|word: String| word@);
    let a = before@.map_values(|word: String| word@);
    let b = after@.map_values(|word: String| word@);
    assert(all == a + b);
    assert(all.len() == result@.len() && a.len() == before@.len() && b.len() == after@.len());
    assert forall|i: int| 0 <= i < before@.len() implies (#[trigger] result@[i])@ == before@[i]@ by {
        assert(all[i] == a[i]);
    }
    assert forall|i: int| 0 <= i < after@.len() implies (#[trigger] after@[i])@ == result@[
    before@.len() + i]@ by {
        assert(all[a.len() + i] == b[i]);
    }
}

/// A command is its first word, with the other words as arguments, and there is none on a line without
/// words.
pub proof fn law_command_of_a_line(
    line: &str,
    result: Vec<String>,
    command: Option<(String, Vec<String>)>,
)
    requires
        call_ensures(split_words, (line,), result),
        call_ensures(split_command, (line,), command),
    ensures
        command is None <==> result@.len() == 0,
        command matches Some((program, arguments)) ==> {
            &&& program@ == result@[0]@
            &&& arguments@.len() + 1 == result@.len()
            &&& forall|i: int|
                0 <= i < arguments@.len() ==> (#[trigger] arguments@[i])@ == result@[i + 1]@
        },
{
    let all = result@.map_values(|word: String| word@);
    assert(all.len() == result@.len());
    if let Some((program, arguments)) = command {
        let rest = arguments@.map_values(|word: String| word@);
        assert(rest.len() == arguments@.len());
        assert(all[0] == result@[0]@);
        assert forall|i: int| 0 <= i < arguments@.len() implies (#[trigger] arguments@[i])@ == result@[
        i + 1]@ by {
            assert(rest[i] == all[i + 1]);
        }
    }
}

/// The interval is the one that was asked for. Otherwise it is half a second for commands and a fifth
/// of a second for pings.
pub proof fn law_usual_intervals(given: Option<u64>, command: bool, millis: u64)
    requires
        call_ensures(watch_interval_millis, (given, command), millis),
    ensures
        given matches Some(m) ==> millis == m,
        given is None && command ==> millis == 500,
        given is None && !command ==> millis == 200,
{
}

/// The flags ask for IPv4, for IPv6, or for nothing in particular.
pub proof fn law_families(ipv4: bool, ipv6: bool, family: Family)
    requires
        call_ensures(Family::from_flags, (ipv4, ipv6), family),
    ensures
        ipv4 ==> family == Family::V4,
        ipv6 && !ipv4 ==> family == Family::V6,
        !ipv4 && !ipv6 ==> family == Family::Any,
{
}

/// An address is asked for: it is of the wanted kind, or any kind will do.
pub open spec fn wanted(address: Address, family: Family) -> bool {
    family == Family::Any || (family == Family::V4) == address.is_ipv4
}

/// The address of a host is the first of its addresses that is asked for. There is none exactly when
/// none is asked for, and then the reason tells what is missing.
pub proof fn law_address_of_a_host(
    host: &str,
    addresses: Vec<Address>,
    family: Family,
    address: Result<String, HostError>,
)
    requires
        call_ensures(select_address, (host, &addresses, family), address),
    ensures
        address matches Ok(text) ==> exists|i: int|
            {
                &&& 0 <= i < addresses@.len()
                &&& (#[trigger] addresses@[i]).text@ == text@
                &&& wanted(addresses@[i], family)
                &&& forall|j: int| 0 <= j < i ==> !wanted(#[trigger] addresses@[j], family)
            },
        address is Err <==> forall|i: int|
            0 <= i < addresses@.len() ==> !wanted(#[trigger] addresses@[i], family),
        address matches Err(reason) ==> {
            &&& addresses@.len() == 0 ==> (reason matches HostError::NoAddress(name) && name@
                == host@)
            &&& addresses@.len() > 0 && family == Family::V4 ==> (reason matches HostError::NoIpv4(
                name,
            ) && name@ == host@)
            &&& addresses@.len() > 0 && family == Family::V6 ==> (reason matches HostError::NoIpv6(
                name,
            ) && name@ == host@)
        },
{
    law_selected_address_is_the_first(addresses@, family);
    assert(forall|a: Address| #[trigger] suits(a, family) == wanted(a, family));
    if let Ok(text) = address {
        let i = choose|i: int|
            0 <= i < addresses@.len() && (#[trigger] addresses@[i]).text@ == text@ && suits(
                addresses@[i],
                family,
            ) && forall|j: int| 0 <= j < i ==> !suits(#[trigger] addresses@[j], family);
        assert(wanted(addresses@[i], family));
        assert forall|j: int| 0 <= j < i implies !wanted(#[trigger] addresses@[j], family) by {
            assert(!suits(addresses@[j], family));
        }
    } else {
        assert forall|i: int| 0 <= i < addresses@.len() implies !wanted(
            #[trigger] addresses@[i],
            family,
        ) by {
            assert(!suits(addresses@[i], family));
        }
    }
}

/// A name in ASCII is resolved as it is, and any other by its encoding. Without one it is an error that
/// names the host.
pub proof fn law_name_that_is_resolved(
    host: &str,
    encoding: Option<String>,
    given: Result<String, HostError>,
    name: Result<String, HostError>,
)
    requires
        call_ensures(name_to_resolve, (host, encoding), given),
        call_ensures(ascii_host, (host,), name),
    ensures
        is_ascii_chars(host@) ==> (given matches Ok(text) && text@ == host@),
        is_ascii_chars(host@) ==> (name matches Ok(text) && text@ == host@),
        !is_ascii_chars(host@) ==> match encoding {
            Some(e) => given matches Ok(text) && text@ == e@,
            None => given matches Err(HostError::Encoding(h)) && h@ == host@,
        },
        !is_ascii_chars(host@) ==> match ascii_domain(host@) {
            Some(e) => name matches Ok(text) && text@ == e,
            None => name matches Err(HostError::Encoding(h)) && h@ == host@,
        },
{
}

/// A command is shown as it is, and a host with its address in brackets behind it.
pub proof fn law_shown_names(name: &str, address: Option<&str>, shown_as: String)
    requires
        call_ensures(display_name, (name, address), shown_as),
    ensures
        address is None ==> shown_as@ == name@,
        address matches Some(a) ==> {
            let end = name@.len() as int;
            let size = a@.len() as int;
            &&& shown_as@.len() == end + size + 3
            &&& shown_as@.take(end) == name@
            &&& shown_as@.subrange(end + 2, end + 2 + size) == a@
            &&& shown_as@[end] == ' '
            &&& shown_as@[end + 1] == '('
            &&& shown_as@.last() == ')'
        },
{
    reveal_strlit(" (");
    reveal_strlit(")");
    if let Some(a) = address {
        assert(shown_as@ == name@ + " ("@ + a@ + ")"@);
        let end = name@.len() as int;
        assert(shown_as@.take(end) =~= name@);
        assert(shown_as@.subrange(end + 2, end + 2 + a@.len()) =~= a@);
    }
}

/// The message of each reason for a host to have no address says what is missing, and names the host.
pub proof fn law_messages_about_hosts(error: HostError, message: String)
    requires
        call_ensures(HostError::message, (&error,), message),
    ensures
        match error {
            HostError::NoAddress(host) => message@ == "Could not resolve hostname "@ + host@,
            HostError::NoIpv4(host) => message@ == "Could not resolve '"@ + host@ + "' to IPv4"@,
            HostError::NoIpv6(host) => message@ == "Could not resolve '"@ + host@ + "' to IPv6"@,
            HostError::Encoding(host) => message@ == "Could not encode host "@ + host@
                + " to punycode"@,
        },
{
}

/// Arguments can be used exactly when there is something to graph, each end that is given is finite,
/// the bottom is not negative, the top is positive, and the bottom is below the top. The ends are then
/// fixed where they were given.
pub proof fn law_arguments(
    targets: usize,
    y_min: Option<Flag>,
    y_max: Option<Flag>,
    ends: Result<(Option<Signed>, Option<Signed>), ArgsError>,
)
    requires
        call_ensures(check_args, (targets, &y_min, &y_max), ends),
    ensures
        ends is Ok <==> {
            &&& targets > 0
            &&& y_min matches Some(low) ==> low.level is Some && low.level.unwrap().units() >= 0
            &&& y_max matches Some(high) ==> high.level is Some && high.level.unwrap().units() > 0
            &&& y_min is Some && y_max is Some ==> y_min.unwrap().level.unwrap().units()
                < y_max.unwrap().level.unwrap().units()
        },
        ends matches Ok((bottom, top)) ==> {
            &&& bottom == (match y_min {
                Some(low) => low.level,
                None => None,
            })
            &&& top == (match y_max {
                Some(high) => high.level,
                None => None,
            })
        },
        ends matches Err(error) ==> {
            &&& error is NoTarget <==> targets == 0
            &&& error matches ArgsError::YMin(number) ==> y_min is Some && number@
                == y_min.unwrap().shown@ && (y_min.unwrap().level is None
                || y_min.unwrap().level.unwrap().units() < 0)
            &&& error matches ArgsError::YMax(number) ==> y_max is Some && number@
                == y_max.unwrap().shown@ && (y_max.unwrap().level is None
                || y_max.unwrap().level.unwrap().units() <= 0)
            &&& error is Order ==> y_min is Some && y_max is Some
                && y_min.unwrap().level.unwrap().units() >= y_max.unwrap().level.unwrap().units()
        },
{
}

/// The message of each reason why arguments cannot be used.
pub proof fn law_messages_about_arguments(error: ArgsError, message: String)
    requires
        call_ensures(ArgsError::message, (&error,), message),
    ensures
        match error {
            ArgsError::Order => message@ == "--ymin must be lower than --ymax"@,
            ArgsError::YMax(number) => message@ == "--ymax must be a positive number, got "@
                + number@,
            ArgsError::YMin(number) => message@ == "--ymin must be a positive number, got "@
                + number@,
            ArgsError::NoTarget => message@
                == "At least one host or command must be given (i.e gping google.com). Use --help for a full list of arguments."@,
        },
{
}

/// The least and the greatest of some values are among them, and no value lies outside of the two.
pub proof fn law_value_range(values: Vec<u128>, range: Option<(u128, u128)>)
    requires
        call_ensures(value_range, (values,), range),
    ensures
        range is None <==> values@.len() == 0,
        range matches Some((low, high)) ==> {
            &&& values@.contains(low)
            &&& values@.contains(high)
            &&& forall|i: int| 0 <= i < values@.len() ==> low <= #[trigger] values@[i] <= high
        },
{
    if values@.len() > 0 {
        lemma_extremes(values@);
    }
}

/// A level is pulled to the end of the axis that it lies beyond, and stays where it is otherwise.
pub proof fn law_clamped_levels(level: Signed, lower: Signed, upper: Signed, result: Signed)
    requires
        lower.units() <= upper.units(),
        call_ensures(clamp_level, (level, lower, upper), result),
    ensures
        level.units() < lower.units() ==> result == lower,
        level.units() > upper.units() ==> result == upper,
        lower.units() <= level.units() <= upper.units() ==> result == level,
{
}

/// A graph of hosts that are well formed, as all are that were made and updated, takes in every event
/// that fits and can be asked for everything it shows.
pub proof fn law_every_graph_answers(
    app: App,
    host: int,
    bounds: YBounds,
    axis: XBounds,
    now: Moment,
)
    requires
        forall|i: int| 0 <= i < app@.plots.len() ==> (#[trigger] app@.plots[i]).wf(),
        -8_334_601_228_800 <= app@.started.secs <= 8_210_266_876_799,
        app@.started.nanos < 1_000_000_000,
        app@.interval >= 0,
        app@.y_min matches Some(end) ==> end.wf() && end.size.shift <= 2_045,
        app@.y_max matches Some(end) ==> end.wf() && end.size.shift <= 2_045,
        0 <= host < app@.plots.len(),
    ensures
        app@.wf(),
        call_requires(App::y_axis_bounds, (&app,)),
        call_requires(App::has_fixed_y_axis, (&app,)),
        call_requires(App::has_x_axis, (&app,)),
        call_requires(App::plots, (&app,)),
        call_ensures(App::y_axis_bounds, (&app,), bounds) ==> call_requires(
            App::y_axis_labels,
            (&app, bounds),
        ),
        app@.y_min is None && app@.y_max is None ==> call_requires(App::drawn_points, (&app, bounds)),
        bounds.ordered() ==> call_requires(App::drawn_points, (&app, bounds)),
        in_millis(app@.started) + app@.interval <= 8_210_266_876_799_999 ==> call_requires(
            App::x_axis_bounds,
            (&app,),
        ) && (now.wf() ==> call_requires(App::x_axis_bounds_at, (&app, now))),
        -8_334_601_228_800_000 <= axis.lower <= 8_210_266_876_799_999 && -8_334_601_228_800_000
            <= axis.upper <= 8_210_266_876_799_999 ==> call_requires(
            App::x_axis_labels,
            (&app, axis),
        ),
{
}

/// Every bit pattern of a finite number that is not negative is a number in double precision, and so is
/// every such number with a sign, but for a negative zero.
pub proof fn law_every_number_can_be_written(d: Double, negative: bool)
    requires
        d.mant < 0x20_0000_0000_0000,
        d.shift == 0 || d.mant >= 0x10_0000_0000_0000,
    ensures
        d.wf(),
        negative ==> d.mant > 0 ==> (Signed { negative, size: d }).wf(),
        !negative ==> (Signed { negative, size: d }).wf(),
        (Signed { negative, size: d }).units() == (if negative {
            -1int
        } else {
            1
        }) * d.units(),
{
    let units = d.units() as int;
    assert(-1 * units == -units && 1 * units == units);
}

/// A plot can be made for every window that chrono has a span for, and shown whatever it holds.
pub proof fn law_every_host_answers(
    display: String,
    buffer: u64,
    style: ratatui::style::Style,
    simple_graphics: bool,
    smoothing: Option<Weight>,
    plot: PlotData,
    bounds: YBounds,
)
    requires
        buffer <= 9_223_372_036_854_775,
        smoothing matches Some(weight) ==> weight.wf(),
    ensures
        call_requires(PlotData::new, (display, buffer, style, simple_graphics, smoothing)),
        call_ensures(PlotData::new, (display, buffer, style, simple_graphics, smoothing), plot)
            ==> plot@.wf(),
        call_requires(PlotData::header_stats, (&plot,)),
        call_requires(PlotData::plot_points, (&plot,)),
        call_requires(PlotData::replies, (&plot,)),
        plot@.wf() && bounds.ordered() ==> call_requires(PlotData::clamped_data, (&plot, bounds)),
{
}

/// Every update can be taken in, and leaves a plot that can take in the next one.
pub proof fn law_every_update_is_taken(
    plot: &mut PlotData,
    now: i64,
    item: Option<u128>,
    done: (),
)
    requires
        old(plot)@.wf(),
    ensures
        call_requires(PlotData::update_at, (plot, now, item)),
        call_requires(PlotData::update, (plot, item)),
        call_ensures(PlotData::update_at, (plot, now, item), done) ==> final(plot)@.wf(),
{
}

/// Every event that fits can be handled, and leaves a graph that can take in the next one.
pub proof fn law_every_event_is_handled(app: &mut App, event: Event, now: i64, action: Action)
    requires
        old(app)@.wf(),
        fits(event, old(app)@.plots.len()),
    ensures
        call_requires(App::handle_at, (app, event, now)),
        call_requires(App::handle, (app, event)),
        call_ensures(App::handle_at, (app, event, now), action) ==> final(app)@.wf(),
{
}

/// As many replies as there may be, all of at least and at most some powers of two, have a mean between
/// these, however great they are.
pub proof fn law_mean_lies_between_powers(
    data: Vec<Sample>,
    result: Option<Stats>,
    low: nat,
    high: nat,
)
    requires
        call_ensures(stats, (&data,), result),
        replies(data@).len() <= MANTISSA_END,
        low <= high <= 63,
        forall|i: int|
            0 <= i < data@.len() ==> ((#[trigger] data@[i]).rtt matches Some(rtt) ==> pow2(low)
                <= rtt <= pow2(high)),
    ensures
        result matches Some(s) ==> pow2(low) <= s.avg <= pow2(high),
{
    if let Some(s) = result {
        let values = replies(data@);
        let ordered = ascending(values);
        law_ascending_keeps_values(values);
        law_ascending_ends(values);
        lemma_extremes(values);
        law_replies_are_sampled(data@, least(values));
        law_replies_are_sampled(data@, greatest(values));
        assert forall|i: int| 0 <= i < ordered.len() implies pow2(low) <= #[trigger] ordered[i]
            <= pow2(high) by {
            assert(ordered[0] <= ordered[i]);
            assert(ordered[i] <= ordered[ordered.len() - 1]);
        }
        lemma_total_between_powers(ordered, low, high);
        lemma_mean_between_powers(double_total(ordered), ordered.len(), low, high);
    }
}

proof fn lemma_total_between_powers(values: Seq<u128>, low: nat, high: nat)
    requires
        values.len() <= MANTISSA_END,
        forall|i: int| 0 <= i < values.len() ==> pow2(low) <= #[trigger] values[i] <= pow2(high),
    ensures
        values.len() * (pow2(low) * one()) <= double_total(values) <= values.len() * (pow2(high)
            * one()),
    decreases values.len(),
{
    let n = values.len();
    if n == 0 {
        assert(0 * (pow2(low) * one()) == 0);
        assert(0 * (pow2(high) * one()) == 0);
    } else {
        let rest = values.drop_last();
        assert(forall|i: int| 0 <= i < rest.len() ==> rest[i] == values[i]);
        lemma_total_between_powers(rest, low, high);
        let last = values.last();
        assert(values[n - 1] == last);
        crate::rounding::lemma_whole_between(last as nat, low, high);
        let a = pow2(low) * one();
        let b = pow2(high) * one();
        let m = (n - 1) as nat;
        assert(m * a + a == n * a && m * b + b == n * b) by (nonlinear_arith)
            requires
                n == m + 1,
        ;
        lemma_times_power(n, low);
        lemma_times_power(n, high);
        let x = double_total(rest) + whole(last as nat);
        assert(n * a <= x <= n * b);
        crate::rounding::law_rounding_keeps_order(n * a, x, 1);
        crate::rounding::law_rounding_keeps_order(x, n * b, 1);
    }
}

/// Some times a power of two needs no rounding.
proof fn lemma_times_power(n: nat, e: nat)
    requires
        n <= MANTISSA_END,
    ensures
        rounded(n * (pow2(e) * one()), 1) == n * (pow2(e) * one()),
{
    vstd::arithmetic::power2::lemma_pow2_adds(e, UNIT_BITS as nat);
    let k = e + UNIT_BITS as nat;
    assert(n * pow2(k) * 1 == n * pow2(k));
    if n < MANTISSA_END {
        crate::rounding::lemma_rounded_exact(n, k, 1);
    } else {
        lemma_mantissa_powers();
        vstd::arithmetic::power2::lemma_pow2_adds(53, k);
        assert(1 * pow2(53 + k) * 1 == n * pow2(k));
        crate::rounding::lemma_rounded_exact(1, 53 + k, 1);
    }
}

proof fn lemma_mean_between_powers(sum: nat, count: nat, low: nat, high: nat)
    requires
        0 < count <= MANTISSA_END,
        low <= high <= 63,
        count * (pow2(low) * one()) <= sum <= count * (pow2(high) * one()),
    ensures
        pow2(low) <= shown_mean(sum, count) <= pow2(high),
{
    vstd::arithmetic::power2::lemma_pow2_pos(UNIT_BITS as nat);
    lemma_whole_exact(count);
    let den = count * one();
    assert(den > 0) by (nonlinear_arith)
        requires
            den == count * one(),
            count > 0,
            one() > 0,
    ;
    vstd::arithmetic::power2::lemma_pow2_adds(low, UNIT_BITS as nat);
    vstd::arithmetic::power2::lemma_pow2_adds(high, UNIT_BITS as nat);
    let x = sum * one();
    let a = pow2(low) * one();
    let b = pow2(high) * one();
    assert(a * den <= x <= b * den) by (nonlinear_arith)
        requires
            x == sum * one(),
            den == count * one(),
            count * a <= sum <= count * b,
    ;
    assert(1 * a * den == a * den && 1 * b * den == b * den);
    crate::rounding::lemma_rounded_at_least(x, den, 1, low + UNIT_BITS as nat);
    crate::rounding::lemma_rounded_at_most(x, den, 1, high + UNIT_BITS as nat);
    let mean = quotient(sum, whole(count));
    vstd::arithmetic::div_mod::lemma_div_is_ordered(a as int, mean as int, one() as int);
    vstd::arithmetic::div_mod::lemma_div_is_ordered(mean as int, b as int, one() as int);
    vstd::arithmetic::div_mod::lemma_div_multiples_vanish(pow2(low) as int, one() as int);
    vstd::arithmetic::div_mod::lemma_div_multiples_vanish(pow2(high) as int, one() as int);
    assert(a == one() * pow2(low) && b == one() * pow2(high)) by (nonlinear_arith)
        requires
            a == pow2(low) * one(),
            b == pow2(high) * one(),
    ;
    vstd::arithmetic::power2::lemma2_to64();
    if high < 64 {
        vstd::arithmetic::power2::lemma_pow2_strictly_increases(high, 64);
    }
}

/// An index is about 95 hundredths of the way.
pub open spec fn near_95_percent(index: int, count: int) -> bool {
    -51 - count / 1_000 <= 100 * index - 95 * count <= 51 + count / 1_000
}

/// However many replies there are, the header shows the shortest and the longest of them, the one at
/// about 95 hundredths of the way, and the number of timeouts.
pub proof fn law_header_of_many_replies(plot: PlotData, lines: Vec<String>, ordered: Seq<u128>)
    requires
        call_ensures(PlotData::header_stats, (&plot,), lines),
        put_in_order(replies(plot@.data), ordered),
        ordered.len() > 10,
    ensures
        lines@.len() == 8,
        lines@[0]@ == plot@.display,
        lines@[2]@ == "min "@ + duration_text(shown(ordered[0])),
        lines@[3]@ == "max "@ + duration_text(shown(ordered[ordered.len() - 1])),
        exists|index: int|
            {
                &&& 0 <= index < ordered.len()
                &&& #[trigger] near_95_percent(index, ordered.len() as int)
                &&& lines@[6]@ == "p95 "@ + duration_text(shown(ordered[index]))
            },
        lines@[7]@ == "t/o "@ + decimal((plot@.data.len() - ordered.len()) as nat),
{
    let data = plot@.data;
    let values = replies(data);
    lemma_put_in_order(values, ordered);
    law_percentile_index_bound(values.len());
    crate::samples::law_samples_are_replies_or_timeouts(data);
    let all = lines@.map_values(|line: String| line@);
    assert(all.len() == lines@.len());
    assert(all == header_lines(plot@.display, data));
    assert(forall|i: int| 0 <= i < 8 ==> all[i] == (#[trigger] lines@[i])@);
    let index = percentile_index(values.len()) as int;
    lemma_percentile_is_near(values.len());
    assert(near_95_percent(index, ordered.len() as int));
}

proof fn lemma_percentile_is_near(count: nat)
    ensures
        near_95_percent(percentile_index(count) as int, count as int),
{
    let near = single(count);
    let product = (15_938_355 * near) as nat;
    law_single_is_close(count);
    law_single_is_close(product);
    let scaled = single(product);
    let index = percentile_index(count);
    assert(index == (scaled + 0x80_0000) / 0x100_0000);
    assert(0x100_0000 * near <= 0x100_0001 * count && 0x100_0000 * near >= 0xFF_FFFF * count);
    assert(0x100_0000 * scaled <= 0x100_0001 * product && 0x100_0000 * scaled >= 0xFF_FFFF
        * product);
    lemma_near_95_percent(count as int, near as int, product as int, scaled as int, index as int);
}

/// The labels of the X axis of a graph are the times of day at its instants, with the offsets that were
/// asked for at these instants.
pub proof fn law_labels_are_local_times(
    app: App,
    bounds: XBounds,
    moments: Vec<Moment>,
    labels: Vec<String>,
)
    requires
        has_labels(bounds),
        call_ensures(x_label_moments, (bounds,), moments),
        call_ensures(App::x_axis_labels, (&app, bounds), labels),
    ensures
        labels@.len() == 3,
        exists|offsets: Seq<i32>|
            {
                &&& #[trigger] zone_offsets(moments@, offsets)
                &&& forall|i: int|
                    0 <= i < 3 ==> -86_400 < #[trigger] offsets[i] < 86_400 && shows_local_time(
                        labels@[i]@,
                        moments@[i],
                        offsets[i],
                    )
            },
{
    let offsets = choose|offsets: Seq<i32>|
        possible_offsets(offsets) && zone_offsets(label_moments(bounds), offsets)
            && labels@.map_values(|label: String| label@) == #[trigger] x_labels(bounds, offsets);
    let all = labels@.map_values(|label: String| label@);
    assert(all.len() == labels@.len());
    assert forall|i: int| 0 <= i < 3 implies -86_400 < #[trigger] offsets[i] < 86_400
        && shows_local_time(labels@[i]@, moments@[i], offsets[i]) by {
        assert(all[i] == labels@[i]@);
        let second = ((moments@[i].secs + offsets[i]) % 86_400) as nat;
        assert(labels@[i]@ == clock_text(second, moments@[i].nanos as nat));
    }
    assert(zone_offsets(moments@, offsets));
}

/// A text is the time of day at an instant, shifted by an offset from UTC.
pub open spec fn shows_local_time(text: Seq<char>, moment: Moment, offset: i32) -> bool {
    exists|second: nat|
        {
            &&& second < 86_400
            &&& (moment.secs + offset - second) % 86_400 == 0
            &&& text == #[trigger] clock_text(second, moment.nanos as nat)
        }
}

proof fn lemma_two_digits(n: nat)
    requires
        n < 100,
    ensures
        padded(n, 2).len() == 2,
        read_digits(padded(n, 2)) == n,
{
    reveal_with_fuel(padded, 3);
    reveal_with_fuel(read_digits, 3);
    let text = padded(n, 2);
    let front = text.drop_last();
    assert(front =~= padded(n / 10, 1));
    assert(front.drop_last() =~= Seq::empty());
    assert(read_digits(front.drop_last()) == 0);
    assert(front.last() == crate::text::digit(n / 10 % 10));
    assert(text.last() == crate::text::digit(n % 10));
}

/// A time of day reads as hours, minutes and seconds with colons in between, and shows nothing more
/// when the second is whole.
pub proof fn law_times_of_day_read_back(second: nat, nanos: nat)
    requires
        second < 86_400,
    ensures
        ({
            let text = clock_text(second, nanos);
            let hours = read_digits(text.subrange(0, 2));
            let minutes = read_digits(text.subrange(3, 5));
            let seconds = read_digits(text.subrange(6, 8));
            &&& text.len() >= 8
            &&& 0 <= hours < 24 && 0 <= minutes < 60 && 0 <= seconds < 60
            &&& 3_600 * hours + 60 * minutes + seconds == second
            &&& text[2] == ':' && text[5] == ':'
            &&& text.len() == 8 <==> nanos == 0
            &&& nanos != 0 ==> text[8] == '.'
        }),
{
    let text = clock_text(second, nanos);
    lemma_two_digits(second / 3600);
    lemma_two_digits(second / 60 % 60);
    lemma_two_digits(second % 60);
    assert(text.subrange(0, 2) =~= padded(second / 3600, 2));
    assert(text.subrange(3, 5) =~= padded(second / 60 % 60, 2));
    assert(text.subrange(6, 8) =~= padded(second % 60, 2));
}

}
