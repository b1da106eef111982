//! What holds of the analyzer over all states and inputs.

use crate::arith::ieee_product;
use crate::arith_laws::{lemma_product_is_a_number, lemma_sum_is_a_number};
use crate::binary64::{lemma_units_order, negation, Binary64};
use crate::model::{
    bumped, clamped_window, fed, initial_state, internal_of, is_input_key, is_window_key,
    lemma_input_keeps_valid, lemma_tick_keeps_valid, of_bits, output_of, period_counts,
    rolls_over, run, sanitized, tick, valid, window_over, with_config, with_input,
    within_window, AnalyzerState, Feed, BURST_PORT, HIGH_SENTINEL_BITS, INPUT_PORT, LAST_MAX,
    LAST_MIN, LOWER_FRACTION_BITS, LOW_SENTINEL_BITS, MAX_PORT, MIN_PORT, OUT_MAX, OUT_MIN,
    RUNNING_MAX, RUNNING_MIN, SHORTEST_WINDOW_BITS, UPPER_FRACTION_BITS, WINDOW_LABEL,
    WINDOW_OPTION, ZERO_BITS,
};
use vstd::prelude::*;

verus! {

/// A new analyzer shows zero on every output port, and its running extrema
/// stand at the two sentinels.
pub proof fn law_new_analyzer_is_at_rest(key: Seq<char>)
    ensures
        output_of(initial_state(), key) == of_bits(ZERO_BITS),
        internal_of(initial_state(), RUNNING_MIN@) == Some(of_bits(HIGH_SENTINEL_BITS)),
        internal_of(initial_state(), RUNNING_MAX@) == Some(of_bits(LOW_SENTINEL_BITS)),
        internal_of(initial_state(), OUT_MIN@) == Some(of_bits(ZERO_BITS)),
        internal_of(initial_state(), OUT_MAX@) == Some(of_bits(ZERO_BITS)),
{
    reveal_strlit("out_min");
    reveal_strlit("out_max");
    reveal_strlit("min");
    reveal_strlit("max");
    reveal_strlit("temp_min");
    reveal_strlit("temp_max");
    assert("out_min"@.len() == 7 && "out_max"@.len() == 7);
    assert("min"@.len() == 3 && "max"@.len() == 3);
    assert("temp_min"@.len() == 8 && "temp_max"@.len() == 8);
    assert("temp_max"@[6] != "temp_min"@[6]);
    assert("out_max"@[5] != "out_min"@[5]);
}

/// Every declared name reaches its own value: the three output ports, the
/// six diagnostic names, the input port, and the window length under both
/// of its names.
pub proof fn law_every_name_reaches_its_own_value(s: AnalyzerState, value: Binary64)
    ensures
        output_of(s, MIN_PORT@) == s.out_0,
        output_of(s, MAX_PORT@) == s.out_1,
        output_of(s, BURST_PORT@) == s.out_2,
        internal_of(s, OUT_MIN@) == Some(s.out_0),
        internal_of(s, OUT_MAX@) == Some(s.out_1),
        internal_of(s, LAST_MIN@) == Some(s.min),
        internal_of(s, LAST_MAX@) == Some(s.max),
        internal_of(s, RUNNING_MIN@) == Some(s.temp_min),
        internal_of(s, RUNNING_MAX@) == Some(s.temp_max),
        with_input(s, INPUT_PORT@, value).vm == sanitized(value),
        with_config(s, WINDOW_OPTION@, Some(value)).observation_time == clamped_window(value),
        with_config(s, WINDOW_LABEL@, Some(value)).observation_time == clamped_window(value),
{
    reveal_strlit("Min (V)");
    reveal_strlit("Max (V)");
    reveal_strlit("Burst duration (s)");
    reveal_strlit("out_min");
    reveal_strlit("out_max");
    reveal_strlit("min");
    reveal_strlit("max");
    reveal_strlit("temp_min");
    reveal_strlit("temp_max");
    assert(MIN_PORT@.len() == 7 && MAX_PORT@.len() == 7 && BURST_PORT@.len() == 18);
    assert(MAX_PORT@[1] != MIN_PORT@[1]);
    assert(OUT_MIN@.len() == 7 && OUT_MAX@.len() == 7);
    assert(LAST_MIN@.len() == 3 && LAST_MAX@.len() == 3);
    assert(RUNNING_MIN@.len() == 8 && RUNNING_MAX@.len() == 8);
    assert(OUT_MAX@[5] != OUT_MIN@[5]);
    assert(LAST_MAX@[1] != LAST_MIN@[1]);
    assert(RUNNING_MAX@[6] != RUNNING_MIN@[6]);
}

/// A tick whose period is not finite, or not above zero, changes nothing.
pub proof fn law_stopped_clock_changes_nothing(s: AnalyzerState, period: Binary64)
    requires
        !period.finite() || period.at_most(of_bits(ZERO_BITS)),
    ensures
        tick(s, period) == s,
{
}

/// A zero period and a NaN period are such periods.
pub proof fn law_zero_and_nan_stop_the_clock(s: AnalyzerState, nan: Binary64)
    requires
        nan.nan(),
    ensures
        tick(s, of_bits(ZERO_BITS)) == s,
        tick(s, nan) == s,
{
    lemma_units_order(of_bits(ZERO_BITS), of_bits(ZERO_BITS));
}

/// An input that is not finite is stored as zero: the analyzer goes on as
/// if zero had been offered.
pub proof fn law_non_finite_input_counts_as_zero(
    s: AnalyzerState,
    key: Seq<char>,
    value: Binary64,
    period: Binary64,
)
    requires
        !value.finite(),
    ensures
        with_input(s, key, value) == with_input(s, key, of_bits(ZERO_BITS)),
        is_input_key(key) ==> with_input(s, key, value).vm == of_bits(ZERO_BITS),
        tick(with_input(s, key, value), period) == tick(
            with_input(s, key, of_bits(ZERO_BITS)),
            period,
        ),
{
}

/// An input that is not finite never raises a running maximum that is
/// zero or above, in a tick that does not start with a rollover.
pub proof fn law_non_finite_input_keeps_maximum(
    s: AnalyzerState,
    value: Binary64,
    period: Binary64,
)
    requires
        valid(s),
        !value.finite(),
        of_bits(ZERO_BITS).at_most(s.temp_max),
        !rolls_over(s, period),
    ensures
        tick(with_input(s, INPUT_PORT@, value), period).temp_max == s.temp_max,
{
}

/// A tick that starts with a rollover publishes the extrema that were
/// running before it, and starts the new window with its own sample alone:
/// the sample is folded into the two sentinels, which it replaces unless it
/// lies beyond them.
pub proof fn law_rollover_publishes_extrema(s: AnalyzerState, period: Binary64)
    requires
        valid(s),
        rolls_over(s, period),
    ensures
        tick(s, period).out_0 == s.temp_min,
        tick(s, period).out_1 == s.temp_max,
        tick(s, period).min == s.temp_min,
        tick(s, period).max == s.temp_max,
        tick(s, period).temp_min == if s.vm.less_than(of_bits(HIGH_SENTINEL_BITS)) {
            s.vm
        } else {
            of_bits(HIGH_SENTINEL_BITS)
        },
        tick(s, period).temp_max == if of_bits(LOW_SENTINEL_BITS).less_than(s.vm) {
            s.vm
        } else {
            of_bits(LOW_SENTINEL_BITS)
        },
        tick(s, period).count == 1,
        tick(s, period).pts_counter == 1,
{
}

/// Outputs and thresholds move only in a tick that starts with a rollover:
/// no other tick, no input and no option changes them.
pub proof fn law_outputs_move_only_on_rollover(
    s: AnalyzerState,
    key: Seq<char>,
    value: Binary64,
    option: Option<Binary64>,
    period: Binary64,
)
    requires
        valid(s),
        !rolls_over(s, period),
    ensures
        published(tick(s, period)) == published(s),
        published(with_input(s, key, value)) == published(s),
        published(with_config(s, key, option)) == published(s),
{
}

/// What a rollover publishes, and the thresholds that follow from it.
pub open spec fn published(s: AnalyzerState) -> (
    Binary64,
    Binary64,
    Binary64,
    Binary64,
    Binary64,
    Binary64,
    Binary64,
) {
    (s.out_0, s.out_1, s.out_2, s.min, s.max, s.thresh_down, s.thresh_up)
}

/// The published minimum never lies above the published maximum, nor the
/// minimum of the last window above its maximum.
pub proof fn law_published_extrema_are_ordered(s: AnalyzerState)
    requires
        valid(s),
    ensures
        s.out_0.at_most(s.out_1),
        s.min.at_most(s.max),
{
}

/// The range and the two thresholds are never NaNs, so that every
/// comparison of the hysteresis step is one between numbers.
pub proof fn law_thresholds_are_numbers(s: AnalyzerState)
    requires
        valid(s),
    ensures
        !s.range.nan(),
        !s.thresh_down.nan(),
        !s.thresh_up.nan(),
{
    let lower = of_bits(LOWER_FRACTION_BITS);
    let upper = of_bits(UPPER_FRACTION_BITS);
    lemma_sum_is_a_number(s.max, negation(s.min));
    lemma_product_is_a_number(s.range, lower);
    lemma_product_is_a_number(s.range, upper);
    lemma_sum_is_a_number(s.min, ieee_product(s.range, lower));
    lemma_sum_is_a_number(s.min, ieee_product(s.range, upper));
}

/// A sample above the upper threshold, met outside a burst, begins one and
/// counts one onset.
pub proof fn law_onset_is_counted(s: AnalyzerState, period: Binary64)
    requires
        valid(s),
        period_counts(period),
        !window_over(s, period),
        !s.is_burst,
        s.thresh_up.less_than(s.vm),
    ensures
        tick(s, period).is_burst,
        tick(s, period).burst_counter == bumped(s.burst_counter),
        tick(s, period).old_burst_time == s.pts_counter,
{
}

/// Inside a burst no tick counts an onset, whatever the sample.
pub proof fn law_no_onset_inside_a_burst(s: AnalyzerState, period: Binary64)
    requires
        valid(s),
        s.is_burst,
    ensures
        tick(s, period).burst_counter == if rolls_over(s, period) {
            0
        } else {
            s.burst_counter
        },
{
}

/// While no rollover intervenes, the steps of a host leave what was
/// published untouched, and the state among those that can occur.
pub proof fn lemma_run_within_window(s: AnalyzerState, feeds: Seq<Feed>)
    requires
        valid(s),
        within_window(s, feeds),
    ensures
        valid(run(s, feeds)),
        published(run(s, feeds)) == published(s),
    decreases feeds.len(),
{
    if feeds.len() > 0 {
        let front = feeds.drop_last();
        let last = feeds.last();
        lemma_within_window_prefix(s, feeds);
        lemma_run_within_window(s, front);
        let before = run(s, front);
        assert(front =~= feeds.take(feeds.len() - 1));
        assert(!rolls_over(before, last.period));
        lemma_input_keeps_valid(before, INPUT_PORT@, last.sample);
        lemma_tick_keeps_valid(with_input(before, INPUT_PORT@, last.sample), last.period);
    }
}

/// What holds of a run within a window holds of the run without its last
/// step.
pub proof fn lemma_within_window_prefix(s: AnalyzerState, feeds: Seq<Feed>)
    requires
        feeds.len() > 0,
        within_window(s, feeds),
    ensures
        within_window(s, feeds.drop_last()),
{
    let front = feeds.drop_last();
    assert forall|i: int| 0 <= i < front.len() implies !rolls_over(
        #[trigger] run(s, front.take(i)),
        front[i].period,
    ) by {
        assert(front.take(i) =~= feeds.take(i));
    }
}

/// One step that does not start with a rollover can only widen the
/// running extrema, and widens them just enough to hold its sample.
pub proof fn lemma_step_widens_extrema(s: AnalyzerState, feed: Feed)
    requires
        valid(s),
        !rolls_over(s, feed.period),
    ensures
        fed(s, feed).temp_min.at_most(s.temp_min),
        s.temp_max.at_most(fed(s, feed).temp_max),
        fed(s, feed).temp_min == s.temp_min || fed(s, feed).temp_min == sanitized(feed.sample),
        fed(s, feed).temp_max == s.temp_max || fed(s, feed).temp_max == sanitized(feed.sample),
        period_counts(feed.period) ==> fed(s, feed).temp_min.at_most(sanitized(feed.sample))
            && sanitized(feed.sample).at_most(fed(s, feed).temp_max),
{
}

/// The running extrema bound every sample that was fed in a tick whose
/// clock ran since the window began.
pub proof fn law_running_extrema_bound_the_samples(s: AnalyzerState, feeds: Seq<Feed>, i: int)
    requires
        valid(s),
        within_window(s, feeds),
        0 <= i < feeds.len(),
        period_counts(feeds[i].period),
    ensures
        run(s, feeds).temp_min.at_most(sanitized(feeds[i].sample)),
        sanitized(feeds[i].sample).at_most(run(s, feeds).temp_max),
    decreases feeds.len(),
{
    let front = feeds.drop_last();
    let last = feeds.last();
    lemma_within_window_prefix(s, feeds);
    lemma_run_within_window(s, front);
    let before = run(s, front);
    assert(front =~= feeds.take(feeds.len() - 1));
    assert(!rolls_over(before, last.period));
    lemma_step_widens_extrema(before, last);
    if i < feeds.len() - 1 {
        assert(front[i] == feeds[i]);
        law_running_extrema_bound_the_samples(s, front, i);
    }
}

/// The running extrema are attained: each is the one the window began
/// with, or one of the samples fed since.
pub proof fn law_running_extrema_are_attained(s: AnalyzerState, feeds: Seq<Feed>)
    requires
        valid(s),
        within_window(s, feeds),
    ensures
        run(s, feeds).temp_min == s.temp_min || exists|i: int|
            0 <= i < feeds.len() && run(s, feeds).temp_min == sanitized(
                #[trigger] feeds[i].sample,
            ),
        run(s, feeds).temp_max == s.temp_max || exists|i: int|
            0 <= i < feeds.len() && run(s, feeds).temp_max == sanitized(
                #[trigger] feeds[i].sample,
            ),
    decreases feeds.len(),
{
    if feeds.len() > 0 {
        let front = feeds.drop_last();
        let last = feeds.last();
        lemma_within_window_prefix(s, feeds);
        lemma_run_within_window(s, front);
        law_running_extrema_are_attained(s, front);
        let before = run(s, front);
        assert(front =~= feeds.take(feeds.len() - 1));
        assert(!rolls_over(before, last.period));
        lemma_step_widens_extrema(before, last);
        let after = run(s, feeds);
        if after.temp_min == sanitized(last.sample) {
            assert(feeds[feeds.len() - 1] == last);
        } else if before.temp_min != s.temp_min {
            let j = choose|j: int|
                0 <= j < front.len() && before.temp_min == sanitized(#[trigger] front[j].sample);
            assert(front[j] == feeds[j]);
        }
        if after.temp_max == sanitized(last.sample) {
            assert(feeds[feeds.len() - 1] == last);
        } else if before.temp_max != s.temp_max {
            let j = choose|j: int|
                0 <= j < front.len() && before.temp_max == sanitized(#[trigger] front[j].sample);
            assert(front[j] == feeds[j]);
        }
    }
}

/// Hysteresis hold: from inside a burst, as long as no sample falls below
/// the lower threshold and no rollover intervenes, the signal stays in the
/// burst and no further onset is counted, however many samples lie above
/// the upper threshold.
pub proof fn law_burst_is_counted_once(s: AnalyzerState, feeds: Seq<Feed>)
    requires
        valid(s),
        s.is_burst,
        within_window(s, feeds),
        forall|i: int|
            0 <= i < feeds.len() ==> !(#[trigger] sanitized(feeds[i].sample)).less_than(
                s.thresh_down,
            ),
    ensures
        run(s, feeds).is_burst,
        run(s, feeds).burst_counter == s.burst_counter,
    decreases feeds.len(),
{
    if feeds.len() > 0 {
        let front = feeds.drop_last();
        let last = feeds.last();
        lemma_within_window_prefix(s, feeds);
        assert forall|i: int| 0 <= i < front.len() implies !(#[trigger] sanitized(
            front[i].sample,
        )).less_than(s.thresh_down) by {
            assert(front[i] == feeds[i]);
        }
        law_burst_is_counted_once(s, front);
        lemma_run_within_window(s, front);
        let before = run(s, front);
        assert(front =~= feeds.take(feeds.len() - 1));
        assert(!rolls_over(before, last.period));
        assert(!sanitized(feeds[feeds.len() - 1].sample).less_than(s.thresh_down));
    }
}

/// A window without a burst: from a state with no onset counted, as long
/// as no sample lies above the upper threshold and no rollover intervenes,
/// no onset is counted.
pub proof fn law_quiet_window_counts_nothing(s: AnalyzerState, feeds: Seq<Feed>)
    requires
        valid(s),
        s.burst_counter <= 0,
        within_window(s, feeds),
        forall|i: int|
            0 <= i < feeds.len() ==> !s.thresh_up.less_than(
                #[trigger] sanitized(feeds[i].sample),
            ),
    ensures
        run(s, feeds).burst_counter == s.burst_counter,
    decreases feeds.len(),
{
    if feeds.len() > 0 {
        let front = feeds.drop_last();
        let last = feeds.last();
        lemma_within_window_prefix(s, feeds);
        assert forall|i: int| 0 <= i < front.len() implies !s.thresh_up.less_than(
            #[trigger] sanitized(front[i].sample),
        ) by {
            assert(front[i] == feeds[i]);
        }
        law_quiet_window_counts_nothing(s, front);
        lemma_run_within_window(s, front);
        let before = run(s, front);
        assert(front =~= feeds.take(feeds.len() - 1));
        assert(!rolls_over(before, last.period));
        assert(!s.thresh_up.less_than(sanitized(feeds[feeds.len() - 1].sample)));
    }
}

/// The rollover that ends a window without an onset publishes a mean burst
/// period of zero.
pub proof fn law_quiet_window_reports_zero(s: AnalyzerState, period: Binary64)
    requires
        valid(s),
        s.burst_counter <= 0,
        rolls_over(s, period),
    ensures
        tick(s, period).out_2 == of_bits(ZERO_BITS),
        tick(s, period).sec_per_burst == of_bits(ZERO_BITS),
{
}

/// The published mean burst period is finite after every tick.
pub proof fn law_mean_burst_period_is_finite(s: AnalyzerState, period: Binary64)
    requires
        valid(s),
    ensures
        tick(s, period).out_2.finite(),
{
    lemma_tick_keeps_valid(s, period);
}

/// The window length is never stored shorter than the shortest window: a
/// request at or below it, zero among them, or a NaN, stores the shortest
/// window itself; a longer one is stored as it is.
pub proof fn law_window_length_is_clamped(s: AnalyzerState, key: Seq<char>, value: Binary64)
    requires
        is_window_key(key),
    ensures
        of_bits(SHORTEST_WINDOW_BITS).at_most(with_config(s, key, Some(value)).observation_time),
        !of_bits(SHORTEST_WINDOW_BITS).less_than(value) ==> with_config(
            s,
            key,
            Some(value),
        ).observation_time == of_bits(SHORTEST_WINDOW_BITS),
        of_bits(SHORTEST_WINDOW_BITS).less_than(value) ==> with_config(
            s,
            key,
            Some(value),
        ).observation_time == value,
        with_config(s, key, Some(of_bits(ZERO_BITS))).observation_time == of_bits(
            SHORTEST_WINDOW_BITS,
        ),
{
    lemma_units_order(of_bits(ZERO_BITS), of_bits(SHORTEST_WINDOW_BITS));
}

/// A value that is no number, or a name that is no option, sets nothing.
pub proof fn law_other_options_change_nothing(
    s: AnalyzerState,
    key: Seq<char>,
    value: Option<Binary64>,
)
    requires
        value is None || !is_window_key(key),
    ensures
        with_config(s, key, value) == s,
{
}

} // verus!
