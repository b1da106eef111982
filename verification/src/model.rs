//! The analyzer as a state machine over mathematical state: what one tick,
//! one input and one option do, and which states can occur.

use crate::arith::{ieee_difference, ieee_from_nat, ieee_product, ieee_quotient, ieee_sum};
use crate::binary64::{lemma_units_order, negation, Binary64};
use crate::rounding::lemma_nearest_zero;
use vstd::arithmetic::power2::{lemma_pow2_pos, pow2};
use vstd::prelude::*;

verus! {

/// `0.0`.
pub const ZERO_BITS: u64 = 0;

/// `1.0`.
pub const ONE_BITS: u64 = 0x3FF0_0000_0000_0000;

/// The binary64 nearest to one tenth: the lower hysteresis fraction.
pub const LOWER_FRACTION_BITS: u64 = 0x3FB9_9999_9999_999A;

/// The binary64 nearest to nine tenths: the upper hysteresis fraction.
pub const UPPER_FRACTION_BITS: u64 = 0x3FEC_CCCC_CCCC_CCCD;

/// The binary64 nearest to one thousandth: the shortest window, in seconds.
pub const SHORTEST_WINDOW_BITS: u64 = 0x3F50_624D_D2F1_A9FC;

/// `5.0`: the window length of a new analyzer, in seconds.
pub const DEFAULT_WINDOW_BITS: u64 = 0x4014_0000_0000_0000;

/// `999999.0`: where the running minimum starts in each window.
pub const HIGH_SENTINEL_BITS: u64 = 0x412E_847E_0000_0000;

/// `-999999.0`: where the running maximum starts in each window.
pub const LOW_SENTINEL_BITS: u64 = 0xC12E_847E_0000_0000;

/// Two to the 53: where a counter kept in binary64 stops growing, since
/// adding one to it rounds back to it.
pub const COUNTER_LIMIT: u64 = 0x20_0000_0000_0000;

/// The name under which a host lists the analyzer.
pub const DISPLAY_NAME: &'static str = "RTHybrid Burst Analysis";

/// The identifier of this kind of analyzer.
pub const KIND: &'static str = "rthybrid_burst_analysis";

/// The input port.
pub const INPUT_PORT: &'static str = "Vm (V)";

/// The output port of the published minimum.
pub const MIN_PORT: &'static str = "Min (V)";

/// The output port of the published maximum.
pub const MAX_PORT: &'static str = "Max (V)";

/// The output port of the published mean burst period.
pub const BURST_PORT: &'static str = "Burst duration (s)";

/// The option that holds the window length, by its identifier.
pub const WINDOW_OPTION: &'static str = "observation_time";

/// The same option, by its label.
pub const WINDOW_LABEL: &'static str = "Observation time (s)";

/// The diagnostic name of the published minimum.
pub const OUT_MIN: &'static str = "out_min";

/// The diagnostic name of the published maximum.
pub const OUT_MAX: &'static str = "out_max";

/// The diagnostic name of the minimum of the last completed window.
pub const LAST_MIN: &'static str = "min";

/// The diagnostic name of the maximum of the last completed window.
pub const LAST_MAX: &'static str = "max";

/// The diagnostic name of the running minimum.
pub const RUNNING_MIN: &'static str = "temp_min";

/// The diagnostic name of the running maximum.
pub const RUNNING_MAX: &'static str = "temp_max";

/// The value with the given encoding.
pub open spec fn of_bits(bits: u64) -> Binary64 {
    Binary64 { bits }
}

/// The state of an analyzer. The counters are integers; in binary64 they
/// would hold the same values, every one of them being at most two to the 53.
pub struct AnalyzerState {
    /// The latest input sample.
    pub vm: Binary64,
    /// The published minimum.
    pub out_0: Binary64,
    /// The published maximum.
    pub out_1: Binary64,
    /// The published mean burst period, in seconds.
    pub out_2: Binary64,
    /// The window length, in seconds.
    pub observation_time: Binary64,
    /// The minimum of the last completed window.
    pub min: Binary64,
    /// The maximum of the last completed window.
    pub max: Binary64,
    /// The running minimum of the current window.
    pub temp_min: Binary64,
    /// The running maximum of the current window.
    pub temp_max: Binary64,
    /// Ticks since the last rollover.
    pub count: nat,
    /// The threshold above which a burst begins.
    pub thresh_up: Binary64,
    /// The threshold below which a burst ends.
    pub thresh_down: Binary64,
    /// `max - min`.
    pub range: Binary64,
    /// The time axis of burst onsets, in ticks since the last rollover.
    pub pts_counter: nat,
    /// Burst onsets in the current window; `-1` until the first one ever
    /// or the first rollover.
    pub burst_counter: int,
    /// Whether the signal is in a burst.
    pub is_burst: bool,
    /// The gaps between onsets of the current window, added up.
    pub burst_dur_sum: nat,
    /// `pts_counter` at the latest onset.
    pub old_burst_time: nat,
    /// The mean burst period computed at the last rollover.
    pub sec_per_burst: Binary64,
}

/// The state of a new analyzer.
pub open spec fn initial_state() -> AnalyzerState {
    AnalyzerState {
        vm: of_bits(ZERO_BITS),
        out_0: of_bits(ZERO_BITS),
        out_1: of_bits(ZERO_BITS),
        out_2: of_bits(ZERO_BITS),
        observation_time: of_bits(DEFAULT_WINDOW_BITS),
        min: of_bits(ZERO_BITS),
        max: of_bits(ZERO_BITS),
        temp_min: of_bits(HIGH_SENTINEL_BITS),
        temp_max: of_bits(LOW_SENTINEL_BITS),
        count: 0,
        thresh_up: of_bits(ZERO_BITS),
        thresh_down: of_bits(ZERO_BITS),
        range: of_bits(ZERO_BITS),
        pts_counter: 0,
        burst_counter: -1,
        is_burst: true,
        burst_dur_sum: 0,
        old_burst_time: 0,
        sec_per_burst: of_bits(ZERO_BITS),
    }
}

/// The threshold that lies `fraction` of the way from `min` to `max`.
pub open spec fn threshold(min: Binary64, max: Binary64, fraction: Binary64) -> Binary64 {
    ieee_sum(min, ieee_product(ieee_difference(max, min), fraction))
}

/// What holds of every state that an analyzer can reach.
pub open spec fn valid(s: AnalyzerState) -> bool {
    &&& s.vm.finite()
    &&& s.out_0.finite()
    &&& s.out_1.finite()
    &&& s.out_2.finite()
    &&& s.min.finite()
    &&& s.max.finite()
    &&& s.temp_min.finite()
    &&& s.temp_max.finite()
    &&& s.out_0.at_most(s.out_1)
    &&& s.min.at_most(s.max)
    &&& s.count >= 1 ==> s.temp_min.at_most(s.temp_max)
    &&& of_bits(SHORTEST_WINDOW_BITS).at_most(s.observation_time)
    &&& s.range == ieee_difference(s.max, s.min)
    &&& s.thresh_down == threshold(s.min, s.max, of_bits(LOWER_FRACTION_BITS))
    &&& s.thresh_up == threshold(s.min, s.max, of_bits(UPPER_FRACTION_BITS))
    &&& s.count <= COUNTER_LIMIT
    &&& s.pts_counter <= COUNTER_LIMIT
    &&& -1 <= s.burst_counter <= COUNTER_LIMIT
    &&& s.burst_dur_sum == s.old_burst_time
    &&& s.old_burst_time <= s.pts_counter
}

/// A counter after one more event.
pub open spec fn bumped(n: int) -> int {
    if n < COUNTER_LIMIT {
        n + 1
    } else {
        n
    }
}

/// Whether the clock runs: a period that is finite and above zero.
pub open spec fn period_counts(period: Binary64) -> bool {
    period.finite() && !period.at_most(of_bits(ZERO_BITS))
}

/// The time spent in the current window, taking every tick of it to have
/// lasted `period`.
pub open spec fn window_time(s: AnalyzerState, period: Binary64) -> Binary64 {
    ieee_product(ieee_from_nat(s.count), period)
}

/// Whether the current window is over.
pub open spec fn window_over(s: AnalyzerState, period: Binary64) -> bool {
    s.observation_time.less_than(window_time(s, period))
}

/// Ticks per second.
pub open spec fn sample_rate(period: Binary64) -> Binary64 {
    ieee_quotient(of_bits(ONE_BITS), period)
}

/// The mean time between the burst onsets of the current window, in
/// seconds at the rate of the current tick; zero where there was no onset.
pub open spec fn mean_burst_period(s: AnalyzerState, period: Binary64) -> Binary64 {
    if s.burst_counter > 0 {
        ieee_quotient(
            ieee_quotient(ieee_from_nat(s.burst_dur_sum), ieee_from_nat(s.burst_counter as nat)),
            sample_rate(period),
        )
    } else {
        of_bits(ZERO_BITS)
    }
}

/// The rollover: the window's extrema and its mean burst period are
/// published, and its accumulators start again.
pub open spec fn rolled_over(s: AnalyzerState, period: Binary64) -> AnalyzerState {
    let publish = s.temp_min.finite() && s.temp_max.finite();
    let mean = mean_burst_period(s, period);
    AnalyzerState {
        min: s.temp_min,
        max: s.temp_max,
        out_0: if publish { s.temp_min } else { s.out_0 },
        out_1: if publish { s.temp_max } else { s.out_1 },
        temp_min: of_bits(HIGH_SENTINEL_BITS),
        temp_max: of_bits(LOW_SENTINEL_BITS),
        count: 0,
        sec_per_burst: mean,
        out_2: if mean.finite() { mean } else { of_bits(ZERO_BITS) },
        pts_counter: 0,
        burst_counter: 0,
        burst_dur_sum: 0,
        old_burst_time: 0,
        ..s
    }
}

/// The sample is folded into the running extrema, and the thresholds are
/// taken from the published ones.
pub open spec fn sampled(s: AnalyzerState) -> AnalyzerState {
    AnalyzerState {
        temp_min: if s.vm.less_than(s.temp_min) { s.vm } else { s.temp_min },
        temp_max: if s.temp_max.less_than(s.vm) { s.vm } else { s.temp_max },
        range: ieee_difference(s.max, s.min),
        thresh_down: threshold(s.min, s.max, of_bits(LOWER_FRACTION_BITS)),
        thresh_up: threshold(s.min, s.max, of_bits(UPPER_FRACTION_BITS)),
        ..s
    }
}

/// A burst begins: the signal was not in one and the sample is above the
/// upper threshold.
pub open spec fn onset(s: AnalyzerState) -> bool {
    !s.is_burst && s.thresh_up.less_than(s.vm)
}

/// A burst ends: the signal was in one and the sample is below the lower
/// threshold.
pub open spec fn release(s: AnalyzerState) -> bool {
    s.is_burst && s.vm.less_than(s.thresh_down)
}

/// The hysteresis step.
pub open spec fn detected(s: AnalyzerState) -> AnalyzerState {
    if onset(s) {
        AnalyzerState {
            is_burst: true,
            burst_counter: bumped(s.burst_counter),
            burst_dur_sum: (s.burst_dur_sum + (s.pts_counter - s.old_burst_time)) as nat,
            old_burst_time: s.pts_counter,
            ..s
        }
    } else if release(s) {
        AnalyzerState { is_burst: false, ..s }
    } else {
        s
    }
}

/// The tick counters move on.
pub open spec fn advanced(s: AnalyzerState) -> AnalyzerState {
    AnalyzerState {
        pts_counter: bumped(s.pts_counter as int) as nat,
        count: bumped(s.count as int) as nat,
        ..s
    }
}

/// Whether a tick of `period` seconds starts with a rollover.
pub open spec fn rolls_over(s: AnalyzerState, period: Binary64) -> bool {
    period_counts(period) && window_over(s, period)
}

/// One tick of `period` seconds. Where the clock does not run, nothing
/// changes. Otherwise a window that is over rolls over first, and the
/// sample then counts towards the new one.
pub open spec fn tick(s: AnalyzerState, period: Binary64) -> AnalyzerState {
    if !period_counts(period) {
        s
    } else if window_over(s, period) {
        advanced(detected(sampled(rolled_over(s, period))))
    } else {
        advanced(detected(sampled(s)))
    }
}

/// The sample that is stored for an input: zero in place of an infinity or
/// a NaN.
pub open spec fn sanitized(value: Binary64) -> Binary64 {
    if value.finite() {
        value
    } else {
        of_bits(ZERO_BITS)
    }
}

/// The window length that is stored for a requested one: no shorter than
/// the shortest window, which also stands in for a NaN.
pub open spec fn clamped_window(value: Binary64) -> Binary64 {
    if of_bits(SHORTEST_WINDOW_BITS).less_than(value) {
        value
    } else {
        of_bits(SHORTEST_WINDOW_BITS)
    }
}

/// Whether `key` names the one input port.
pub open spec fn is_input_key(key: Seq<char>) -> bool {
    key == INPUT_PORT@
}

/// Whether `key` names the window length, in either spelling.
pub open spec fn is_window_key(key: Seq<char>) -> bool {
    key == WINDOW_OPTION@ || key == WINDOW_LABEL@
}

/// The state after a value was offered to the input port `key`.
pub open spec fn with_input(s: AnalyzerState, key: Seq<char>, value: Binary64) -> AnalyzerState {
    if is_input_key(key) {
        AnalyzerState { vm: sanitized(value), ..s }
    } else {
        s
    }
}

/// The state after the option `key` was set to `value`, which is `None`
/// for a value that is no number.
pub open spec fn with_config(
    s: AnalyzerState,
    key: Seq<char>,
    value: Option<Binary64>,
) -> AnalyzerState {
    match value {
        Some(v) if is_window_key(key) => AnalyzerState { observation_time: clamped_window(v), ..s },
        _ => s,
    }
}

/// One step of the host: a sample for the input port, then a tick.
pub struct Feed {
    /// The value offered to the input port.
    pub sample: Binary64,
    /// The time the tick took, in seconds.
    pub period: Binary64,
}

/// The state after one step of the host.
pub open spec fn fed(s: AnalyzerState, feed: Feed) -> AnalyzerState {
    tick(with_input(s, INPUT_PORT@, feed.sample), feed.period)
}

/// The state after the steps `feeds`, in their order.
pub open spec fn run(s: AnalyzerState, feeds: Seq<Feed>) -> AnalyzerState
    decreases feeds.len(),
{
    if feeds.len() == 0 {
        s
    } else {
        fed(run(s, feeds.drop_last()), feeds.last())
    }
}

/// None of the steps `feeds` starts with a rollover.
pub open spec fn within_window(s: AnalyzerState, feeds: Seq<Feed>) -> bool {
    forall|i: int|
        0 <= i < feeds.len() ==> !rolls_over(#[trigger] run(s, feeds.take(i)), feeds[i].period)
}

/// What the output port `key` shows; zero for a name that is no port.
pub open spec fn output_of(s: AnalyzerState, key: Seq<char>) -> Binary64 {
    if key == MIN_PORT@ {
        s.out_0
    } else if key == MAX_PORT@ {
        s.out_1
    } else if key == BURST_PORT@ {
        s.out_2
    } else {
        of_bits(ZERO_BITS)
    }
}

/// The diagnostic value `key`; `None` for a name that is none.
pub open spec fn internal_of(s: AnalyzerState, key: Seq<char>) -> Option<Binary64> {
    if key == OUT_MIN@ {
        Some(s.out_0)
    } else if key == OUT_MAX@ {
        Some(s.out_1)
    } else if key == LAST_MIN@ {
        Some(s.min)
    } else if key == LAST_MAX@ {
        Some(s.max)
    } else if key == RUNNING_MIN@ {
        Some(s.temp_min)
    } else if key == RUNNING_MAX@ {
        Some(s.temp_max)
    } else {
        None
    }
}

/// Between two zeros every threshold is zero.
pub proof fn lemma_thresholds_at_rest(fraction: Binary64)
    requires
        fraction.finite(),
        !fraction.negative(),
    ensures
        ieee_difference(of_bits(ZERO_BITS), of_bits(ZERO_BITS)) == of_bits(ZERO_BITS),
        threshold(of_bits(ZERO_BITS), of_bits(ZERO_BITS), fraction) == of_bits(ZERO_BITS),
{
    reveal(ieee_sum);
    reveal(ieee_product);
    let zero = of_bits(ZERO_BITS);
    assert(zero.units() == 0) by {
        lemma_units_order(zero, zero);
    }
    let minus_zero = negation(zero);
    assert(minus_zero.units() == 0) by {
        lemma_units_order(minus_zero, minus_zero);
    }
    assert(ieee_sum(zero, minus_zero) == zero);
    lemma_pow2_pos(1074);
    lemma_nearest_zero(pow2(1074));
    assert(zero.units() * fraction.units() == 0) by (nonlinear_arith)
        requires
            zero.units() == 0,
    ;
    assert(ieee_product(zero, fraction) == zero);
    assert(ieee_sum(zero, zero) == zero);
}

/// A new analyzer is in a state that can occur.
pub proof fn lemma_initial_state_valid()
    ensures
        valid(initial_state()),
{
    lemma_thresholds_at_rest(of_bits(LOWER_FRACTION_BITS));
    lemma_thresholds_at_rest(of_bits(UPPER_FRACTION_BITS));
    lemma_units_order(of_bits(SHORTEST_WINDOW_BITS), of_bits(DEFAULT_WINDOW_BITS));
}

/// Storing a sample keeps the state among those that can occur.
pub proof fn lemma_input_keeps_valid(s: AnalyzerState, key: Seq<char>, value: Binary64)
    requires
        valid(s),
    ensures
        valid(with_input(s, key, value)),
{
}

/// Setting an option keeps the state among those that can occur.
pub proof fn lemma_config_keeps_valid(s: AnalyzerState, key: Seq<char>, value: Option<Binary64>)
    requires
        valid(s),
    ensures
        valid(with_config(s, key, value)),
{
}

/// No window is over before its first tick.
pub proof fn lemma_first_tick_never_rolls_over(s: AnalyzerState, period: Binary64)
    requires
        valid(s),
        s.count == 0,
        period.finite(),
    ensures
        !window_over(s, period),
{
    reveal(ieee_product);
    let zero = ieee_from_nat(0);
    let shortest = of_bits(SHORTEST_WINDOW_BITS);
    lemma_nearest_zero(1);
    assert(0 * pow2(1074) == 0);
    assert(zero == of_bits(ZERO_BITS));
    lemma_units_order(zero, zero);
    assert(zero.units() * period.units() == 0) by (nonlinear_arith)
        requires
            zero.units() == 0,
    ;
    lemma_pow2_pos(1074);
    lemma_nearest_zero(pow2(1074));
    let time = window_time(s, period);
    assert(time.magnitude() == 0);
    lemma_units_order(time, time);
    lemma_units_order(shortest, shortest);
}

/// The rollover keeps the state among those that can occur.
pub proof fn lemma_rollover_keeps_valid(s: AnalyzerState, period: Binary64)
    requires
        valid(s),
        rolls_over(s, period),
    ensures
        valid(sampled(rolled_over(s, period))),
{
    if s.count == 0 {
        lemma_first_tick_never_rolls_over(s, period);
    }
}

/// A tick keeps the state among those that can occur.
pub proof fn lemma_tick_keeps_valid(s: AnalyzerState, period: Binary64)
    requires
        valid(s),
    ensures
        valid(tick(s, period)),
{
    if period_counts(period) {
        if window_over(s, period) {
            lemma_rollover_keeps_valid(s, period);
        }
    }
}

} // verus!
