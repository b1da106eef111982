//! The analyzer that a host drives: one sample in, one tick, outputs out.

use crate::binary64::Binary64;
use crate::model::{
    bumped, initial_state, internal_of, lemma_config_keeps_valid, lemma_initial_state_valid,
    lemma_input_keeps_valid, lemma_tick_keeps_valid, output_of, tick, valid, with_config,
    with_input, AnalyzerState, BURST_PORT, COUNTER_LIMIT, DEFAULT_WINDOW_BITS,
    HIGH_SENTINEL_BITS, INPUT_PORT, LAST_MAX, LAST_MIN, LOWER_FRACTION_BITS,
    LOW_SENTINEL_BITS, MAX_PORT, MIN_PORT, ONE_BITS, OUT_MAX, OUT_MIN, RUNNING_MAX,
    RUNNING_MIN, SHORTEST_WINDOW_BITS, UPPER_FRACTION_BITS, WINDOW_LABEL, WINDOW_OPTION,
    ZERO_BITS,
};
use crate::text::same_text;
use vstd::prelude::*;

verus! {

/// The fields of an analyzer, as they are stored.
#[derive(Clone, Copy, Debug)]
struct Registers {
    vm: Binary64,
    out_0: Binary64,
    out_1: Binary64,
    out_2: Binary64,
    observation_time: Binary64,
    min: Binary64,
    max: Binary64,
    temp_min: Binary64,
    temp_max: Binary64,
    count: u64,
    thresh_up: Binary64,
    thresh_down: Binary64,
    range: Binary64,
    pts_counter: u64,
    burst_counter: i64,
    is_burst: bool,
    burst_dur_sum: u64,
    old_burst_time: u64,
    sec_per_burst: Binary64,
}

impl Registers {
    /// The state that the stored fields stand for.
    spec fn model(self) -> AnalyzerState {
        AnalyzerState {
            vm: self.vm,
            out_0: self.out_0,
            out_1: self.out_1,
            out_2: self.out_2,
            observation_time: self.observation_time,
            min: self.min,
            max: self.max,
            temp_min: self.temp_min,
            temp_max: self.temp_max,
            count: self.count as nat,
            thresh_up: self.thresh_up,
            thresh_down: self.thresh_down,
            range: self.range,
            pts_counter: self.pts_counter as nat,
            burst_counter: self.burst_counter as int,
            is_burst: self.is_burst,
            burst_dur_sum: self.burst_dur_sum as nat,
            old_burst_time: self.old_burst_time as nat,
            sec_per_burst: self.sec_per_burst,
        }
    }
}

/// A burst analyzer for one channel.
#[derive(Debug)]
pub struct BurstAnalyzer {
    registers: Registers,
}

impl View for BurstAnalyzer {
    type V = AnalyzerState;

    /// The state of the analyzer.
    closed spec fn view(&self) -> AnalyzerState {
        self.registers.model()
    }
}

/// A counter after one more event.
fn bump(n: u64) -> (r: u64)
    requires
        n <= COUNTER_LIMIT,
    ensures
        r == bumped(n as int),
        r <= COUNTER_LIMIT,
{
    if n < COUNTER_LIMIT {
        n + 1
    } else {
        n
    }
}

impl BurstAnalyzer {
    /// An analyzer is only ever in a state that can occur.
    #[verifier::type_invariant]
    spec fn well_formed(&self) -> bool {
        valid(self.registers.model())
    }

    /// An analyzer with a window of five seconds that has seen nothing yet.
    pub fn new() -> (r: Self)
        ensures
            r@ == initial_state(),
            valid(r@),
    {
        proof {
            lemma_initial_state_valid();
        }
        BurstAnalyzer {
            registers: Registers {
                vm: Binary64 { bits: ZERO_BITS },
                out_0: Binary64 { bits: ZERO_BITS },
                out_1: Binary64 { bits: ZERO_BITS },
                out_2: Binary64 { bits: ZERO_BITS },
                observation_time: Binary64 { bits: DEFAULT_WINDOW_BITS },
                min: Binary64 { bits: ZERO_BITS },
                max: Binary64 { bits: ZERO_BITS },
                temp_min: Binary64 { bits: HIGH_SENTINEL_BITS },
                temp_max: Binary64 { bits: LOW_SENTINEL_BITS },
                count: 0,
                thresh_up: Binary64 { bits: ZERO_BITS },
                thresh_down: Binary64 { bits: ZERO_BITS },
                range: Binary64 { bits: ZERO_BITS },
                pts_counter: 0,
                burst_counter: -1,
                is_burst: true,
                burst_dur_sum: 0,
                old_burst_time: 0,
                sec_per_burst: Binary64 { bits: ZERO_BITS },
            },
        }
    }

    /// Stores a sample offered to the input port `key`: the value itself if
    /// it is finite, zero if not. A name that is not the input port changes
    /// nothing.
    pub fn set_input_value(&mut self, key: &str, value: Binary64)
        ensures
            final(self)@ == with_input(old(self)@, key@, value),
            valid(final(self)@),
    {
        proof {
            use_type_invariant(&*self);
            lemma_input_keeps_valid(self@, key@, value);
        }
        if same_text(key, INPUT_PORT) {
            let mut r: Registers = self.registers;
            r.vm = if value.is_finite() {
                value
            } else {
                Binary64 { bits: ZERO_BITS }
            };
            self.registers = r;
        }
    }

    /// Sets the option `key` to `value`, which is `None` for a value that is
    /// no number. Only the window length is an option, under two names; it
    /// is stored no shorter than a thousandth of a second. Anything else
    /// changes nothing.
    pub fn set_config_value(&mut self, key: &str, value: Option<Binary64>)
        ensures
            final(self)@ == with_config(old(self)@, key@, value),
            valid(final(self)@),
    {
        proof {
            use_type_invariant(&*self);
            lemma_config_keeps_valid(self@, key@, value);
        }
        if same_text(key, WINDOW_OPTION) || same_text(key, WINDOW_LABEL) {
            if let Some(v) = value {
                let shortest = Binary64 { bits: SHORTEST_WINDOW_BITS };
                let mut r: Registers = self.registers;
                r.observation_time = if v.gt(shortest) {
                    v
                } else {
                    shortest
                };
                self.registers = r;
            }
        }
    }

    /// One tick that lasted `period_seconds`. A period that is not finite
    /// or not above zero changes nothing. Otherwise a window that has lasted
    /// longer than the window length rolls over; then the stored sample is
    /// folded into the running extrema, the thresholds are taken from the
    /// published extrema, the hysteresis step is made and the tick counters
    /// move on. `_tick` is the host's count of ticks, which plays no part.
    pub fn process_tick(&mut self, _tick: u64, period_seconds: Binary64)
        ensures
            final(self)@ == tick(old(self)@, period_seconds),
            valid(final(self)@),
    {
        proof {
            use_type_invariant(&*self);
            lemma_tick_keeps_valid(self@, period_seconds);
        }
        let zero = Binary64 { bits: ZERO_BITS };
        if !period_seconds.is_finite() || period_seconds.le(zero) {
            return;
        }
        let mut r: Registers = self.registers;
        let elapsed = Binary64::from_count(r.count).times(period_seconds);
        let rate = Binary64 { bits: ONE_BITS }.over(period_seconds);

        if elapsed.gt(r.observation_time) {
            r.min = r.temp_min;
            r.max = r.temp_max;
            if r.min.is_finite() && r.max.is_finite() {
                r.out_0 = r.min;
                r.out_1 = r.max;
            }
            r.temp_min = Binary64 { bits: HIGH_SENTINEL_BITS };
            r.temp_max = Binary64 { bits: LOW_SENTINEL_BITS };
            r.count = 0;

            if r.burst_counter > 0 {
                let onsets = Binary64::from_count(r.burst_counter as u64);
                r.sec_per_burst = Binary64::from_count(r.burst_dur_sum).over(onsets).over(rate);
            } else {
                r.sec_per_burst = zero;
            }
            r.out_2 = if r.sec_per_burst.is_finite() {
                r.sec_per_burst
            } else {
                zero
            };

            r.pts_counter = 0;
            r.burst_counter = 0;
            r.burst_dur_sum = 0;
            r.old_burst_time = 0;
        }

        if r.vm.lt(r.temp_min) {
            r.temp_min = r.vm;
        }
        if r.vm.gt(r.temp_max) {
            r.temp_max = r.vm;
        }
        r.range = r.max.minus(r.min);
        r.thresh_down = r.min.plus(r.range.times(Binary64 { bits: LOWER_FRACTION_BITS }));
        r.thresh_up = r.min.plus(r.range.times(Binary64 { bits: UPPER_FRACTION_BITS }));

        if !r.is_burst && r.vm.gt(r.thresh_up) {
            r.is_burst = true;
            r.burst_counter = if r.burst_counter < COUNTER_LIMIT as i64 {
                r.burst_counter + 1
            } else {
                r.burst_counter
            };
            r.burst_dur_sum = r.burst_dur_sum + (r.pts_counter - r.old_burst_time);
            r.old_burst_time = r.pts_counter;
        } else if r.is_burst && r.vm.lt(r.thresh_down) {
            r.is_burst = false;
        }

        r.pts_counter = bump(r.pts_counter);
        r.count = bump(r.count);
        self.registers = r;
    }

    /// What the output port `key` shows; zero for a name that is no port.
    pub fn get_output_value(&self, key: &str) -> (r: Binary64)
        ensures
            r == output_of(self@, key@),
    {
        if same_text(key, MIN_PORT) {
            self.registers.out_0
        } else if same_text(key, MAX_PORT) {
            self.registers.out_1
        } else if same_text(key, BURST_PORT) {
            self.registers.out_2
        } else {
            Binary64 { bits: ZERO_BITS }
        }
    }

    /// The diagnostic value `key`; `None` for a name that is none.
    pub fn get_internal_value(&self, key: &str) -> (r: Option<Binary64>)
        ensures
            r == internal_of(self@, key@),
    {
        if same_text(key, OUT_MIN) {
            Some(self.registers.out_0)
        } else if same_text(key, OUT_MAX) {
            Some(self.registers.out_1)
        } else if same_text(key, LAST_MIN) {
            Some(self.registers.min)
        } else if same_text(key, LAST_MAX) {
            Some(self.registers.max)
        } else if same_text(key, RUNNING_MIN) {
            Some(self.registers.temp_min)
        } else if same_text(key, RUNNING_MAX) {
            Some(self.registers.temp_max)
        } else {
            None
        }
    }
}

impl Default for BurstAnalyzer {
    /// A new analyzer.
    fn default() -> (r: Self)
        ensures
            r@ == initial_state(),
            valid(r@),
    {
        BurstAnalyzer::new()
    }
}

} // verus!
