use rthybrid_burst_analysis::analyzer::BurstAnalyzer;
use rthybrid_burst_analysis::binary64::Binary64;

/// The analyzer written with the machine's own floating point, counters
/// and all, to hold the library against.
struct Machine {
    vm: f64,
    out_0: f64,
    out_1: f64,
    out_2: f64,
    observation_time: f64,
    min: f64,
    max: f64,
    temp_min: f64,
    temp_max: f64,
    count: f64,
    pts_counter: f64,
    burst_counter: f64,
    is_burst: bool,
    burst_dur_sum: f64,
    old_burst_time: f64,
}

impl Machine {
    fn new() -> Machine {
        Machine {
            vm: 0.0,
            out_0: 0.0,
            out_1: 0.0,
            out_2: 0.0,
            observation_time: 5.0,
            min: 0.0,
            max: 0.0,
            temp_min: 999_999.0,
            temp_max: -999_999.0,
            count: 0.0,
            pts_counter: 0.0,
            burst_counter: -1.0,
            is_burst: true,
            burst_dur_sum: 0.0,
            old_burst_time: 0.0,
        }
    }

    fn input(&mut self, v: f64) {
        self.vm = if v.is_finite() { v } else { 0.0 };
    }

    fn window(&mut self, v: f64) {
        self.observation_time = if v > 0.001 { v } else { 0.001 };
    }

    fn tick(&mut self, period: f64) {
        if !period.is_finite() || period <= 0.0 {
            return;
        }
        let time = self.count * period;
        let rate = 1.0 / period;
        if time > self.observation_time {
            self.min = self.temp_min;
            self.max = self.temp_max;
            if self.min.is_finite() && self.max.is_finite() {
                self.out_0 = self.min;
                self.out_1 = self.max;
            }
            self.temp_min = 999_999.0;
            self.temp_max = -999_999.0;
            self.count = 0.0;
            let mean = if self.burst_counter > 0.0 {
                (self.burst_dur_sum / self.burst_counter) / rate
            } else {
                0.0
            };
            self.out_2 = if mean.is_finite() { mean } else { 0.0 };
            self.pts_counter = 0.0;
            self.burst_counter = 0.0;
            self.burst_dur_sum = 0.0;
            self.old_burst_time = 0.0;
        }
        if self.vm < self.temp_min {
            self.temp_min = self.vm;
        }
        if self.vm > self.temp_max {
            self.temp_max = self.vm;
        }
        let range = self.max - self.min;
        let down = self.min + range * 0.1;
        let up = self.min + range * 0.9;
        if !self.is_burst && self.vm > up {
            self.is_burst = true;
            self.burst_counter += 1.0;
            self.burst_dur_sum += self.pts_counter - self.old_burst_time;
            self.old_burst_time = self.pts_counter;
        } else if self.is_burst && self.vm < down {
            self.is_burst = false;
        }
        self.pts_counter += 1.0;
        self.count += 1.0;
    }

    fn seen(&self) -> Vec<u64> {
        vec![
            self.out_0.to_bits(),
            self.out_1.to_bits(),
            self.out_2.to_bits(),
            self.out_0.to_bits(),
            self.out_1.to_bits(),
            self.min.to_bits(),
            self.max.to_bits(),
            self.temp_min.to_bits(),
            self.temp_max.to_bits(),
        ]
    }
}

fn seen(analyzer: &BurstAnalyzer) -> Vec<u64> {
    let mut all = Vec::new();
    for key in ["Min (V)", "Max (V)", "Burst duration (s)"].iter() {
        all.push(analyzer.get_output_value(key).to_bits());
    }
    for key in ["out_min", "out_max", "min", "max", "temp_min", "temp_max"].iter() {
        all.push(analyzer.get_internal_value(key).unwrap().to_bits());
    }
    all
}

struct Source {
    state: u64,
}

impl Source {
    fn next(&mut self) -> u64 {
        self.state ^= self.state << 13;
        self.state ^= self.state >> 7;
        self.state ^= self.state << 17;
        self.state
    }

    fn unit(&mut self) -> f64 {
        (self.next() >> 11) as f64 / (1u64 << 53) as f64
    }

    fn pick(&mut self, from: &[f64]) -> f64 {
        from[(self.next() % from.len() as u64) as usize]
    }
}

/// Runs one analyzer and one machine through the same steps and compares
/// everything that can be read after each of them.
fn hold_against_machine(seed: u64, steps: u64, scale: f64, periods: &[f64], windows: &[f64]) {
    let mut source = Source { state: seed };
    let mut analyzer = BurstAnalyzer::new();
    let mut machine = Machine::new();
    for step in 0..steps {
        match source.next() % 16 {
            0 => {
                let window = source.pick(windows);
                analyzer.set_config_value("observation_time", Some(Binary64::from_bits(window.to_bits())));
                machine.window(window);
            }
            1 => {
                let bad = source.pick(&[f64::NAN, f64::INFINITY, f64::NEG_INFINITY]);
                analyzer.set_input_value("Vm (V)", Binary64::from_bits(bad.to_bits()));
                machine.input(bad);
            }
            2 => {
                let period = source.pick(&[0.0, -1.0, f64::NAN, f64::INFINITY]);
                analyzer.process_tick(step, Binary64::from_bits(period.to_bits()));
                machine.tick(period);
            }
            _ => {
                let wave = (step as f64 * 0.37).sin() * scale;
                let sample = wave + (source.unit() - 0.5) * scale * 0.2;
                let period = source.pick(periods);
                analyzer.set_input_value("Vm (V)", Binary64::from_bits(sample.to_bits()));
                machine.input(sample);
                analyzer.process_tick(step, Binary64::from_bits(period.to_bits()));
                machine.tick(period);
            }
        }
        assert_eq!(seen(&analyzer), machine.seen(), "seed {:#x}, step {}", seed, step);
        let low = analyzer.get_output_value("Min (V)");
        let high = analyzer.get_output_value("Max (V)");
        assert!(low.le(high), "seed {:#x}, step {}", seed, step);
    }
}

#[test]
fn agrees_with_the_machine_on_a_steady_clock() {
    hold_against_machine(0x9E37_79B9_7F4A_7C15, 20_000, 0.07, &[0.001], &[0.05, 0.5, 0.003]);
}

#[test]
fn agrees_with_the_machine_on_an_uneven_clock() {
    hold_against_machine(
        0xD1B5_4A32_D192_ED03,
        20_000,
        12.5,
        &[0.001, 0.0013, 0.1, 0.000_25, 3.0e-5],
        &[0.01, 0.1, 0.0, -1.0, 1.0, f64::NAN],
    );
}

#[test]
fn agrees_with_the_machine_on_extreme_magnitudes() {
    hold_against_machine(
        0x2545_F491_4F6C_DD1D,
        20_000,
        1.0e308,
        &[1.0e-320, 4.9e-324, 1.0e300, 1.0, f64::MAX, 2.2e-308],
        &[1.0e-310, 1.0e305, f64::INFINITY, 0.001, 5.0],
    );
}

#[test]
fn agrees_with_the_machine_on_tiny_magnitudes() {
    hold_against_machine(
        0x1234_5678_9ABC_DEF1,
        20_000,
        3.0e-310,
        &[0.5, 0.25, 1.0e-3],
        &[1.0, 2.0, 0.75],
    );
}

#[test]
fn agrees_with_the_machine_from_many_seeds() {
    let mut seeds = Source { state: 0x0F0F_1234_ABCD_4321 };
    for _ in 0..40 {
        let seed = seeds.next() | 1;
        hold_against_machine(seed, 500, 80.0, &[0.01, 0.02, 0.005], &[0.05, 0.11, 0.2]);
    }
}
