use rthybrid_burst_analysis::analyzer::BurstAnalyzer;
use rthybrid_burst_analysis::binary64::Binary64;
use serde_json::Value;

fn number(value: &Value) -> Option<Binary64> {
    value.as_f64().map(|x| Binary64::from_bits(x.to_bits()))
}

fn maximum_after(analyzer: &mut BurstAnalyzer, ticks: u64, period: f64) -> f64 {
    for tick in 0..ticks {
        analyzer.set_input_value("Vm (V)", Binary64::from_bits((1.0 + tick as f64).to_bits()));
        analyzer.process_tick(tick, Binary64::from_bits(period.to_bits()));
    }
    f64::from_bits(analyzer.get_output_value("Max (V)").to_bits())
}

#[test]
fn a_json_float_sets_the_window() {
    let mut analyzer = BurstAnalyzer::new();
    analyzer.set_config_value("observation_time", number(&Value::from(0.25)));
    // 0.25 s at 0.1 s per tick: over with the fourth tick (3 * 0.1 > 0.25).
    assert_eq!(maximum_after(&mut analyzer, 3, 0.1), 0.0);
    let mut analyzer = BurstAnalyzer::new();
    analyzer.set_config_value("observation_time", number(&Value::from(0.25)));
    assert_eq!(maximum_after(&mut analyzer, 4, 0.1), 3.0);
}

#[test]
fn a_json_integer_sets_the_window() {
    let mut analyzer = BurstAnalyzer::new();
    analyzer.set_config_value("Observation time (s)", number(&Value::from(2u64)));
    // 2 s at 1 s per tick: over with the fourth tick (3 * 1 > 2).
    assert_eq!(maximum_after(&mut analyzer, 3, 1.0), 0.0);
    let mut analyzer = BurstAnalyzer::new();
    analyzer.set_config_value("Observation time (s)", number(&Value::from(2u64)));
    assert_eq!(maximum_after(&mut analyzer, 4, 1.0), 3.0);
}

#[test]
fn a_negative_json_integer_is_raised_to_the_floor() {
    let mut analyzer = BurstAnalyzer::new();
    analyzer.set_config_value("observation_time", number(&Value::from(-7i64)));
    assert_eq!(maximum_after(&mut analyzer, 3, 0.0005), 0.0);
    let mut analyzer = BurstAnalyzer::new();
    analyzer.set_config_value("observation_time", number(&Value::from(-7i64)));
    assert_eq!(maximum_after(&mut analyzer, 4, 0.0005), 3.0);
}

#[test]
fn json_values_that_are_no_numbers_set_nothing() {
    let others = [
        Value::Null,
        Value::Bool(true),
        Value::String(String::from("0.25")),
        Value::Array(vec![Value::from(0.25)]),
    ];
    for other in others.iter() {
        let mut analyzer = BurstAnalyzer::new();
        analyzer.set_config_value("observation_time", number(other));
        // Still five seconds: at one second per tick, over with the seventh tick.
        assert_eq!(maximum_after(&mut analyzer, 6, 1.0), 0.0);
        let mut analyzer = BurstAnalyzer::new();
        analyzer.set_config_value("observation_time", number(other));
        assert_eq!(maximum_after(&mut analyzer, 7, 1.0), 6.0);
    }
}
