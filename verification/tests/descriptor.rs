use rthybrid_burst_analysis::analyzer::BurstAnalyzer;
use rthybrid_burst_analysis::binary64::Binary64;
use rthybrid_burst_analysis::descriptor::behavior;
use rthybrid_burst_analysis::model::{
    BURST_PORT, DEFAULT_WINDOW_BITS, DISPLAY_NAME, HIGH_SENTINEL_BITS, INPUT_PORT, KIND,
    LAST_MAX, LAST_MIN, LOWER_FRACTION_BITS, LOW_SENTINEL_BITS, MAX_PORT, MIN_PORT, ONE_BITS,
    OUT_MAX, OUT_MIN, RUNNING_MAX, RUNNING_MIN, SHORTEST_WINDOW_BITS, UPPER_FRACTION_BITS,
    WINDOW_LABEL, WINDOW_OPTION, ZERO_BITS,
};
use rthybrid_burst_analysis::text::same_text;

#[test]
fn behavior_declares_what_a_host_may_do() {
    let declared = behavior();
    assert!(declared.supports_start_stop);
    assert!(declared.supports_restart);
    assert!(!declared.supports_apply);
    assert!(!declared.extendable_inputs);
    assert!(!declared.loads_started);
    assert!(!declared.external_window);
    assert!(declared.starts_expanded);
}

#[test]
fn names_are_the_declared_ones() {
    assert_eq!(DISPLAY_NAME, "RTHybrid Burst Analysis");
    assert_eq!(KIND, "rthybrid_burst_analysis");
    assert_eq!(INPUT_PORT, "Vm (V)");
    assert_eq!([MIN_PORT, MAX_PORT, BURST_PORT], ["Min (V)", "Max (V)", "Burst duration (s)"]);
    assert_eq!(
        [OUT_MIN, OUT_MAX, LAST_MIN, LAST_MAX, RUNNING_MIN, RUNNING_MAX],
        ["out_min", "out_max", "min", "max", "temp_min", "temp_max"]
    );
    assert_eq!(WINDOW_OPTION, "observation_time");
    assert_eq!(WINDOW_LABEL, "Observation time (s)");
}

#[test]
fn every_declared_name_is_served() {
    let mut analyzer = BurstAnalyzer::new();
    analyzer.set_config_value(WINDOW_LABEL, Some(Binary64::from_bits(1.0f64.to_bits())));
    for (tick, sample) in [2.0f64, 6.0, 4.0, 3.0].iter().enumerate() {
        analyzer.set_input_value(INPUT_PORT, Binary64::from_bits(sample.to_bits()));
        analyzer.process_tick(tick as u64, Binary64::from_bits(0.5f64.to_bits()));
    }
    let read = |key: &str| f64::from_bits(analyzer.get_output_value(key).to_bits());
    assert_eq!(read(MIN_PORT), 2.0);
    assert_eq!(read(MAX_PORT), 6.0);
    assert_eq!(read(BURST_PORT), 0.0);
    let peek = |key: &str| analyzer.get_internal_value(key).map(|x| f64::from_bits(x.to_bits()));
    assert_eq!(peek(OUT_MIN), Some(2.0));
    assert_eq!(peek(OUT_MAX), Some(6.0));
    assert_eq!(peek(LAST_MIN), Some(2.0));
    assert_eq!(peek(LAST_MAX), Some(6.0));
    assert_eq!(peek(RUNNING_MIN), Some(3.0));
    assert_eq!(peek(RUNNING_MAX), Some(3.0));
}

#[test]
fn constants_encode_their_numbers() {
    assert_eq!(ZERO_BITS, 0.0f64.to_bits());
    assert_eq!(ONE_BITS, 1.0f64.to_bits());
    assert_eq!(LOWER_FRACTION_BITS, 0.1f64.to_bits());
    assert_eq!(UPPER_FRACTION_BITS, 0.9f64.to_bits());
    assert_eq!(SHORTEST_WINDOW_BITS, 0.001f64.to_bits());
    assert_eq!(DEFAULT_WINDOW_BITS, 5.0f64.to_bits());
    assert_eq!(HIGH_SENTINEL_BITS, 999_999.0f64.to_bits());
    assert_eq!(LOW_SENTINEL_BITS, (-999_999.0f64).to_bits());
}

#[test]
fn same_text_compares_character_by_character() {
    assert!(same_text("", ""));
    assert!(same_text("Vm (V)", "Vm (V)"));
    assert!(!same_text("Vm (V)", "Vm (v)"));
    assert!(!same_text("Vm (V)", "Vm (V) "));
    assert!(!same_text("min", "max"));
    assert!(!same_text("min", ""));
    assert!(same_text("Spannung (µV)", "Spannung (µV)"));
    assert!(!same_text("Spannung (µV)", "Spannung (uV)"));
}
