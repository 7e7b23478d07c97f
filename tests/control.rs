use pwm_fan_control::config::Config;
use pwm_fan_control::fan_control::{
    normalize_duty, parse_temperature, FanControl, SensorError, DUTY_FULL,
};

fn standard() -> Config {
    Config::new(18, 1000, 25_000_000, 40_000, 5_000, 60_000, 1_000, 100_000, 0, 100_000).unwrap()
}

fn fraction(duty: u32) -> f64 {
    duty as f64 / DUTY_FULL as f64
}

#[test]
fn scenario_ramp_at_fifty_degrees() {
    let config = standard();
    let mut fan = FanControl::new(&config);
    let duty = fan.run("50000\n").unwrap();
    assert_eq!(duty, 50_500);
    assert!((fraction(duty) - 0.505).abs() < 1e-9);
    assert!(fan.is_active());
    assert_eq!(fan.temperature(), 50_000);
}

#[test]
fn scenario_maximum_above_max_temp() {
    let config = standard();
    let mut fan = FanControl::new(&config);
    let duty = fan.run("65000\n").unwrap();
    assert_eq!(duty, DUTY_FULL);
    assert!((fraction(duty) - 1.0).abs() < 1e-9);
}

#[test]
fn scenario_cold_stays_off() {
    let config = standard();
    let mut fan = FanControl::with_active(&config, false);
    let duty = fan.run("35000\n").unwrap();
    assert!(!fan.is_active());
    assert_eq!(duty, 0);
}

#[test]
fn scenario_rising_temperature_latches_on() {
    let config = standard();
    let mut fan = FanControl::with_active(&config, false);
    for reading in ["35000", "38000", "40000", "42000", "42500"] {
        assert_eq!(fan.run(reading), Ok(0));
        assert!(!fan.is_active(), "latched on too early at {}", reading);
    }
    let duty = fan.run("43000").unwrap();
    assert!(fan.is_active());
    assert_eq!(duty, 15_850);
    assert!((fraction(duty) - 0.1585).abs() < 1e-9);
}

#[test]
fn latch_sets_above_band_from_either_state() {
    let config = standard();
    for start in [false, true] {
        let mut fan = FanControl::with_active(&config, start);
        fan.run("42501").unwrap();
        assert!(fan.is_active());
    }
}

#[test]
fn latch_clears_below_band_from_either_state() {
    let config = standard();
    for start in [false, true] {
        let mut fan = FanControl::with_active(&config, start);
        assert_eq!(fan.run("37499"), Ok(0));
        assert!(!fan.is_active());
    }
}

#[test]
fn latch_kept_inside_band() {
    let config = standard();
    for reading in ["37500", "39000", "40000", "41000", "42500"] {
        for start in [false, true] {
            let mut fan = FanControl::with_active(&config, start);
            fan.run(reading).unwrap();
            assert_eq!(fan.is_active(), start);
        }
    }
}

#[test]
fn falling_temperature_keeps_fan_on_inside_band() {
    let config = standard();
    let mut fan = FanControl::new(&config);
    fan.run("45000").unwrap();
    // 38 degrees: below fan_low's point, the ramp goes under fan_low.
    let duty = fan.run("38000").unwrap();
    assert!(fan.is_active());
    assert_eq!(fan.handle_fan_speed(), 1_000 - 2_000 * 99_000 / 20_000);
    assert_eq!(duty, 0);
    let duty = fan.run("37000").unwrap();
    assert!(!fan.is_active());
    assert_eq!(duty, 0);
}

#[test]
fn ramp_formula_values() {
    let config = standard();
    let mut fan = FanControl::new(&config);
    assert_eq!(fan.run("40000"), Ok(1_000));
    assert_eq!(fan.run("59999"), Ok(1_000 + 19_999 * 99_000 / 20_000));
    assert_eq!(fan.run("55555"), Ok(1_000 + 15_555 * 99_000 / 20_000));
}

#[test]
fn ramp_below_zero_is_clamped() {
    let config =
        Config::new(18, 1000, 25_000_000, 40_000, 20_000, 60_000, 1_000, 100_000, 0, 100_000)
            .unwrap();
    let mut fan = FanControl::new(&config);
    // 31 degrees lies inside the 30..50 band: the latch stays set and the
    // ramp gives 1000 - 9000 * 4.95, below zero.
    let duty = fan.run("31000").unwrap();
    assert!(fan.is_active());
    assert_eq!(duty, 0);
    assert_eq!(fan.handle_fan_speed(), 1_000 - 44_550);
}

#[test]
fn max_temp_exactly_gives_fan_max() {
    let config =
        Config::new(18, 1000, 25_000_000, 40_000, 5_000, 60_000, 1_000, 80_000, 0, 90_000)
            .unwrap();
    let mut fan = FanControl::new(&config);
    assert_eq!(fan.run("60000"), Ok(90_000));
    assert_eq!(fan.run("70000"), Ok(90_000));
}

#[test]
fn inactive_gives_fan_off() {
    let config =
        Config::new(18, 1000, 25_000_000, 40_000, 5_000, 60_000, 1_000, 80_000, 7_000, 90_000)
            .unwrap();
    let mut fan = FanControl::with_active(&config, false);
    assert_eq!(fan.run("10000"), Ok(7_000));
    assert_eq!(fan.handle_fan_speed(), 7_000);
}

#[test]
fn inactive_inside_wide_band_above_max_gives_fan_off() {
    let config =
        Config::new(18, 1000, 25_000_000, 40_000, 50_000, 60_000, 1_000, 80_000, 0, 90_000)
            .unwrap();
    let mut fan = FanControl::with_active(&config, false);
    assert_eq!(fan.run("61000"), Ok(0));
    assert!(!fan.is_active());
}

#[test]
fn normalize_duty_clamps() {
    assert_eq!(normalize_duty(-1), 0);
    assert_eq!(normalize_duty(i128::MIN), 0);
    assert_eq!(normalize_duty(0), 0);
    assert_eq!(normalize_duty(42_424), 42_424);
    assert_eq!(normalize_duty(100_000), DUTY_FULL);
    assert_eq!(normalize_duty(100_001), DUTY_FULL);
    assert_eq!(normalize_duty(i128::MAX), DUTY_FULL);
}

#[test]
fn sensor_text_parsing() {
    assert_eq!(parse_temperature("48312\n"), Ok(48_312));
    assert_eq!(parse_temperature("48312\r\n"), Ok(48_312));
    assert_eq!(parse_temperature("48312"), Ok(48_312));
    assert_eq!(parse_temperature("-5000\n"), Ok(-5_000));
    assert_eq!(parse_temperature("+7\n\n"), Ok(7));
    assert_eq!(parse_temperature("9223372036854775807"), Ok(i64::MAX));
    assert_eq!(parse_temperature("-9223372036854775808"), Ok(i64::MIN));
    assert_eq!(parse_temperature("9223372036854775808"), Err(SensorError::NotANumber));
    assert_eq!(parse_temperature(""), Err(SensorError::NotANumber));
    assert_eq!(parse_temperature("\n"), Err(SensorError::NotANumber));
    assert_eq!(parse_temperature("-"), Err(SensorError::NotANumber));
    assert_eq!(parse_temperature("48.5"), Err(SensorError::NotANumber));
    assert_eq!(parse_temperature(" 48"), Err(SensorError::NotANumber));
    assert_eq!(parse_temperature("48\nx"), Err(SensorError::NotANumber));
}

#[test]
fn bad_reading_leaves_state_unchanged() {
    let config = standard();
    let mut fan = FanControl::with_active(&config, false);
    fan.run("35000").unwrap();
    assert_eq!(fan.run("hot"), Err(SensorError::NotANumber));
    assert_eq!(fan.temperature(), 35_000);
    assert!(!fan.is_active());
}

#[test]
fn new_controller_starts_latched() {
    let config = standard();
    let fan = FanControl::new(&config);
    assert!(fan.is_active());
    assert_eq!(fan.temperature(), 0);
    assert_eq!(*fan.config(), config);
}
