use pwm_fan_control::config::{
    validate_between_0f_100f, validate_between_21000f_28000f, validate_float, validate_integer,
    validate_pwm_pin, Config, ConfigError,
};
use pwm_fan_control::decimal::{parse_thousandths, parse_unsigned, NumberError};

#[test]
fn integer_validation() {
    assert!(validate_integer("1000").is_ok());
    assert!(validate_integer("0").is_ok());
    assert!(validate_integer("+5").is_ok());
    assert!(validate_integer("18446744073709551615").is_ok());
    assert_eq!(validate_integer("18446744073709551616"), Err("The value must be an integer".to_owned()));
    let refused = Err("The value must be an integer".to_owned());
    for v in ["-1", "1.5", "", "+", "12a", "abc"] {
        assert_eq!(validate_integer(v), refused);
    }
}

#[test]
fn pin_validation() {
    assert!(validate_pwm_pin("18").is_ok());
    assert!(validate_pwm_pin("19").is_ok());
    assert!(validate_pwm_pin("018").is_ok());
    assert_eq!(
        validate_pwm_pin("12"),
        Err("The hardware PWM pin must be one of BCM GPIO 18 or 19".to_owned())
    );
    let refused = Err("The hardware PWM pin must be one of BCM GPIO 18 or 19".to_owned());
    for v in ["17", "20", "274", "-18", "abc", "pin"] {
        assert_eq!(validate_pwm_pin(v), refused);
    }
}

#[test]
fn float_validation() {
    assert!(validate_float("40.0").is_ok());
    assert!(validate_float("-3.5").is_ok());
    assert!(validate_float("5").is_ok());
    assert!(validate_float("5.").is_ok());
    assert!(validate_float(".25").is_ok());
    assert!(validate_float("0.125").is_ok());
    assert!(validate_float("0.1255").is_ok());
    assert!(validate_float("1e3").is_ok());
    assert!(validate_float("2.5E-3").is_ok());
    assert!(validate_float("1e30").is_ok());
    let refused = Err("The value must be a floating point number with the decimal point".to_owned());
    assert_eq!(validate_float("."), refused);
    assert_eq!(validate_float("-"), refused);
    assert_eq!(validate_float(""), refused);
    assert_eq!(validate_float("1.2.3"), refused);
    assert_eq!(validate_float("abc"), refused);
    assert_eq!(validate_float("1e"), refused);
    assert_eq!(validate_float("e5"), refused);
    assert_eq!(validate_float("NaN"), refused);
    assert_eq!(validate_float("inf"), refused);
}

#[test]
fn percent_validation() {
    assert!(validate_between_0f_100f("0.0").is_ok());
    assert!(validate_between_0f_100f("1.0").is_ok());
    assert!(validate_between_0f_100f("100.0").is_ok());
    assert_eq!(
        validate_between_0f_100f("100.001"),
        Err("The value must be between 0.0 and 100.0".to_owned())
    );
    assert!(validate_between_0f_100f("50.0001").is_ok());
    assert!(validate_between_0f_100f("1e2").is_ok());
    let refused = Err("The value must be between 0.0 and 100.0".to_owned());
    assert_eq!(validate_between_0f_100f("-0.5"), refused);
    assert_eq!(validate_between_0f_100f("-5.0"), refused);
    assert_eq!(validate_between_0f_100f("150.0"), refused);
    assert_eq!(validate_between_0f_100f("fast"), refused);
    assert_eq!(validate_between_0f_100f("NaN"), refused);
    assert_eq!(validate_between_0f_100f("1e30"), refused);
}

#[test]
fn frequency_validation() {
    assert!(validate_between_21000f_28000f("25000.0").is_ok());
    assert!(validate_between_21000f_28000f("21000").is_ok());
    assert!(validate_between_21000f_28000f("28000.0").is_ok());
    assert!(validate_between_21000f_28000f("20999.999").is_err());
    assert!(validate_between_21000f_28000f("25000.0001").is_ok());
    assert!(validate_between_21000f_28000f("2.5e4").is_ok());
    let refused = Err("The value must be between 21000.0 and 28000.0".to_owned());
    assert_eq!(validate_between_21000f_28000f("28000.001"), refused);
    assert_eq!(validate_between_21000f_28000f("1000.0"), refused);
    assert_eq!(validate_between_21000f_28000f("30000.0"), refused);
    assert_eq!(validate_between_21000f_28000f("x"), refused);
    assert_eq!(validate_between_21000f_28000f("xyz"), refused);
    assert_eq!(validate_between_21000f_28000f("NaN"), refused);
}

#[test]
fn thousandths_parsing() {
    assert_eq!(parse_thousandths("40.0"), Ok(40_000));
    assert_eq!(parse_thousandths("40.5"), Ok(40_500));
    assert_eq!(parse_thousandths("-.25"), Ok(-250));
    assert_eq!(parse_thousandths("+1.005"), Ok(1_005));
    assert_eq!(parse_thousandths("25000"), Ok(25_000_000));
    assert_eq!(parse_thousandths("9223372036854775.807"), Ok(i64::MAX));
    assert_eq!(parse_thousandths("-9223372036854775.808"), Ok(i64::MIN));
    assert_eq!(parse_thousandths("9223372036854775.808"), Err(NumberError::OutOfRange));
    assert_eq!(parse_thousandths("1e30"), Err(NumberError::OutOfRange));
    assert_eq!(parse_thousandths("1e99999999999999999999999999999999"), Err(NumberError::OutOfRange));
    assert_eq!(parse_thousandths("1e-99999999999999999999999999999999"), Ok(0));
    assert_eq!(parse_thousandths("0e99999999999999999999999999999999"), Ok(0));
    assert_eq!(parse_thousandths("abc"), Err(NumberError::Malformed));
    assert_eq!(parse_thousandths("1e+"), Err(NumberError::Malformed));
}

#[test]
fn thousandths_rounding_and_exponents() {
    assert_eq!(parse_thousandths("0.0125"), Ok(13));
    assert_eq!(parse_thousandths("0.0124999"), Ok(12));
    assert_eq!(parse_thousandths("-0.0005"), Ok(-1));
    assert_eq!(parse_thousandths("-0.0004"), Ok(0));
    assert_eq!(parse_thousandths("50.0001"), Ok(50_000));
    assert_eq!(parse_thousandths("99.9996"), Ok(100_000));
    assert_eq!(parse_thousandths("1e3"), Ok(1_000_000));
    assert_eq!(parse_thousandths("1.e2"), Ok(100_000));
    assert_eq!(parse_thousandths("1.5e-2"), Ok(15));
    assert_eq!(parse_thousandths("2.5E4"), Ok(25_000_000));
    assert_eq!(parse_thousandths("4e-4"), Ok(0));
    assert_eq!(parse_thousandths("123456789012345678901234567890e-30"), Ok(123));
    assert_eq!(parse_thousandths("0.00000000000000000000000000000000000009e38"), Ok(9_000));
}

#[test]
fn unsigned_parsing() {
    assert_eq!(parse_unsigned("1000"), Some(1000));
    assert_eq!(parse_unsigned("+0"), Some(0));
    assert_eq!(parse_unsigned("99999999999999999999999"), None);
    assert_eq!(parse_unsigned("-0"), None);
}

#[test]
fn config_accepts_defaults() {
    let config = Config::new(18, 1000, 25_000_000, 40_000, 5_000, 60_000, 1_000, 100_000, 0, 100_000);
    assert_eq!(config, Ok(Config::default()));
}

#[test]
fn config_errors() {
    assert_eq!(
        Config::new(12, 1000, 25_000_000, 40_000, 5_000, 60_000, 1_000, 100_000, 0, 100_000),
        Err(ConfigError::InvalidPin)
    );
    assert_eq!(
        Config::new(19, 1000, 30_000_000, 40_000, 5_000, 60_000, 1_000, 100_000, 0, 100_000),
        Err(ConfigError::FrequencyOutOfRange)
    );
    assert_eq!(
        Config::new(19, 1000, 25_000_000, 40_000, 5_000, 60_000, 1_000, 100_001, 0, 100_000),
        Err(ConfigError::PercentOutOfRange)
    );
    assert_eq!(
        Config::new(19, 1000, 25_000_000, 40_000, 5_000, 60_000, 1_000, 100_000, -1, 100_000),
        Err(ConfigError::PercentOutOfRange)
    );
    assert_eq!(
        Config::new(19, 1000, 25_000_000, 60_000, 5_000, 60_000, 1_000, 100_000, 0, 100_000),
        Err(ConfigError::TemperatureOrder)
    );
    assert_eq!(
        Config::new(19, 1000, 25_000_000, 40_000, -1, 60_000, 1_000, 100_000, 0, 100_000),
        Err(ConfigError::NegativeDeadBand)
    );
    // The first rule broken is the one reported.
    assert_eq!(
        Config::new(7, 1000, 1, 60_000, 5_000, 40_000, -1, 100_000, 0, 100_000),
        Err(ConfigError::InvalidPin)
    );
}
