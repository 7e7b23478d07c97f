//! The operating parameters of the controller and their checks.
//!
//! Temperatures are counted in thousandths of a degree Celsius, duty-cycle
//! percentages in thousandths of a percent, and the PWM frequency in
//! thousandths of a hertz, so that every parameter is an exact integer.
use vstd::prelude::*;
use vstd::string::StringSliceAdditionalSpecFns;

use crate::decimal::{NumberError, parse_thousandths, parse_unsigned, thousandths_value, unsigned_value};

verus! {

/// The two BCM GPIO pins that carry hardware PWM.
pub const PWM_PIN_A: u8 = 18;

pub const PWM_PIN_B: u8 = 19;

/// 100 percent, in thousandths of a percent.
pub const PERCENT_FULL: i64 = 100_000;

/// The fan's rated control frequency band, in thousandths of a hertz.
pub const FREQ_LOWEST: i64 = 21_000_000;

pub const FREQ_HIGHEST: i64 = 28_000_000;

pub open spec fn valid_pin(p: int) -> bool {
    p == PWM_PIN_A || p == PWM_PIN_B
}

pub open spec fn valid_percent(v: int) -> bool {
    0 <= v <= PERCENT_FULL
}

pub open spec fn valid_frequency(v: int) -> bool {
    FREQ_LOWEST <= v <= FREQ_HIGHEST
}

/// Validated operating parameters; created once, never changed.
#[derive(Clone, Copy, Debug, PartialEq, Eq)]
pub struct Config {
    /// BCM GPIO pin of the hardware PWM channel.
    pub fan_pin: u8,
    /// Delay between two control cycles, in milliseconds.
    pub wait_time: u64,
    /// PWM carrier frequency, in thousandths of a hertz.
    pub pwm_freq: i64,
    /// Lower temperature threshold, in thousandths of a degree Celsius.
    pub min_temp: i64,
    /// Width of the hysteresis band centred on `min_temp`, same unit.
    pub min_temp_dead_band: i64,
    /// Upper temperature threshold, same unit.
    pub max_temp: i64,
    /// Duty at `min_temp`, in thousandths of a percent.
    pub fan_low: i64,
    /// Duty approached at `max_temp`, same unit.
    pub fan_high: i64,
    /// Duty while the fan is held off, same unit.
    pub fan_off: i64,
    /// Duty from `max_temp` up, same unit.
    pub fan_max: i64,
}

/// Why a set of parameters was refused.
#[derive(Clone, Copy, Debug, PartialEq, Eq)]
pub enum ConfigError {
    /// The pin is not one of the hardware PWM pins.
    InvalidPin,
    /// The frequency lies outside the fan's rated band.
    FrequencyOutOfRange,
    /// A duty-cycle percentage lies outside 0 to 100.
    PercentOutOfRange,
    /// `min_temp` is not below `max_temp`.
    TemperatureOrder,
    /// The dead band has a negative width.
    NegativeDeadBand,
}

impl Config {
    pub open spec fn wf(&self) -> bool {
        &&& valid_pin(self.fan_pin as int)
        &&& valid_frequency(self.pwm_freq as int)
        &&& self.min_temp < self.max_temp
        &&& self.min_temp_dead_band >= 0
        &&& valid_percent(self.fan_low as int)
        &&& valid_percent(self.fan_high as int)
        &&& valid_percent(self.fan_off as int)
        &&& valid_percent(self.fan_max as int)
    }

    /// Checks the parameters; the first rule broken, in the order of
    /// `ConfigError`, is the one reported.
    pub fn new(
        fan_pin: u8,
        wait_time: u64,
        pwm_freq: i64,
        min_temp: i64,
        min_temp_dead_band: i64,
        max_temp: i64,
        fan_low: i64,
        fan_high: i64,
        fan_off: i64,
        fan_max: i64,
    ) -> (r: Result<Config, ConfigError>)
        ensures
            r == (if !valid_pin(fan_pin as int) {
                Err(ConfigError::InvalidPin)
            } else if !valid_frequency(pwm_freq as int) {
                Err(ConfigError::FrequencyOutOfRange)
            } else if !(valid_percent(fan_low as int) && valid_percent(fan_high as int)
                && valid_percent(fan_off as int) && valid_percent(fan_max as int)) {
                Err(ConfigError::PercentOutOfRange)
            } else if min_temp >= max_temp {
                Err(ConfigError::TemperatureOrder)
            } else if min_temp_dead_band < 0 {
                Err(ConfigError::NegativeDeadBand)
            } else {
                Ok(
                    Config {
                        fan_pin,
                        wait_time,
                        pwm_freq,
                        min_temp,
                        min_temp_dead_band,
                        max_temp,
                        fan_low,
                        fan_high,
                        fan_off,
                        fan_max,
                    },
                )
            }),
            r matches Ok(c) ==> c.wf(),
    {
        if fan_pin != PWM_PIN_A && fan_pin != PWM_PIN_B {
            return Err(ConfigError::InvalidPin);
        }
        if pwm_freq < FREQ_LOWEST || pwm_freq > FREQ_HIGHEST {
            return Err(ConfigError::FrequencyOutOfRange);
        }
        if !(percent_in_range(fan_low) && percent_in_range(fan_high) && percent_in_range(fan_off)
            && percent_in_range(fan_max)) {
            return Err(ConfigError::PercentOutOfRange);
        }
        if min_temp >= max_temp {
            return Err(ConfigError::TemperatureOrder);
        }
        if min_temp_dead_band < 0 {
            return Err(ConfigError::NegativeDeadBand);
        }
        Ok(
            Config {
                fan_pin,
                wait_time,
                pwm_freq,
                min_temp,
                min_temp_dead_band,
                max_temp,
                fan_low,
                fan_high,
                fan_off,
                fan_max,
            },
        )
    }
}

/// The defaults: pin 18, one second between cycles, 25 kHz, a 40 to 60
/// degree range with a 5 degree band, and duties of 1, 100, 0 and 100
/// percent.
impl Default for Config {
    fn default() -> (r: Config)
        ensures
            r == (Config {
                fan_pin: 18,
                wait_time: 1000,
                pwm_freq: 25_000_000,
                min_temp: 40_000,
                min_temp_dead_band: 5_000,
                max_temp: 60_000,
                fan_low: 1_000,
                fan_high: 100_000,
                fan_off: 0,
                fan_max: 100_000,
            }),
            r.wf(),
    {
        Config {
            fan_pin: 18,
            wait_time: 1000,
            pwm_freq: 25_000_000,
            min_temp: 40_000,
            min_temp_dead_band: 5_000,
            max_temp: 60_000,
            fan_low: 1_000,
            fan_high: 100_000,
            fan_off: 0,
            fan_max: 100_000,
        }
    }
}

fn percent_in_range(v: i64) -> (r: bool)
    ensures
        r == valid_percent(v as int),
{
    0 <= v && v <= PERCENT_FULL
}

/// Accepts an unsigned integer that fits in 64 bits.
pub fn validate_integer(v: &str) -> (r: Result<(), String>)
    ensures
        r is Ok <==> (match unsigned_value(v.spec_bytes()) {
            Some(n) => n <= u64::MAX,
            None => false,
        }),
        r matches Err(m) ==> m@ == "The value must be an integer"@,
{
    match parse_unsigned(v) {
        Some(_) => Ok(()),
        None => Err("The value must be an integer".to_owned()),
    }
}

/// Accepts the number of one of the two hardware PWM pins.
pub fn validate_pwm_pin(v: &str) -> (r: Result<(), String>)
    ensures
        r is Ok <==> (match unsigned_value(v.spec_bytes()) {
            Some(n) => valid_pin(n as int),
            None => false,
        }),
        r matches Err(m) ==> m@ == "The hardware PWM pin must be one of BCM GPIO 18 or 19"@,
{
    match parse_unsigned(v) {
        Some(n) => if n == PWM_PIN_A as u64 || n == PWM_PIN_B as u64 {
            Ok(())
        } else {
            Err("The hardware PWM pin must be one of BCM GPIO 18 or 19".to_owned())
        },
        None => Err("The hardware PWM pin must be one of BCM GPIO 18 or 19".to_owned()),
    }
}

/// Accepts a decimal number in the form that `str::parse::<f64>` reads,
/// apart from `inf`, `infinity` and `nan`.
pub fn validate_float(v: &str) -> (r: Result<(), String>)
    ensures
        r is Ok <==> thousandths_value(v.spec_bytes()) is Some,
        r matches Err(m) ==> m@ == "The value must be a floating point number with the decimal point"@,
{
    match parse_thousandths(v) {
        Err(NumberError::Malformed) => Err(
            "The value must be a floating point number with the decimal point".to_owned(),
        ),
        _ => Ok(()),
    }
}

/// Accepts a percentage from 0.0 to 100.0, once rounded to the nearest
/// thousandth.
pub fn validate_between_0f_100f(v: &str) -> (r: Result<(), String>)
    ensures
        r is Ok <==> (match thousandths_value(v.spec_bytes()) {
            Some(x) => valid_percent(x),
            None => false,
        }),
        r matches Err(m) ==> m@ == "The value must be between 0.0 and 100.0"@,
{
    match parse_thousandths(v) {
        Ok(x) => if percent_in_range(x) {
            Ok(())
        } else {
            Err("The value must be between 0.0 and 100.0".to_owned())
        },
        Err(_) => Err("The value must be between 0.0 and 100.0".to_owned()),
    }
}

/// Accepts a frequency from 21000.0 to 28000.0 Hz, once rounded to the
/// nearest thousandth.
pub fn validate_between_21000f_28000f(v: &str) -> (r: Result<(), String>)
    ensures
        r is Ok <==> (match thousandths_value(v.spec_bytes()) {
            Some(x) => valid_frequency(x),
            None => false,
        }),
        r matches Err(m) ==> m@ == "The value must be between 21000.0 and 28000.0"@,
{
    match parse_thousandths(v) {
        Ok(x) => if FREQ_LOWEST <= x && x <= FREQ_HIGHEST {
            Ok(())
        } else {
            Err("The value must be between 21000.0 and 28000.0".to_owned())
        },
        Err(_) => Err("The value must be between 21000.0 and 28000.0".to_owned()),
    }
}

} // verus!
