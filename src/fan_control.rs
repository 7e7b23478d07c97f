//! The per-cycle control step: read the sensor text, update the hysteresis
//! latch, map temperature to a duty cycle, and clamp it to a fraction.
use vstd::prelude::*;
use vstd::string::StringSliceAdditionalSpecFns;

use vstd::arithmetic::div_mod::{lemma_fundamental_div_mod, lemma_fundamental_div_mod_converse};

use crate::config::{Config, PERCENT_FULL};
use crate::decimal::{fits_i64, integer_value, line_end, parse_integer, trim_line_end};

verus! {

/// A duty fraction of 1.0, in hundred-thousandths. A duty percentage in
/// thousandths of a percent, once clamped to 0..=100 percent, is the same
/// number as the fraction in hundred-thousandths.
pub const DUTY_FULL: u32 = 100_000;

/// Why a sensor reading was refused.
#[derive(Clone, Copy, Debug, PartialEq, Eq)]
pub enum SensorError {
    /// The reading is not an integer number of thousandths of a degree.
    NotANumber,
}

/// The temperature that a sensor text gives, in thousandths of a degree:
/// one integer, optionally followed by line-end bytes.
pub open spec fn temperature_of(s: Seq<u8>) -> Option<int> {
    match integer_value(trim_line_end(s)) {
        Some(v) => if fits_i64(v) {
            Some(v)
        } else {
            None
        },
        None => None,
    }
}

/// The latch after a reading of `t`: set above the dead band, cleared below
/// it, kept inside it (both edges included). Compared at twice the scale so
/// that half the band is exact.
pub open spec fn next_active(c: Config, t: int, active: bool) -> bool {
    if 2 * t > 2 * c.min_temp + c.min_temp_dead_band {
        true
    } else if 2 * t < 2 * c.min_temp - c.min_temp_dead_band {
        false
    } else {
        active
    }
}

/// The linear ramp from `fan_low` at `min_temp` towards `fan_high` at
/// `max_temp`, rounded down to a thousandth of a percent.
pub open spec fn ramp_duty(c: Config, t: int) -> int {
    c.fan_low + (t - c.min_temp) * (c.fan_high - c.fan_low) / (c.max_temp - c.min_temp)
}

/// The duty percentage, in thousandths, for a latch state and temperature.
pub open spec fn duty_percent(c: Config, t: int, active: bool) -> int {
    if !active {
        c.fan_off as int
    } else if t < c.max_temp {
        ramp_duty(c, t)
    } else {
        c.fan_max as int
    }
}

/// A duty percentage clamped to 0..=100 percent.
pub open spec fn clamp_duty(d: int) -> int {
    if d > PERCENT_FULL {
        PERCENT_FULL as int
    } else if d < 0 {
        0
    } else {
        d
    }
}

/// Reads a sensor text: an integer count of thousandths of a degree,
/// optionally followed by line-end bytes.
pub fn parse_temperature(reading: &str) -> (r: Result<i64, SensorError>)
    ensures
        r == (match temperature_of(reading.spec_bytes()) {
            Some(t) => Ok::<i64, SensorError>(t as i64),
            None => Err(SensorError::NotANumber),
        }),
{
    let b = reading.as_bytes();
    let e = line_end(b);
    match parse_integer(b, e) {
        Some(t) => Ok(t),
        None => Err(SensorError::NotANumber),
    }
}

/// Clamps a duty percentage (in thousandths) to 0..=100 percent and gives
/// it as a fraction of `DUTY_FULL`.
pub fn normalize_duty(duty: i128) -> (r: u32)
    ensures
        r == clamp_duty(duty as int),
        r <= DUTY_FULL,
{
    if duty > PERCENT_FULL as i128 {
        DUTY_FULL
    } else if duty < 0 {
        0
    } else {
        duty as u32
    }
}

/// The controller: its configuration, the last temperature read, and the
/// hysteresis latch.
pub struct FanControl {
    config: Config,
    temperature: i64,
    outside_dead_band_higher: bool,
}

impl FanControl {
    /// The parameters the controller runs with.
    pub closed spec fn spec_config(&self) -> Config {
        self.config
    }

    /// The last temperature read, in thousandths of a degree.
    pub closed spec fn spec_temperature(&self) -> int {
        self.temperature as int
    }

    /// The hysteresis latch: true while the fan may run.
    pub closed spec fn spec_active(&self) -> bool {
        self.outside_dead_band_higher
    }

    /// A controller that has read nothing yet, with the latch set.
    pub fn new(config: &Config) -> (r: FanControl)
        ensures
            r.spec_config() == *config,
            r.spec_temperature() == 0,
            r.spec_active(),
    {
        FanControl { config: *config, temperature: 0, outside_dead_band_higher: true }
    }

    /// A controller that has read nothing yet, with the latch as given.
    pub fn with_active(config: &Config, active: bool) -> (r: FanControl)
        ensures
            r.spec_config() == *config,
            r.spec_temperature() == 0,
            r.spec_active() == active,
    {
        FanControl { config: *config, temperature: 0, outside_dead_band_higher: active }
    }

    pub fn config(&self) -> (r: &Config)
        ensures
            *r == self.spec_config(),
    {
        &self.config
    }

    pub fn temperature(&self) -> (r: i64)
        ensures
            r == self.spec_temperature(),
    {
        self.temperature
    }

    pub fn is_active(&self) -> (r: bool)
        ensures
            r == self.spec_active(),
    {
        self.outside_dead_band_higher
    }

    /// Updates the latch from the last temperature read.
    pub fn handle_dead_zone(&mut self)
        ensures
            final(self).spec_config() == old(self).spec_config(),
            final(self).spec_temperature() == old(self).spec_temperature(),
            final(self).spec_active() == next_active(
                old(self).spec_config(),
                old(self).spec_temperature(),
                old(self).spec_active(),
            ),
    {
        let t = self.temperature as i128;
        let lower_twice = 2 * self.config.min_temp as i128;
        let band = self.config.min_temp_dead_band as i128;
        if 2 * t > lower_twice + band {
            self.outside_dead_band_higher = true;
        } else if 2 * t < lower_twice - band {
            self.outside_dead_band_higher = false;
        }
    }

    /// The duty percentage, in thousandths, for the current latch and
    /// temperature; it may lie outside 0..=100 percent.
    pub fn handle_fan_speed(&self) -> (r: i128)
        requires
            self.spec_config().wf(),
        ensures
            r == duty_percent(self.spec_config(), self.spec_temperature(), self.spec_active()),
    {
        let c = &self.config;
        if !self.outside_dead_band_higher {
            c.fan_off as i128
        } else if self.temperature < c.max_temp {
            let rise = self.temperature as i128 - c.min_temp as i128;
            let span = c.fan_high as i128 - c.fan_low as i128;
            let width = c.max_temp as i128 - c.min_temp as i128;
            assert(-0x1_0000_0000_0000_0000 <= rise <= 0x1_0000_0000_0000_0000);
            assert(-100_000 <= span <= 100_000);
            assert(rise * span <= 0x1_0000_0000_0000_0000 * 100_000
                && rise * span >= -0x1_0000_0000_0000_0000 * 100_000) by (nonlinear_arith)
                requires
                    -0x1_0000_0000_0000_0000 <= rise <= 0x1_0000_0000_0000_0000,
                    -100_000 <= span <= 100_000,
            ;
            let q = floor_div(rise * span, width);
            c.fan_low as i128 + q
        } else {
            c.fan_max as i128
        }
    }

    /// One control cycle on a sensor text: read the temperature, update the
    /// latch, and give the duty fraction, in hundred-thousandths, for the
    /// PWM output. A text that is no reading leaves the controller as it was.
    pub fn run(&mut self, reading: &str) -> (r: Result<u32, SensorError>)
        requires
            old(self).spec_config().wf(),
        ensures
            final(self).spec_config() == old(self).spec_config(),
            r matches Ok(d) ==> d <= DUTY_FULL,
            match temperature_of(reading.spec_bytes()) {
                None => {
                    &&& r == Err::<u32, SensorError>(SensorError::NotANumber)
                    &&& final(self).spec_temperature() == old(self).spec_temperature()
                    &&& final(self).spec_active() == old(self).spec_active()
                },
                Some(t) => {
                    &&& final(self).spec_temperature() == t
                    &&& final(self).spec_active() == next_active(
                        old(self).spec_config(),
                        t,
                        old(self).spec_active(),
                    )
                    &&& r == Ok::<u32, SensorError>(
                        clamp_duty(
                            duty_percent(old(self).spec_config(), t, final(self).spec_active()),
                        ) as u32,
                    )
                },
            },
    {
        let t = parse_temperature(reading)?;
        self.temperature = t;
        self.handle_dead_zone();
        let duty = self.handle_fan_speed();
        Ok(normalize_duty(duty))
    }
}

/// Above the dead band the latch is set; inside it, both edges included,
/// it keeps its value, whichever that was.
pub proof fn lemma_latch_set_or_kept(c: Config, t: int, active: bool)
    ensures
        2 * t > 2 * c.min_temp + c.min_temp_dead_band ==> next_active(c, t, active),
        2 * c.min_temp - c.min_temp_dead_band <= 2 * t <= 2 * c.min_temp
            + c.min_temp_dead_band ==> next_active(c, t, active) == active,
{
}

/// Below the dead band the latch is cleared. The band's width must not be
/// negative, as a valid configuration ensures: a band of negative width has
/// temperatures both above and below it, where the latch is set instead.
pub proof fn lemma_latch_cleared_below(c: Config, t: int, active: bool)
    requires
        c.min_temp_dead_band >= 0,
        2 * t < 2 * c.min_temp - c.min_temp_dead_band,
    ensures
        !next_active(c, t, active),
{
}

/// With the latch set and `min_temp <= t < max_temp`, the duty is the
/// linear ramp, rounded down: `fan_low + (t - min_temp) * (fan_high -
/// fan_low) / (max_temp - min_temp)` to within one thousandth of a percent
/// below the exact quotient.
pub proof fn lemma_ramp_between_thresholds(c: Config, t: int)
    requires
        c.wf(),
        c.min_temp <= t < c.max_temp,
    ensures
        duty_percent(c, t, true) == ramp_duty(c, t),
        (c.max_temp - c.min_temp) * duty_percent(c, t, true) <= (c.max_temp - c.min_temp)
            * c.fan_low + (t - c.min_temp) * (c.fan_high - c.fan_low),
        (c.max_temp - c.min_temp) * c.fan_low + (t - c.min_temp) * (c.fan_high - c.fan_low) < (
        c.max_temp - c.min_temp) * (duty_percent(c, t, true) + 1),
{
    let w = c.max_temp - c.min_temp;
    let n = (t - c.min_temp) * (c.fan_high - c.fan_low);
    lemma_fundamental_div_mod(n, w);
    let q = n / w;
    let r = n % w;
    assert(w * (c.fan_low + q) == w * c.fan_low + w * q) by (nonlinear_arith);
    assert(w * (c.fan_low + q + 1) == w * c.fan_low + w * q + w) by (nonlinear_arith);
}

/// Above `max_temp` a set latch gives `fan_max`; and so does every latch
/// value before the reading when the temperature is also above the dead
/// band. With the latch clear (only possible inside or below the band) the
/// duty is `fan_off` instead.
pub proof fn lemma_max_above_threshold(c: Config, t: int, prior: bool)
    requires
        t > c.max_temp,
    ensures
        duty_percent(c, t, true) == c.fan_max,
        2 * t > 2 * c.min_temp + c.min_temp_dead_band ==> duty_percent(
            c,
            t,
            next_active(c, t, prior),
        ) == c.fan_max,
{
}

/// With the latch clear the duty is `fan_off`, whatever the temperature.
pub proof fn lemma_off_when_inactive(c: Config, t: int)
    ensures
        duty_percent(c, t, false) == c.fan_off,
{
}

/// The fraction handed to the PWM output is the duty clamped to 0..=100
/// percent, and so always lies between 0.0 and 1.0.
pub proof fn lemma_clamped_fraction(d: int)
    ensures
        0 <= clamp_duty(d) <= DUTY_FULL,
        0 <= d <= PERCENT_FULL ==> clamp_duty(d) == d,
        d < 0 ==> clamp_duty(d) == 0,
        d > PERCENT_FULL ==> clamp_duty(d) == DUTY_FULL,
{
}

/// Division rounded down, for a positive divisor.
fn floor_div(n: i128, d: i128) -> (q: i128)
    requires
        d > 0,
        -0x1_0000_0000_0000_0000_0000_0000 <= n <= 0x1_0000_0000_0000_0000_0000_0000,
    ensures
        q == n / d,
        n >= 0 ==> 0 <= q <= n,
        n < 0 ==> n <= q < 0,
{
    let m: u128 = if n >= 0 { n as u128 } else { (0 - n) as u128 };
    let q0: u128 = m / d as u128;
    let r0: u128 = m % d as u128;
    proof {
        lemma_fundamental_div_mod(m as int, d as int);
        assert(q0 <= m) by (nonlinear_arith)
            requires
                m == d * q0 + r0,
                d >= 1,
                r0 >= 0,
                q0 >= 0,
        ;
    }
    if n >= 0 {
        proof {
            lemma_fundamental_div_mod_converse(n as int, d as int, q0 as int, r0 as int);
        }
        q0 as i128
    } else if r0 == 0 {
        proof {
            assert(n == (-q0) * d) by (nonlinear_arith)
                requires
                    n == -m,
                    m == d * q0,
            ;
            lemma_fundamental_div_mod_converse(n as int, d as int, -q0, 0);
            assert(q0 > 0) by (nonlinear_arith)
                requires
                    m == d * q0,
                    m > 0,
                    d > 0,
            ;
        }
        0 - q0 as i128
    } else {
        proof {
            assert(n == (-q0 - 1) * d + (d - r0)) by (nonlinear_arith)
                requires
                    n == -m,
                    m == d * q0 + r0,
            ;
            lemma_fundamental_div_mod_converse(n as int, d as int, -q0 - 1, d - r0);
            assert(q0 + 1 <= m) by (nonlinear_arith)
                requires
                    m == d * q0 + r0,
                    d >= 1,
                    r0 >= 1,
                    q0 >= 0,
            ;
        }
        0 - q0 as i128 - 1
    }
}

} // verus!
