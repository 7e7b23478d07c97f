//! Temperature-driven speed control for a 4-pin PWM fan: configuration
//! checks, reading the sensor text, a hysteresis latch around the minimum
//! temperature, and the piecewise duty-cycle mapping.
pub mod config;
pub mod decimal;
pub mod fan_control;
