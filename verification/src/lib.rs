//! Calibration curves for displays, as ICC profiles.
//!
//! The curves come from the settings of GIMP's curve tool ([`settings`]), or are the ramp of
//! a gamma value ([`gamma`]). They end up in a profile for the video card ([`profile`]),
//! after a look at whether they rise throughout ([`monotone`]).
//!
//! Settings are written in decimals and read as double precision has it, down to the last
//! bit, but with whole numbers alone: [`text`] takes the settings apart, [`number`] reads the
//! notation, [`expansion`] and [`rounding`] find the closest double, [`sample`] turns it into
//! a value of sixteen bits, and [`curve`] puts such values together.
pub mod curve;
pub mod expansion;
pub mod gamma;
pub mod monotone;
pub mod number;
pub mod profile;
pub mod rounding;
pub mod sample;
pub mod settings;
pub mod text;
