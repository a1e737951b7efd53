//! Conversion between clock-style durations and decimal hours.
//!
//! A duration is written either in clock notation, `1:03:18`, or in decimal notation,
//! `1.055` hours. [`Time::from`] reads either into a [`Time`], which [`Time::to_string`]
//! writes in clock notation and [`Time::to_decimal`] turns into decimal hours, carried to
//! twelve digits after the point; [`Decimal::to_rounded_string`] writes those with four.
//! All arithmetic is done on digits and whole numbers: no digit of the input is lost, and
//! every result is stated exactly.

pub mod decimal;
pub mod digits;
pub mod error;
pub mod notation;
pub mod time;
pub mod time_converter;
pub mod use_cases;

pub use crate::decimal::Decimal;
pub use crate::error::ParseError;
pub use crate::notation::Notation;
pub use crate::time::Time;
pub use crate::use_cases::{convert_decimal_to_time, convert_time_to_decimal, use_case_picker};
