//! The conversions between the two notations.

use vstd::prelude::*;
use crate::error::{ParseError, NO_CONVERSION, NO_DIGITS, UNRECOGNIZED};
use crate::notation::{
    detect, is_clock_notation, is_decimal_notation, notation_of, split_clock, Notation,
};
use crate::time::{
    clock_text, clock_time, decimal_text, decimal_text_time, is_decimal_number,
    lemma_rounded_trillionths, text_error, Time,
};

verus! {

/// Writes a time given in clock notation in decimal hours, with four digits after the
/// point: `1:15:00` becomes `1.2500`. A text that is not in clock notation is an error
/// with the message [`UNRECOGNIZED`].
pub fn convert_time_to_decimal(hhhmmss: &String) -> (converted: Result<String, ParseError>)
    ensures
        match converted {
            Ok(written) => {
                &&& is_clock_notation(hhhmmss@)
                &&& written@ == decimal_text(clock_time(hhhmmss@))
            },
            Err(error) => !is_clock_notation(hhhmmss@) && error@ == UNRECOGNIZED@,
        },
{
    match split_clock(hhhmmss.as_str()) {
        Some((hours, minutes, seconds)) => {
            let time = Time::parse_hhhmmss(hours, minutes, seconds);
            proof {
                lemma_rounded_trillionths(time);
            }
            Ok(time.to_decimal().to_rounded_string())
        },
        None => Err(ParseError::new(UNRECOGNIZED)),
    }
}

/// Writes a time given in decimal hours as hours, minutes and seconds: `1.055` becomes
/// `1:03:18`. A text that is no decimal number is an error: with the message
/// [`NO_DIGITS`] where it is in decimal notation and holds no digit, else with the
/// message [`UNRECOGNIZED`].
pub fn convert_decimal_to_time(hhhdddd: &String) -> (converted: Result<String, ParseError>)
    ensures
        match converted {
            Ok(written) => {
                &&& is_decimal_number(hhhdddd@)
                &&& written@ == clock_text(decimal_text_time(hhhdddd@))
            },
            Err(error) => !is_decimal_number(hhhdddd@) && error@ == text_error(hhhdddd@),
        },
{
    match Time::parse_hhhdddd(hhhdddd.as_str()) {
        Ok(time) => Ok(time.to_string()),
        Err(error) => Err(error),
    }
}

/// What [`use_case_picker`] answers: a text in clock notation is written in decimal hours,
/// a decimal number as hours, minutes and seconds.
pub open spec fn picked(input: Seq<char>) -> Option<Seq<char>> {
    match notation_of(input) {
        Some(Notation::Clock) => Some(decimal_text(clock_time(input))),
        Some(Notation::Decimal) => if is_decimal_number(input) {
            Some(clock_text(decimal_text_time(input)))
        } else {
            None
        },
        None => None,
    }
}

/// Converts a text into the other notation: see [`picked`]. A text in neither notation is
/// an error with the message [`NO_CONVERSION`], decimal notation without a digit one with
/// the message [`NO_DIGITS`].
pub fn use_case_picker(input: &String) -> (converted: Result<String, ParseError>)
    ensures
        match converted {
            Ok(written) => picked(input@) == Some(written@),
            Err(error) => {
                &&& picked(input@) is None
                &&& error@ == if is_decimal_notation(input@) {
                    NO_DIGITS@
                } else {
                    NO_CONVERSION@
                }
            },
        },
{
    match detect(input.as_str()) {
        Some(Notation::Clock) => convert_time_to_decimal(input),
        Some(Notation::Decimal) => convert_decimal_to_time(input),
        None => Err(ParseError::new(NO_CONVERSION)),
    }
}

} // verus!
