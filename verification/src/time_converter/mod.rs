//! A stricter reading of the notations, which only names the conversion a text asks for.
//!
//! Here minutes and seconds have two digits at most and lie below sixty, and a text with
//! one colon holds minutes and seconds.

use vstd::prelude::*;
use crate::digits::{all_digits, decimal_value, parse_saturating};
use crate::error::{ParseError, UNRECOGNIZED};
use crate::notation::{
    after, before, find, fix_comma, is_decimal_notation, lemma_decimal_chars, lemma_find,
    lemma_unsplit, split_clock, split_numeral,
};

pub mod parsers;

verus! {

/// Names the conversion from hours, minutes and seconds to decimal hours.
pub const HHHMMSS_TO_DECIMAL: &'static str = "HHH:MM:SS -> HHH.DDDDD";

/// Names the conversion from minutes and seconds to decimal hours.
pub const MMMSS_TO_DECIMAL: &'static str = "MMM:SS -> HHH.DDDDD";

/// Names the conversion from decimal hours to hours, minutes and seconds.
pub const DECIMAL_TO_HHHMMSS: &'static str = "HHH.DDDDD -> HHH:MM:SS";

/// A field of minutes or seconds in the strict reading: two digits at most, worth less
/// than sixty. The empty field qualifies.
pub open spec fn is_sexagesimal(field: Seq<char>) -> bool {
    all_digits(field) && field.len() <= 2 && decimal_value(field) < 60
}

/// Hours, minutes and seconds in the strict reading: digits, a colon, a field of minutes,
/// a colon, a field of seconds.
pub open spec fn is_hhhmmss(s: Seq<char>) -> bool {
    let rest = after(s, ':');
    &&& find(s, ':') < s.len()
    &&& all_digits(before(s, ':'))
    &&& find(rest, ':') < rest.len()
    &&& is_sexagesimal(before(rest, ':'))
    &&& is_sexagesimal(after(rest, ':'))
}

/// Minutes and seconds in the strict reading: digits, a colon, a field of seconds.
pub open spec fn is_mmmss(s: Seq<char>) -> bool {
    &&& find(s, ':') < s.len()
    &&& all_digits(before(s, ':'))
    &&& is_sexagesimal(after(s, ':'))
}

/// The name of the conversion that a text asks for, tried in this order: hours, minutes
/// and seconds; minutes and seconds; decimal hours. `None` where the text is none of them.
pub open spec fn conversion(s: Seq<char>) -> Option<Seq<char>> {
    if is_hhhmmss(s) {
        Some(HHHMMSS_TO_DECIMAL@)
    } else if is_mmmss(s) {
        Some(MMMSS_TO_DECIMAL@)
    } else if is_decimal_notation(s) {
        Some(DECIMAL_TO_HHHMMSS@)
    } else {
        None
    }
}

/// Whether a field of digits is a field of minutes or seconds in the strict reading.
pub fn is_sexagesimal_field(field: &str) -> (strict: bool)
    requires
        all_digits(field@),
    ensures
        strict == is_sexagesimal(field@),
{
    field.unicode_len() <= 2 && parse_saturating(field) < 60
}

/// Names the conversion that a text asks for: see [`conversion`]. A text that asks for
/// none is an error with the message [`UNRECOGNIZED`].
pub fn convert_time(time: &String) -> (named: Result<String, ParseError>)
    ensures
        match named {
            Ok(name) => conversion(time@) == Some(name@),
            Err(error) => conversion(time@) is None && error@ == UNRECOGNIZED@,
        },
{
    let text: &str = time.as_str();
    let ghost s = text@;
    let ghost rest = after(s, ':');
    proof {
        lemma_find(s, ':');
        lemma_find(rest, ':');
    }
    match split_clock(text) {
        Some((hours, minutes, seconds)) => {
            proof {
                if is_decimal_notation(s) {
                    lemma_decimal_chars(s);
                }
            }
            let len: usize = text.unicode_len();
            assert(hours@.len() + minutes@.len() + 1 <= len);
            let colons_apart: bool = hours.unicode_len() + minutes.unicode_len() + 1 < len;
            if colons_apart {
                if is_sexagesimal_field(minutes) && is_sexagesimal_field(seconds) {
                    return Ok(HHHMMSS_TO_DECIMAL.to_owned());
                }
                proof {
                    assert(!all_digits(rest)) by {
                        assert(!crate::digits::is_digit(rest[find(rest, ':')]));
                    }
                }
            } else {
                proof {
                    assert(before(rest, ':') =~= rest);
                }
                if is_sexagesimal_field(minutes) {
                    return Ok(MMMSS_TO_DECIMAL.to_owned());
                }
            }
            Err(ParseError::new(UNRECOGNIZED))
        },
        None => {
            proof {
                if is_mmmss(s) {
                    lemma_unsplit(rest, ':');
                }
            }
            let fixed = fix_comma(text);
            if split_numeral(fixed.as_str()).is_some() {
                Ok(DECIMAL_TO_HHHMMSS.to_owned())
            } else {
                Err(ParseError::new(UNRECOGNIZED))
            }
        },
    }
}

} // verus!
