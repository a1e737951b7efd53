//! Reading the fields of a text in the strict reading.

use vstd::prelude::*;
use crate::digits::{decimal_value, parse_saturating};
use crate::notation::{after, before, lemma_unsplit, split_clock};
use crate::time_converter::{is_hhhmmss, is_mmmss};

verus! {

/// Hours, minutes and seconds of a text in the strict reading. An empty field counts as
/// zero. The hours must fit sixteen bits.
pub fn parse_hhhmmss(time: &String) -> (fields: (u16, u8, u8))
    requires
        is_hhhmmss(time@),
        decimal_value(before(time@, ':')) <= u16::MAX,
    ensures
        fields.0 == decimal_value(before(time@, ':')),
        fields.1 == decimal_value(before(after(time@, ':'), ':')),
        fields.2 == decimal_value(after(after(time@, ':'), ':')),
{
    match split_clock(time.as_str()) {
        Some((hours, minutes, seconds)) => (
            parse_saturating(hours) as u16,
            parse_saturating(minutes) as u8,
            parse_saturating(seconds) as u8,
        ),
        None => (0, 0, 0),
    }
}

/// Minutes and seconds of a text in the strict reading. An empty field counts as zero.
/// The minutes must fit sixteen bits.
pub fn parse_mmmss(time: &String) -> (fields: (u16, u8))
    requires
        is_mmmss(time@),
        decimal_value(before(time@, ':')) <= u16::MAX,
    ensures
        fields.0 == decimal_value(before(time@, ':')),
        fields.1 == decimal_value(after(time@, ':')),
{
    let ghost rest = after(time@, ':');
    proof {
        lemma_unsplit(rest, ':');
    }
    match split_clock(time.as_str()) {
        Some((minutes, seconds, _)) => (
            parse_saturating(minutes) as u16,
            parse_saturating(seconds) as u8,
        ),
        None => (0, 0),
    }
}

} // verus!
