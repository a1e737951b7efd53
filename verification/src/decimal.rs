//! Decimal numerals: a whole part and a fraction, both held digit by digit, so that no
//! digit of what was written is lost.

use vstd::prelude::*;
use crate::digits::{
    all_digits, decimal_digits, decimal_value, lemma_decimal_digits, lemma_padded_digits,
    lemma_round_scaled, lemma_scaled_fraction_bound, padded_digits, parse_saturating, pow10,
    push_decimal, push_padded, push_successor, round_div, scale_fraction, scaled_fraction,
    successor,
};
use crate::error::{ParseError, NO_DIGITS, UNRECOGNIZED};
use crate::notation::{after, before, is_decimal_numeral, split_numeral};

verus! {

/// A million millions: so many trillionths make one.
pub const TRILLION: u64 = 1_000_000_000_000;

/// How a whole part is written: as it is, or as a lone zero where it holds no digit.
pub open spec fn shown_whole(whole: Seq<char>) -> Seq<char> {
    if whole.len() == 0 {
        seq!['0']
    } else {
        whole
    }
}

/// The ten-thousandths in a fraction, rounded to the nearest, a half going up. Ten
/// thousand of them where the fraction rounds up to one.
pub open spec fn rounded_ten_thousandths(fraction: Seq<char>) -> nat {
    round_div(10000 * decimal_value(fraction), pow10(fraction.len()))
}

/// A numeral written with four digits after the point, rounded to the nearest
/// ten-thousandth. Where the fraction rounds up to one, the whole part goes one up.
pub open spec fn rounded_text(whole: Seq<char>, fraction: Seq<char>) -> Seq<char> {
    if rounded_ten_thousandths(fraction) >= 10000 {
        successor(whole) + seq!['.'] + padded_digits(0, 4)
    } else {
        shown_whole(whole) + seq!['.'] + padded_digits(rounded_ten_thousandths(fraction), 4)
    }
}

/// A number of hours in decimal notation: the digits before the decimal point and the
/// digits after it.
#[derive(Debug, Clone, PartialEq, Eq)]
pub struct Decimal {
    whole: String,
    fraction: String,
}

impl Decimal {
    /// The digits before the decimal point.
    pub closed spec fn whole_digits(&self) -> Seq<char> {
        self.whole@
    }

    /// The digits after the decimal point.
    pub closed spec fn fraction_digits(&self) -> Seq<char> {
        self.fraction@
    }

    /// Both parts hold digits only.
    pub open spec fn wf(&self) -> bool {
        all_digits(self.whole_digits()) && all_digits(self.fraction_digits())
    }

    /// How the numeral is written: the whole part, a dot, the fraction.
    pub open spec fn text(&self) -> Seq<char> {
        self.whole_digits() + seq!['.'] + self.fraction_digits()
    }

    /// Reads a decimal numeral: digits, optionally a dot, digits, with a digit on at least
    /// one side. Any other text is an error: [`NO_DIGITS`] for a numeral without a digit,
    /// [`UNRECOGNIZED`] for what is no numeral.
    pub fn parse(text: &str) -> (parsed: Result<Decimal, ParseError>)
        ensures
            match parsed {
                Ok(decimal) => {
                    &&& is_decimal_numeral(text@)
                    &&& before(text@, '.').len() + after(text@, '.').len() > 0
                    &&& decimal.wf()
                    &&& decimal.whole_digits() == before(text@, '.')
                    &&& decimal.fraction_digits() == after(text@, '.')
                },
                Err(error) => {
                    if is_decimal_numeral(text@) {
                        &&& before(text@, '.').len() + after(text@, '.').len() == 0
                        &&& error@ == NO_DIGITS@
                    } else {
                        error@ == UNRECOGNIZED@
                    }
                },
            },
    {
        match split_numeral(text) {
            Some((whole, fraction)) => {
                if whole.unicode_len() == 0 && fraction.unicode_len() == 0 {
                    Err(ParseError::new(NO_DIGITS))
                } else {
                    Ok(Decimal { whole: whole.to_owned(), fraction: fraction.to_owned() })
                }
            },
            None => Err(ParseError::new(UNRECOGNIZED)),
        }
    }

    /// The numeral with twelve digits after the point that stands for `count` trillionths.
    pub fn from_trillionths(count: u64) -> (decimal: Decimal)
        ensures
            decimal.wf(),
            decimal.whole_digits() == decimal_digits((count / 1_000_000_000_000) as nat),
            decimal.fraction_digits() == padded_digits((count % 1_000_000_000_000) as nat, 12),
            decimal.fraction_digits().len() == 12,
            decimal_value(decimal.whole_digits()) * 1_000_000_000_000 + decimal_value(
                decimal.fraction_digits(),
            ) == count,
    {
        let mut whole = String::new();
        push_decimal(&mut whole, count / TRILLION);
        let mut fraction = String::new();
        push_padded(&mut fraction, count % TRILLION, 12);
        proof {
            crate::digits::lemma_pow10_values();
            lemma_decimal_digits((count / TRILLION) as nat);
            lemma_padded_digits((count % TRILLION) as nat, 12);
            assert(whole@ =~= decimal_digits((count / TRILLION) as nat));
            assert(fraction@ =~= padded_digits((count % TRILLION) as nat, 12));
        }
        Decimal { whole, fraction }
    }

    /// The whole part, held at `u32::MAX` where it is larger.
    pub fn whole_saturating(&self) -> (whole: u32)
        requires
            self.wf(),
        ensures
            whole as int == vstd::math::min(
                decimal_value(self.whole_digits()) as int,
                u32::MAX as int,
            ),
    {
        parse_saturating(self.whole.as_str())
    }

    /// The whole part of `scale` times the fraction.
    pub fn scaled_fraction(&self, scale: u32) -> (scaled: u32)
        requires
            self.wf(),
        ensures
            scaled == scaled_fraction(self.fraction_digits(), scale as nat),
    {
        scale_fraction(self.fraction.as_str(), scale)
    }

    /// Writes the numeral with four digits after the point, rounded to the nearest
    /// ten-thousandth: see [`rounded_text`].
    pub fn to_rounded_string(&self) -> (written: String)
        requires
            self.wf(),
        ensures
            written@ == rounded_text(self.whole_digits(), self.fraction_digits()),
    {
        let doubled: u32 = self.scaled_fraction(20000);
        proof {
            lemma_round_scaled(self.fraction_digits(), 10000);
            lemma_scaled_fraction_bound(self.fraction_digits(), 20000);
        }
        let count: u32 = (doubled + 1) / 2;
        let mut written = String::new();
        if count >= 10000 {
            push_successor(&mut written, self.whole.as_str());
            written.append(".");
            push_padded(&mut written, 0, 4);
        } else {
            if self.whole.as_str().unicode_len() == 0 {
                written.append("0");
            } else {
                written.append(self.whole.as_str());
            }
            written.append(".");
            push_padded(&mut written, count as u64, 4);
        }
        proof {
            reveal_strlit(".");
            reveal_strlit("0");
            assert(written@ =~= rounded_text(self.whole_digits(), self.fraction_digits()));
        }
        written
    }

    /// Writes the numeral: the whole part, a dot, the fraction.
    pub fn to_string(&self) -> (written: String)
        ensures
            written@ == self.text(),
    {
        let mut written = self.whole.clone();
        written.append(".");
        written.append(self.fraction.as_str());
        proof {
            reveal_strlit(".");
            assert(written@ =~= self.text());
        }
        written
    }
}

} // verus!
