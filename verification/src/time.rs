//! The time value: hours, minutes and seconds, and their normal form.

use vstd::prelude::*;
use vstd::arithmetic::div_mod::{
    lemma_div_denominator, lemma_fundamental_div_mod, lemma_hoist_over_denominator,
};
use crate::decimal::{rounded_text, rounded_ten_thousandths, Decimal, TRILLION};
use crate::digits::{
    decimal_digits, decimal_value, lemma_decimal_value_bound, lemma_pow10_positive, padded_digits,
    parse_saturating, pow10, push_decimal, push_padded, round_div, scaled_fraction,
};
use crate::error::{ParseError, NO_DIGITS, UNRECOGNIZED};
use crate::notation::{
    after, before, clock_hours, clock_minutes, clock_seconds, comma_to_dot, fix_comma,
    is_clock_notation, is_decimal_notation, lemma_clock_three_fields, lemma_decimal_chars,
    lemma_decimal_two_parts, lemma_find, split_clock,
};

verus! {

/// The largest hour count a [`Time`] can hold.
pub const MAX_HOURS: u16 = 65535;

/// A duration as hours, minutes and seconds.
#[derive(Debug, Clone, Copy, PartialEq, Eq, Structural)]
pub struct Time {
    pub hours: u16,
    pub minutes: u8,
    pub seconds: u8,
}

/// The hours that `minutes` and `seconds` amount to together with `hours`, once every sixty
/// seconds count as a minute and every sixty minutes as an hour.
pub open spec fn carried_hours(hours: nat, minutes: nat, seconds: nat) -> nat {
    hours + (minutes + seconds / 60) / 60
}

/// The normal form of a triple of hours, minutes and seconds. Seconds beyond 59 are carried
/// into the minutes, then minutes beyond 59 into the hours. Where the hours then exceed
/// [`MAX_HOURS`], the whole value is zero.
pub open spec fn normalize_spec(hours: nat, minutes: nat, seconds: nat) -> Time {
    let carried_minutes = minutes + seconds / 60;
    if carried_hours(hours, minutes, seconds) > MAX_HOURS {
        Time { hours: 0, minutes: 0, seconds: 0 }
    } else {
        Time {
            hours: carried_hours(hours, minutes, seconds) as u16,
            minutes: (carried_minutes % 60) as u8,
            seconds: (seconds % 60) as u8,
        }
    }
}

/// The time that a text in clock notation stands for. With two colons the fields are
/// hours, minutes and seconds. With one colon they are hours and minutes: a text such as
/// `1:66` is read as one hour and sixty-six minutes. An empty field counts as zero.
pub open spec fn clock_time(s: Seq<char>) -> Time {
    normalize_spec(
        decimal_value(clock_hours(s)),
        decimal_value(clock_minutes(s)),
        decimal_value(clock_seconds(s)),
    )
}

/// The minutes in the fraction of a decimal numeral: sixty times the fraction, rounded
/// to the nearest whole number. This can be sixty.
pub open spec fn decimal_minutes(fraction: Seq<char>) -> nat {
    round_div(60 * decimal_value(fraction), pow10(fraction.len()))
}

/// The seconds in the fraction of a decimal numeral: what the fraction holds beyond its
/// rounded minutes, in seconds, rounded to the nearest whole number. Where the minutes
/// were rounded up there is nothing beyond them, and the seconds are zero.
pub open spec fn decimal_seconds(fraction: Seq<char>) -> nat {
    let unit = pow10(fraction.len());
    let value = decimal_value(fraction);
    let minutes = decimal_minutes(fraction);
    if 3600 * value >= 60 * (minutes * unit) {
        round_div((3600 * value - 60 * (minutes * unit)) as nat, unit)
    } else {
        0
    }
}

/// The time that a decimal numeral stands for: its whole part in hours, held at
/// [`MAX_HOURS`], with the minutes and seconds of its fraction, in normal form.
pub open spec fn decimal_time(whole: Seq<char>, fraction: Seq<char>) -> Time {
    normalize_spec(
        vstd::math::min(decimal_value(whole) as int, MAX_HOURS as int) as nat,
        decimal_minutes(fraction),
        decimal_seconds(fraction),
    )
}

/// A text in decimal notation that holds a digit.
pub open spec fn is_decimal_number(s: Seq<char>) -> bool {
    is_decimal_notation(s) && before(comma_to_dot(s), '.').len() + after(
        comma_to_dot(s),
        '.',
    ).len() > 0
}

/// The time that a text in decimal notation stands for, whichever separator it uses.
pub open spec fn decimal_text_time(s: Seq<char>) -> Time {
    decimal_time(before(comma_to_dot(s), '.'), after(comma_to_dot(s), '.'))
}

/// The time that a text stands for: read as clock notation where it is in that notation,
/// else as decimal notation where it is a decimal number; `None` for any other text.
pub open spec fn text_time(s: Seq<char>) -> Option<Time> {
    if is_clock_notation(s) {
        Some(clock_time(s))
    } else if is_decimal_number(s) {
        Some(decimal_text_time(s))
    } else {
        None
    }
}

/// The message for a text that stands for no time: [`NO_DIGITS`] for decimal notation
/// without a digit, [`UNRECOGNIZED`] for a text in neither notation.
pub open spec fn text_error(s: Seq<char>) -> Seq<char> {
    if is_decimal_notation(s) {
        NO_DIGITS@
    } else {
        UNRECOGNIZED@
    }
}

/// A time in trillionths of an hour, rounded to the nearest: its hours, and twelve digits
/// of their fraction.
pub open spec fn trillionths(time: Time) -> nat {
    round_div(1_000_000_000_000 * time.total_seconds(), 3600)
}

/// A time in ten-thousandths of an hour, rounded to the nearest.
pub open spec fn ten_thousandths(time: Time) -> nat {
    round_div(10000 * time.total_seconds(), 3600)
}

/// How a time is written in decimal hours: its ten-thousandths of an hour, with the decimal
/// point before the last four digits.
pub open spec fn decimal_text(time: Time) -> Seq<char> {
    decimal_digits(ten_thousandths(time) / 10000) + seq!['.'] + padded_digits(
        ten_thousandths(time) % 10000,
        4,
    )
}

/// How a time is written: the hours as they are, then minutes and seconds with two digits
/// each, colons between.
pub open spec fn clock_text(time: Time) -> Seq<char> {
    decimal_digits(time.hours as nat) + seq![':'] + padded_digits(time.minutes as nat, 2)
        + seq![':'] + padded_digits(time.seconds as nat, 2)
}

/// Minutes and seconds of a fraction can be read off its half seconds, that is the
/// fraction in units of a 7200th, rounded down. Sixty minutes and thirty seconds are the
/// most that come out.
pub proof fn lemma_fraction_rounding(fraction: Seq<char>)
    requires
        crate::digits::all_digits(fraction),
    ensures
        decimal_minutes(fraction) == (scaled_fraction(fraction, 7200) / 60 + 1) / 2,
        decimal_minutes(fraction) <= 60,
        decimal_seconds(fraction) == if scaled_fraction(fraction, 7200) >= 120
            * decimal_minutes(fraction) {
            (scaled_fraction(fraction, 7200) - 120 * decimal_minutes(fraction) + 1) / 2
        } else {
            0
        },
        decimal_seconds(fraction) <= 30,
{
    let unit = pow10(fraction.len());
    let value = decimal_value(fraction);
    let halves = scaled_fraction(fraction, 7200);
    let minutes = decimal_minutes(fraction);
    lemma_pow10_positive(fraction.len());
    lemma_decimal_value_bound(fraction);
    crate::digits::lemma_scaled_fraction_bound(fraction, 7200);
    // halves / 60 is the fraction in 120ths, rounded down
    lemma_div_denominator((7200 * value) as int, unit as int, 60);
    lemma_div_denominator((7200 * value) as int, 60, unit as int);
    assert(unit * 60 == 60 * unit);
    assert((7200 * value) / 60 == 120 * value);
    assert(halves / 60 == (120 * value) / unit);
    // rounding sixty times the fraction
    lemma_hoist_over_denominator((120 * value) as int, 1, unit);
    lemma_div_denominator((120 * value + unit) as int, unit as int, 2);
    assert(unit * 2 == 2 * unit);
    assert(2 * (60 * value) + unit == 120 * value + unit);
    assert(minutes == (halves / 60 + 1) / 2);
    // what lies beyond the minutes
    let whole = minutes * unit;
    lemma_fundamental_div_mod((7200 * value) as int, unit as int);
    assert(halves >= 120 * minutes <==> 7200 * value >= 120 * whole) by (nonlinear_arith)
        requires
            7200 * value == unit * halves + (7200 * value) % unit,
            0 <= (7200 * value) % unit < unit,
            whole == minutes * unit,
    ;
    if 3600 * value >= 60 * whole {
        let beyond = (3600 * value - 60 * whole) as nat;
        assert(2 * beyond + unit == 7200 * value + (1 - 120 * minutes) * unit) by (nonlinear_arith)
            requires
                beyond == 3600 * value - 60 * whole,
                whole == minutes * unit,
        ;
        lemma_hoist_over_denominator((7200 * value) as int, 1 - 120 * minutes, unit);
        lemma_div_denominator((2 * beyond + unit) as int, unit as int, 2);
    }
}

impl Time {
    /// Minutes and seconds both lie below sixty.
    pub open spec fn is_normalized(&self) -> bool {
        self.minutes < 60 && self.seconds < 60
    }

    /// The whole duration in seconds.
    pub open spec fn total_seconds(&self) -> nat {
        (3600 * self.hours + 60 * self.minutes + self.seconds) as nat
    }

    /// Reads a time from a text in clock notation or in decimal notation: see
    /// [`text_time`]. Clock notation is tried first. A text that stands for no time is an
    /// error, with the message that [`text_error`] gives.
    pub fn from(time: &String) -> (parsed: Result<Time, ParseError>)
        ensures
            match parsed {
                Ok(read) => text_time(time@) == Some(read) && read.is_normalized(),
                Err(error) => text_time(time@) is None && error@ == text_error(time@),
            },
    {
        Time::from_str(time.as_str())
    }

    /// Reads a time from a text, as [`Time::from`] does.
    pub fn from_str(time: &str) -> (parsed: Result<Time, ParseError>)
        ensures
            match parsed {
                Ok(read) => text_time(time@) == Some(read) && read.is_normalized(),
                Err(error) => text_time(time@) is None && error@ == text_error(time@),
            },
    {
        match split_clock(time) {
            Some((hours, minutes, seconds)) => Ok(Time::parse_hhhmmss(hours, minutes, seconds)),
            None => Time::parse_hhhdddd(time),
        }
    }

    /// The time that a decimal numeral stands for: see [`decimal_time`].
    pub fn from_decimal(time: Decimal) -> (read: Time)
        requires
            time.wf(),
        ensures
            read == decimal_time(time.whole_digits(), time.fraction_digits()),
            read.is_normalized(),
    {
        let whole: u32 = time.whole_saturating();
        let hours: u32 = if whole > MAX_HOURS as u32 {
            MAX_HOURS as u32
        } else {
            whole
        };
        let halves: u32 = time.scaled_fraction(7200);
        proof {
            lemma_fraction_rounding(time.fraction_digits());
            crate::digits::lemma_scaled_fraction_bound(time.fraction_digits(), 7200);
        }
        let minutes: u32 = (halves / 60 + 1) / 2;
        let seconds: u32 = if halves >= 120 * minutes {
            (halves - 120 * minutes + 1) / 2
        } else {
            0
        };
        Time::normalize(hours, minutes, seconds)
    }

    /// The time in decimal hours: hours plus a sixtieth of the minutes plus a 3600th of
    /// the seconds, carried to twelve digits after the point. The result is off from that
    /// sum by half a trillionth of an hour at most.
    pub fn to_decimal(&self) -> (decimal: Decimal)
        ensures
            decimal.wf(),
            decimal.fraction_digits().len() == 12,
            decimal_value(decimal.whole_digits()) * 1_000_000_000_000 + decimal_value(
                decimal.fraction_digits(),
            ) == trillionths(*self),
            -1800 <= 3600 * trillionths(*self) - 1_000_000_000_000 * self.total_seconds() <= 1800,
            decimal.whole_digits() == decimal_digits(trillionths(*self) / 1_000_000_000_000),
            decimal.fraction_digits() == padded_digits(
                trillionths(*self) % 1_000_000_000_000,
                12,
            ),
    {
        let total: u64 = 3600 * (self.hours as u64) + 60 * (self.minutes as u64)
            + self.seconds as u64;
        assert(total == self.total_seconds());
        let wide: u128 = (2 * (TRILLION as u128 * total as u128) + 3600) / 7200;
        Decimal::from_trillionths(wide as u64)
    }

    /// The time that three fields of digits stand for, as hours, minutes and seconds, in
    /// normal form. An empty field counts as zero, and no field is too long to be read.
    pub fn parse_hhhmmss(hours: &str, minutes: &str, seconds: &str) -> (read: Time)
        requires
            crate::digits::all_digits(hours@),
            crate::digits::all_digits(minutes@),
            crate::digits::all_digits(seconds@),
        ensures
            read == normalize_spec(
                decimal_value(hours@),
                decimal_value(minutes@),
                decimal_value(seconds@),
            ),
            read.is_normalized(),
    {
        proof {
            lemma_normalize_saturated(
                decimal_value(hours@),
                decimal_value(minutes@),
                decimal_value(seconds@),
            );
        }
        Time::normalize(
            parse_saturating(hours),
            parse_saturating(minutes),
            parse_saturating(seconds),
        )
    }

    /// Reads a time from a text in decimal notation: see [`decimal_text_time`]. A text
    /// that is no decimal number is an error, with the message that [`text_error`] gives.
    pub fn parse_hhhdddd(time: &str) -> (parsed: Result<Time, ParseError>)
        ensures
            match parsed {
                Ok(read) => {
                    &&& is_decimal_number(time@)
                    &&& read == decimal_text_time(time@)
                    &&& read.is_normalized()
                },
                Err(error) => !is_decimal_number(time@) && error@ == text_error(time@),
            },
    {
        let fixed_time = fix_comma(time);
        match Decimal::parse(fixed_time.as_str()) {
            Ok(decimal) => Ok(Time::from_decimal(decimal)),
            Err(error) => Err(error),
        }
    }

    /// Writes the time as hours, minutes and seconds: see [`clock_text`]. Minutes and
    /// seconds below a hundred take two digits each.
    pub fn to_string(&self) -> (written: String)
        ensures
            written@ == clock_text(*self),
            self.minutes < 100 && self.seconds < 100 ==> written@.len() == decimal_digits(
                self.hours as nat,
            ).len() + 6,
    {
        proof {
            crate::digits::lemma_pow10_values();
            crate::digits::lemma_padded_digits(self.minutes as nat, 2);
            crate::digits::lemma_padded_digits(self.seconds as nat, 2);
        }
        let mut written = String::new();
        push_decimal(&mut written, self.hours as u64);
        written.append(":");
        push_padded(&mut written, self.minutes as u64, 2);
        written.append(":");
        push_padded(&mut written, self.seconds as u64, 2);
        proof {
            reveal_strlit(":");
            assert(written@ =~= clock_text(*self));
        }
        written
    }

    /// Brings hours, minutes and seconds into normal form: see [`normalize_spec`].
    pub fn normalize(hours: u32, minutes: u32, seconds: u32) -> (time: Time)
        ensures
            time == normalize_spec(hours as nat, minutes as nat, seconds as nat),
            time.is_normalized(),
    {
        let carried_minutes: u64 = minutes as u64 + (seconds / 60) as u64;
        let carried_hours: u64 = hours as u64 + carried_minutes / 60;
        if carried_hours > MAX_HOURS as u64 {
            Time { hours: 0, minutes: 0, seconds: 0 }
        } else {
            Time {
                hours: carried_hours as u16,
                minutes: (carried_minutes % 60) as u8,
                seconds: (seconds % 60) as u8,
            }
        }
    }
}

/// The normal form is normalized.
pub proof fn lemma_normalize_is_normalized(hours: nat, minutes: nat, seconds: nat)
    ensures
        normalize_spec(hours, minutes, seconds).is_normalized(),
{
}

/// Unless the hours overflow, the normal form lasts as long as what was given.
pub proof fn lemma_normalize_keeps_duration(hours: nat, minutes: nat, seconds: nat)
    requires
        carried_hours(hours, minutes, seconds) <= MAX_HOURS,
    ensures
        normalize_spec(hours, minutes, seconds).total_seconds() == 3600 * hours + 60 * minutes
            + seconds,
{
}

/// Sixty seconds fold into one minute.
pub proof fn lemma_normalize_folds_seconds(hours: nat, minutes: nat, seconds: nat)
    ensures
        normalize_spec(hours, minutes, seconds + 60) == normalize_spec(hours, minutes + 1, seconds),
{
}

/// Sixty minutes fold into one hour.
pub proof fn lemma_normalize_folds_minutes(hours: nat, minutes: nat, seconds: nat)
    ensures
        normalize_spec(hours, minutes + 60, seconds) == normalize_spec(hours + 1, minutes, seconds),
{
}

/// A normalized time is its own normal form.
pub proof fn lemma_normalize_fixes_normalized(time: Time)
    requires
        time.is_normalized(),
    ensures
        normalize_spec(time.hours as nat, time.minutes as nat, time.seconds as nat) == time,
{
}

/// The hours overflow exactly when the duration reaches 65536 hours, and then the normal
/// form is zero in all three fields.
pub proof fn lemma_normalize_overflow(hours: nat, minutes: nat, seconds: nat)
    ensures
        carried_hours(hours, minutes, seconds) > MAX_HOURS <==> 3600 * hours + 60 * minutes
            + seconds >= 3600 * 65536,
        carried_hours(hours, minutes, seconds) > MAX_HOURS ==> normalize_spec(
            hours,
            minutes,
            seconds,
        ) == (Time { hours: 0, minutes: 0, seconds: 0 }),
{
}

/// Two normalized times that last equally long are the same time.
pub proof fn lemma_normalized_unique(a: Time, b: Time)
    requires
        a.is_normalized(),
        b.is_normalized(),
        a.total_seconds() == b.total_seconds(),
    ensures
        a == b,
{
}

/// Holding a field at `u32::MAX` changes nothing: so large a field overflows the hours
/// already.
pub proof fn lemma_normalize_saturated(hours: nat, minutes: nat, seconds: nat)
    ensures
        normalize_spec(
            vstd::math::min(hours as int, u32::MAX as int) as nat,
            vstd::math::min(minutes as int, u32::MAX as int) as nat,
            vstd::math::min(seconds as int, u32::MAX as int) as nat,
        ) == normalize_spec(hours, minutes, seconds),
{
}

/// The ten-thousandths of an hour in a time, counted from its seconds: twenty-five for
/// every nine seconds, rounded to the nearest. No duration lies halfway between two counts.
pub proof fn lemma_ten_thousandths(time: Time)
    ensures
        ten_thousandths(time) == (50 * time.total_seconds() + 9) / 18,
        -4 <= 9 * ten_thousandths(time) - 25 * time.total_seconds() <= 4,
{
    let total = time.total_seconds();
    assert(2 * (10000 * total) + 3600 == 400 * (50 * total + 9));
    assert((400 * (50 * total + 9)) / 7200 == (50 * total + 9) / 18);
}

/// Hours and the rest of a duration go apart in its trillionths: the hours fill the whole
/// part, and the rest makes the fraction, which stays below one.
pub proof fn lemma_trillionths(time: Time)
    ensures
        -1800 <= 3600 * trillionths(time) - 1_000_000_000_000 * time.total_seconds() <= 1800,
        trillionths(time) / 1_000_000_000_000 == time.total_seconds() / 3600,
        trillionths(time) % 1_000_000_000_000 == round_div(
            1_000_000_000_000 * (time.total_seconds() % 3600),
            3600,
        ),
{
    let total = time.total_seconds();
    let hours = total / 3600;
    let rest = total % 3600;
    let part = round_div(1_000_000_000_000 * rest, 3600);
    assert(2 * (1_000_000_000_000 * total) + 3600 == (2 * (1_000_000_000_000 * rest) + 3600)
        + (1_000_000_000_000 * hours) * 7200);
    lemma_hoist_over_denominator(
        (2 * (1_000_000_000_000 * rest) + 3600) as int,
        (1_000_000_000_000 * hours) as int,
        7200,
    );
    assert(trillionths(time) == 1_000_000_000_000 * hours + part);
    assert(part < 1_000_000_000_000);
}

/// Rounding the twelve digits of a time to four gives its ten-thousandths: no duration
/// lies so close to halfway between two of them that the twelfth digit could decide.
pub proof fn lemma_rounded_trillionths(time: Time)
    ensures
        rounded_text(
            decimal_digits(trillionths(time) / 1_000_000_000_000),
            padded_digits(trillionths(time) % 1_000_000_000_000, 12),
        ) == decimal_text(time),
{
    let total = time.total_seconds();
    let hours = total / 3600;
    let rest = total % 3600;
    let part = trillionths(time) % 1_000_000_000_000;
    let fraction = padded_digits(part, 12);
    lemma_trillionths(time);
    lemma_ten_thousandths(time);
    crate::digits::lemma_pow10_values();
    crate::digits::lemma_decimal_digits(hours);
    crate::digits::lemma_padded_digits(part, 12);
    let count = (50 * rest + 9) / 18;
    assert(ten_thousandths(time) == 10000 * hours + count);
    assert(count < 10000);
    assert(-1800 <= 3600 * part - 1_000_000_000_000 * rest <= 1800);
    assert(-4 <= 9 * count - 25 * rest <= 4);
    assert(rounded_ten_thousandths(fraction) == (2 * (10000 * part) + 1_000_000_000_000)
        / 2_000_000_000_000);
    assert(rounded_ten_thousandths(fraction) == count);
}

/// Read from clock notation and taken in decimal hours, a time is off by half a trillionth
/// of an hour at most from what the three fields say: hours, a sixtieth of the minutes, a
/// 3600th of the seconds. This holds as long as the hours do not overflow.
pub proof fn lemma_clock_to_decimal(text: Seq<char>)
    requires
        is_clock_notation(text),
        carried_hours(
            decimal_value(clock_hours(text)),
            decimal_value(clock_minutes(text)),
            decimal_value(clock_seconds(text)),
        ) <= MAX_HOURS,
    ensures
        text_time(text) == Some(clock_time(text)),
        -1800 <= 3600 * trillionths(clock_time(text)) - 1_000_000_000_000 * (3600 * decimal_value(
            clock_hours(text),
        ) + 60 * decimal_value(clock_minutes(text)) + decimal_value(clock_seconds(text))) <= 1800,
{
    lemma_normalize_keeps_duration(
        decimal_value(clock_hours(text)),
        decimal_value(clock_minutes(text)),
        decimal_value(clock_seconds(text)),
    );
    lemma_trillionths(clock_time(text));
}

/// Taken in decimal hours and read back, a normalized time whose seconds are below thirty
/// is itself again.
pub proof fn lemma_decimal_round_trip(time: Time)
    requires
        time.is_normalized(),
        time.seconds < 30,
    ensures
        decimal_time(
            decimal_digits(trillionths(time) / 1_000_000_000_000),
            padded_digits(trillionths(time) % 1_000_000_000_000, 12),
        ) == time,
{
    let whole = decimal_digits(trillionths(time) / 1_000_000_000_000);
    let part = trillionths(time) % 1_000_000_000_000;
    let fraction = padded_digits(part, 12);
    lemma_trillionths(time);
    crate::digits::lemma_pow10_values();
    crate::digits::lemma_decimal_digits(trillionths(time) / 1_000_000_000_000);
    crate::digits::lemma_padded_digits(part, 12);
    let within = 60 * time.minutes + time.seconds;
    assert(time.total_seconds() % 3600 == within);
    assert(time.total_seconds() / 3600 == time.hours);
    assert(-1800 <= 3600 * part - 1_000_000_000_000 * within <= 1800);
    assert(decimal_value(whole) == time.hours);
    assert(decimal_value(fraction) == part);
    assert(fraction.len() == 12);
    assert(decimal_minutes(fraction) == (2 * (60 * part) + 1_000_000_000_000)
        / 2_000_000_000_000);
    assert(decimal_minutes(fraction) == time.minutes);
    assert(time.minutes * 1_000_000_000_000 == 1_000_000_000_000 * time.minutes);
    if 3600 * part >= 60 * (time.minutes * 1_000_000_000_000) {
        assert(decimal_seconds(fraction) == (2 * (3600 * part - 60 * (1_000_000_000_000
            * time.minutes)) + 1_000_000_000_000) / 2_000_000_000_000int);
    }
    assert(decimal_seconds(fraction) == time.seconds);
}

/// Written as hours, minutes and seconds and read back, a normalized time is itself again.
pub proof fn lemma_clock_text_round_trip(time: Time)
    requires
        time.is_normalized(),
    ensures
        text_time(clock_text(time)) == Some(time),
{
    let hours = decimal_digits(time.hours as nat);
    let minutes = padded_digits(time.minutes as nat, 2);
    let seconds = padded_digits(time.seconds as nat, 2);
    crate::digits::lemma_decimal_digits(time.hours as nat);
    crate::digits::lemma_padded_digits(time.minutes as nat, 2);
    crate::digits::lemma_padded_digits(time.seconds as nat, 2);
    lemma_clock_three_fields(hours, minutes, seconds);
    lemma_normalize_fixes_normalized(time);
}

/// Written in decimal hours with four digits after the point and read back, a normalized
/// time whose seconds are below thirty is itself again.
pub proof fn lemma_decimal_text_round_trip(time: Time)
    requires
        time.is_normalized(),
        time.seconds < 30,
    ensures
        text_time(decimal_text(time)) == Some(time),
{
    let count = ten_thousandths(time);
    let whole = decimal_digits(count / 10000);
    let fraction = padded_digits(count % 10000, 4);
    let text = decimal_text(time);
    crate::digits::lemma_decimal_digits(count / 10000);
    crate::digits::lemma_padded_digits(count % 10000, 4);
    lemma_decimal_two_parts(whole, '.', fraction);
    if is_clock_notation(text) {
        lemma_decimal_chars(text);
        lemma_find(text, ':');
    }
    crate::digits::lemma_pow10_values();
    lemma_ten_thousandths(time);
    let within = 60 * time.minutes + time.seconds;
    let part = count - 10000 * time.hours;
    assert(-4 <= 9 * part - 25 * within <= 4);
    assert(0 <= part < 10000);
    assert(decimal_value(whole) == time.hours);
    assert(decimal_value(fraction) == part);
    assert(fraction.len() == 4);
    assert(decimal_minutes(fraction) == (120 * part + 10000) / 20000);
    assert(decimal_minutes(fraction) == time.minutes);
    assert(time.minutes * 10000 == 10000 * time.minutes);
    if 3600 * part >= 60 * (time.minutes * 10000) {
        assert(decimal_seconds(fraction) == (2 * (3600 * part - 600000 * time.minutes) + 10000)
            / 20000);
    }
    assert(decimal_seconds(fraction) == time.seconds);
}

} // verus!
