//! The two notations a time can be written in, and how a text is told apart.
//!
//! Clock notation is `digits : digits`, optionally followed by `: digits`. Decimal notation is
//! `digits`, optionally one separator (`.` or `,`), then `digits`. Every run of digits may be
//! empty. A text is tried as clock notation first.

use vstd::prelude::*;
use crate::digits::{all_digits, is_digit, NINE, ZERO};

verus! {

/// The ASCII code of the colon.
const COLON: u8 = 58;

/// The ASCII code of the dot.
const DOT: u8 = 46;

/// The ASCII code of the comma.
const COMMA: u8 = 44;

/// Index of the first `c` in `s`, or `s.len()` where `s` holds none.
pub open spec fn find(s: Seq<char>, c: char) -> int
    decreases s.len(),
{
    if s.len() == 0 || s[0] == c {
        0
    } else {
        1 + find(s.drop_first(), c)
    }
}

/// What stands before the first `c`; all of `s` where it holds none.
pub open spec fn before(s: Seq<char>, c: char) -> Seq<char> {
    s.subrange(0, find(s, c))
}

/// What stands after the first `c`; nothing where `s` holds none.
pub open spec fn after(s: Seq<char>, c: char) -> Seq<char> {
    if find(s, c) < s.len() {
        s.subrange(find(s, c) + 1, s.len() as int)
    } else {
        Seq::empty()
    }
}

/// The hour digits of a text in clock notation: what stands before the first colon.
pub open spec fn clock_hours(s: Seq<char>) -> Seq<char> {
    before(s, ':')
}

/// The minute digits of a text in clock notation: what stands between the first colon and
/// the second, or the end.
pub open spec fn clock_minutes(s: Seq<char>) -> Seq<char> {
    before(after(s, ':'), ':')
}

/// The second digits of a text in clock notation: what stands after the second colon;
/// nothing where there is only one.
pub open spec fn clock_seconds(s: Seq<char>) -> Seq<char> {
    after(after(s, ':'), ':')
}

/// `s` is in clock notation: it holds a colon, and its three fields hold digits only.
/// So it holds one colon or two, and digits besides.
pub open spec fn is_clock_notation(s: Seq<char>) -> bool {
    &&& find(s, ':') < s.len()
    &&& all_digits(clock_hours(s))
    &&& all_digits(clock_minutes(s))
    &&& all_digits(clock_seconds(s))
}

/// `s` with its first comma written as a dot.
pub open spec fn comma_to_dot(s: Seq<char>) -> Seq<char> {
    if find(s, ',') < s.len() {
        s.update(find(s, ','), '.')
    } else {
        s
    }
}

/// `s` is a decimal numeral: digits, optionally a dot, digits. Either run may be empty.
pub open spec fn is_decimal_numeral(s: Seq<char>) -> bool {
    all_digits(before(s, '.')) && all_digits(after(s, '.'))
}

/// `s` is in decimal notation: a decimal numeral whose separator may be a comma.
pub open spec fn is_decimal_notation(s: Seq<char>) -> bool {
    is_decimal_numeral(comma_to_dot(s))
}

/// The notation of a text.
#[derive(Debug, Clone, Copy, PartialEq, Eq, Structural)]
pub enum Notation {
    /// Hours, minutes and seconds between colons.
    Clock,
    /// Hours with a fraction.
    Decimal,
}

/// The notation `s` is read in: clock notation where it fits, else decimal notation where
/// that fits.
pub open spec fn notation_of(s: Seq<char>) -> Option<Notation> {
    if is_clock_notation(s) {
        Some(Notation::Clock)
    } else if is_decimal_notation(s) {
        Some(Notation::Decimal)
    } else {
        None
    }
}

/// Where `find` points: within bounds, past everything that is not `c`, and at a `c`
/// unless at the end.
pub proof fn lemma_find(s: Seq<char>, c: char)
    ensures
        0 <= find(s, c) <= s.len(),
        forall|i: int| 0 <= i < find(s, c) ==> #[trigger] s[i] != c,
        find(s, c) < s.len() ==> s[find(s, c)] == c,
    decreases s.len(),
{
    if s.len() == 0 || s[0] == c {
    } else {
        let tail = s.drop_first();
        lemma_find(tail, c);
        assert forall|i: int| 0 <= i < find(s, c) implies #[trigger] s[i] != c by {
            if i > 0 {
                assert(tail[i - 1] == s[i]);
            }
        }
    }
}

/// `find` points at `at` if no `c` stands before `at` and one stands there, or `s` ends.
pub proof fn lemma_find_at(s: Seq<char>, c: char, at: int)
    requires
        0 <= at <= s.len(),
        forall|i: int| 0 <= i < at ==> #[trigger] s[i] != c,
        at < s.len() ==> s[at] == c,
    ensures
        find(s, c) == at,
{
    lemma_find(s, c);
    let found = find(s, c);
    if found < at {
        assert(s[found] != c);
    } else if found > at {
        assert(s[at] != c);
    }
}

/// Digits, `c`, and whatever follows: the first `c` is the one after the digits.
pub proof fn lemma_split(head: Seq<char>, c: char, tail: Seq<char>)
    requires
        all_digits(head),
        !is_digit(c),
    ensures
        find(head + seq![c] + tail, c) == head.len(),
        before(head + seq![c] + tail, c) == head,
        after(head + seq![c] + tail, c) == tail,
{
    let s = head + seq![c] + tail;
    assert forall|i: int| 0 <= i < head.len() implies #[trigger] s[i] != c by {
        assert(is_digit(head[i]));
    }
    lemma_find_at(s, c, head.len() as int);
    assert(before(s, c) =~= head);
    assert(after(s, c) =~= tail);
}

/// Digits alone hold no `c`: all of them stand before it, nothing after.
pub proof fn lemma_unsplit(digits: Seq<char>, c: char)
    requires
        all_digits(digits),
        !is_digit(c),
    ensures
        find(digits, c) == digits.len(),
        before(digits, c) == digits,
        after(digits, c) == Seq::<char>::empty(),
{
    assert forall|i: int| 0 <= i < digits.len() implies #[trigger] digits[i] != c by {
        assert(is_digit(digits[i]));
    }
    lemma_find_at(digits, c, digits.len() as int);
    assert(before(digits, c) =~= digits);
}

/// Three runs of digits with colons between are in clock notation, and are its fields.
pub proof fn lemma_clock_three_fields(hours: Seq<char>, minutes: Seq<char>, seconds: Seq<char>)
    requires
        all_digits(hours),
        all_digits(minutes),
        all_digits(seconds),
    ensures
        is_clock_notation(hours + seq![':'] + minutes + seq![':'] + seconds),
        clock_hours(hours + seq![':'] + minutes + seq![':'] + seconds) == hours,
        clock_minutes(hours + seq![':'] + minutes + seq![':'] + seconds) == minutes,
        clock_seconds(hours + seq![':'] + minutes + seq![':'] + seconds) == seconds,
{
    let rest = minutes + seq![':'] + seconds;
    assert(hours + seq![':'] + minutes + seq![':'] + seconds =~= hours + seq![':'] + rest);
    lemma_split(hours, ':', rest);
    lemma_split(minutes, ':', seconds);
}

/// Two runs of digits with a colon between are in clock notation: they are its hours and
/// its minutes, and it has no seconds.
pub proof fn lemma_clock_two_fields(hours: Seq<char>, minutes: Seq<char>)
    requires
        all_digits(hours),
        all_digits(minutes),
    ensures
        is_clock_notation(hours + seq![':'] + minutes),
        clock_hours(hours + seq![':'] + minutes) == hours,
        clock_minutes(hours + seq![':'] + minutes) == minutes,
        clock_seconds(hours + seq![':'] + minutes) == Seq::<char>::empty(),
{
    lemma_split(hours, ':', minutes);
    lemma_unsplit(minutes, ':');
}

/// A text in clock notation is its fields with colons between: two fields where it holds
/// one colon, three where it holds two.
pub proof fn lemma_clock_shape(s: Seq<char>)
    requires
        is_clock_notation(s),
    ensures
        s == clock_hours(s) + seq![':'] + clock_minutes(s) || s == clock_hours(s) + seq![':']
            + clock_minutes(s) + seq![':'] + clock_seconds(s),
{
    let rest = after(s, ':');
    lemma_find(s, ':');
    lemma_find(rest, ':');
    if find(rest, ':') < rest.len() {
        assert(s =~= clock_hours(s) + seq![':'] + clock_minutes(s) + seq![':'] + clock_seconds(
            s,
        ));
    } else {
        assert(s =~= clock_hours(s) + seq![':'] + clock_minutes(s));
    }
}

/// Two runs of digits with a dot or a comma between are in decimal notation: they are the
/// whole part and the fraction.
pub proof fn lemma_decimal_two_parts(whole: Seq<char>, separator: char, fraction: Seq<char>)
    requires
        all_digits(whole),
        all_digits(fraction),
        separator == '.' || separator == ',',
    ensures
        is_decimal_notation(whole + seq![separator] + fraction),
        before(comma_to_dot(whole + seq![separator] + fraction), '.') == whole,
        after(comma_to_dot(whole + seq![separator] + fraction), '.') == fraction,
{
    let s = whole + seq![separator] + fraction;
    if separator == ',' {
        lemma_split(whole, ',', fraction);
    } else {
        lemma_find(s, ',');
        let at = find(s, ',');
        if at < s.len() {
            if at < whole.len() {
                assert(is_digit(whole[at]));
            } else {
                assert(is_digit(fraction[at - whole.len() - 1]));
            }
        }
    }
    assert(comma_to_dot(s) =~= whole + seq!['.'] + fraction);
    lemma_split(whole, '.', fraction);
}

/// A run of digits is in decimal notation: it is the whole part, and there is no fraction.
pub proof fn lemma_decimal_one_part(whole: Seq<char>)
    requires
        all_digits(whole),
    ensures
        is_decimal_notation(whole),
        before(comma_to_dot(whole), '.') == whole,
        after(comma_to_dot(whole), '.') == Seq::<char>::empty(),
{
    lemma_unsplit(whole, ',');
    lemma_unsplit(whole, '.');
}

/// A text whose two fields around the first `c` hold digits only is made of digits and `c`.
pub proof fn lemma_fields_chars(s: Seq<char>, c: char)
    requires
        all_digits(before(s, c)),
        all_digits(after(s, c)),
    ensures
        forall|i: int| 0 <= i < s.len() ==> is_digit(#[trigger] s[i]) || s[i] == c,
{
    lemma_find(s, c);
    let at = find(s, c);
    assert forall|i: int| 0 <= i < s.len() implies is_digit(#[trigger] s[i]) || s[i] == c by {
        if i < at {
            assert(before(s, c)[i] == s[i]);
        } else if i > at {
            assert(after(s, c)[i - at - 1] == s[i]);
        }
    }
}

/// A text in clock notation is made of digits and colons.
pub proof fn lemma_clock_chars(s: Seq<char>)
    requires
        is_clock_notation(s),
    ensures
        forall|i: int| 0 <= i < s.len() ==> is_digit(#[trigger] s[i]) || s[i] == ':',
{
    lemma_find(s, ':');
    let at = find(s, ':');
    let rest = after(s, ':');
    lemma_fields_chars(rest, ':');
    assert forall|i: int| 0 <= i < s.len() implies is_digit(#[trigger] s[i]) || s[i] == ':' by {
        if i < at {
            assert(clock_hours(s)[i] == s[i]);
        } else if i > at {
            assert(rest[i - at - 1] == s[i]);
        }
    }
}

/// A text in decimal notation is made of digits, dots and commas.
pub proof fn lemma_decimal_chars(s: Seq<char>)
    requires
        is_decimal_notation(s),
    ensures
        forall|i: int|
            0 <= i < s.len() ==> is_digit(#[trigger] s[i]) || s[i] == '.' || s[i] == ',',
{
    lemma_find(s, ',');
    let fixed = comma_to_dot(s);
    lemma_fields_chars(fixed, '.');
    assert forall|i: int| 0 <= i < s.len() implies is_digit(#[trigger] s[i]) || s[i] == '.'
        || s[i] == ',' by {
        if i != find(s, ',') {
            assert(fixed[i] == s[i]);
        }
    }
}

/// A character that is neither a digit nor `c`, with no `c` before it, belongs to the
/// field before the first `c`, which therefore does not hold digits only.
pub proof fn lemma_stray(s: Seq<char>, c: char, at: int)
    requires
        0 <= at < s.len(),
        !is_digit(s[at]),
        s[at] != c,
        forall|i: int| 0 <= i < at ==> #[trigger] s[i] != c,
    ensures
        !all_digits(before(s, c)),
{
    lemma_find(s, c);
    let found = find(s, c);
    if found < at {
        assert(s[found] != c);
    }
    assert(before(s, c)[at] == s[at]);
}

/// Made of digits, dots, commas and colons, a text is ASCII.
pub proof fn lemma_ascii(s: Seq<char>)
    requires
        forall|i: int|
            0 <= i < s.len() ==> is_digit(#[trigger] s[i]) || s[i] == '.' || s[i] == ','
                || s[i] == ':',
    ensures
        vstd::utf8::is_ascii_chars(s),
{
    assert forall|i: int| 0 <= i < s.len() implies '\0' <= #[trigger] s[i] <= '\u{7f}' by {
        assert(is_digit(s[i]) || s[i] == '.' || s[i] == ',' || s[i] == ':');
    }
}

/// Where the run of digits that starts at `from` ends.
fn scan_digits(text: &str, from: usize, len: usize) -> (to: usize)
    requires
        text.is_ascii(),
        len == text@.len(),
        from <= len,
    ensures
        from <= to <= len,
        all_digits(text@.subrange(from as int, to as int)),
        to < len ==> !is_digit(text@[to as int]),
{
    let mut to: usize = from;
    while to < len
        invariant
            text.is_ascii(),
            len == text@.len(),
            from <= to <= len,
            all_digits(text@.subrange(from as int, to as int)),
        ensures
            from <= to <= len,
            all_digits(text@.subrange(from as int, to as int)),
            to < len ==> !is_digit(text@[to as int]),
        decreases len - to,
    {
        let byte: u8 = text.get_ascii(to);
        if byte < ZERO || byte > NINE {
            break ;
        }
        proof {
            let grown = text@.subrange(from as int, to + 1);
            assert forall|i: int| 0 <= i < grown.len() implies is_digit(#[trigger] grown[i]) by {
                if i < to - from {
                    assert(text@.subrange(from as int, to as int)[i] == grown[i]);
                }
            }
        }
        to = to + 1;
    }
    to
}

/// The hour, minute and second digits of a text in clock notation; `None` for any other
/// text.
pub fn split_clock<'a>(text: &'a str) -> (fields: Option<(&'a str, &'a str, &'a str)>)
    ensures
        fields is Some <==> is_clock_notation(text@),
        match fields {
            Some((hours, minutes, seconds)) => {
                &&& hours@ == clock_hours(text@)
                &&& minutes@ == clock_minutes(text@)
                &&& seconds@ == clock_seconds(text@)
            },
            None => true,
        },
{
    let ghost s = text@;
    if !text.is_ascii() {
        proof {
            if is_clock_notation(s) {
                lemma_clock_chars(s);
                lemma_ascii(s);
            }
        }
        return None;
    }
    let len: usize = text.unicode_len();
    let first: usize = scan_digits(text, 0, len);
    proof {
        assert forall|i: int| 0 <= i < first implies #[trigger] s[i] != ':' by {
            assert(is_digit(s.subrange(0, first as int)[i]));
        }
    }
    if first == len {
        proof {
            lemma_find_at(s, ':', len as int);
        }
        return None;
    }
    if text.get_ascii(first) != COLON {
        proof {
            lemma_stray(s, ':', first as int);
        }
        return None;
    }
    let ghost rest = s.subrange(first + 1, len as int);
    proof {
        lemma_find_at(s, ':', first as int);
        assert(after(s, ':') == rest);
    }
    let second: usize = scan_digits(text, first + 1, len);
    proof {
        assert forall|i: int| 0 <= i < second - first - 1 implies #[trigger] rest[i] != ':' by {
            assert(is_digit(s.subrange(first + 1, second as int)[i]));
        }
        assert(rest.subrange(0, second - first - 1) =~= s.subrange(first + 1, second as int));
    }
    if second == len {
        proof {
            lemma_find_at(rest, ':', rest.len() as int);
        }
        return Some(
            (
                text.substring_ascii(0, first),
                text.substring_ascii(first + 1, len),
                text.substring_ascii(len, len),
            ),
        );
    }
    if text.get_ascii(second) != COLON {
        proof {
            assert(rest[second - first - 1] == s[second as int]);
            lemma_stray(rest, ':', second - first - 1);
        }
        return None;
    }
    proof {
        assert(rest[second - first - 1] == s[second as int]);
        lemma_find_at(rest, ':', second - first - 1);
        assert(after(rest, ':') =~= s.subrange(second + 1, len as int));
    }
    let third: usize = scan_digits(text, second + 1, len);
    if third < len {
        proof {
            assert(s.subrange(second + 1, len as int)[third - second - 1] == s[third as int]);
        }
        return None;
    }
    Some(
        (
            text.substring_ascii(0, first),
            text.substring_ascii(first + 1, second),
            text.substring_ascii(second + 1, len),
        ),
    )
}

/// The digits before and after the dot of a decimal numeral; `None` for any other text.
pub fn split_numeral<'a>(text: &'a str) -> (fields: Option<(&'a str, &'a str)>)
    ensures
        fields is Some <==> is_decimal_numeral(text@),
        match fields {
            Some((whole, fraction)) => {
                &&& whole@ == before(text@, '.')
                &&& fraction@ == after(text@, '.')
            },
            None => true,
        },
{
    let ghost s = text@;
    if !text.is_ascii() {
        proof {
            if is_decimal_numeral(s) {
                lemma_fields_chars(s, '.');
                lemma_ascii(s);
            }
        }
        return None;
    }
    let len: usize = text.unicode_len();
    let first: usize = scan_digits(text, 0, len);
    proof {
        assert forall|i: int| 0 <= i < first implies #[trigger] s[i] != '.' by {
            assert(is_digit(s.subrange(0, first as int)[i]));
        }
    }
    if first == len {
        proof {
            lemma_find_at(s, '.', len as int);
        }
        return Some((text.substring_ascii(0, len), text.substring_ascii(len, len)));
    }
    if text.get_ascii(first) != DOT {
        proof {
            lemma_stray(s, '.', first as int);
        }
        return None;
    }
    proof {
        lemma_find_at(s, '.', first as int);
    }
    let second: usize = scan_digits(text, first + 1, len);
    if second < len {
        proof {
            assert(after(s, '.')[second - first - 1] == s[second as int]);
        }
        return None;
    }
    Some((text.substring_ascii(0, first), text.substring_ascii(first + 1, len)))
}

/// `text` with its first comma written as a dot.
pub fn fix_comma(text: &str) -> (fixed: String)
    ensures
        fixed@ == comma_to_dot(text@),
{
    let ghost s = text@;
    let ascii: bool = text.is_ascii();
    let len: usize = text.unicode_len();
    let mut at: usize = 0;
    while at < len
        invariant
            ascii == text.is_ascii(),
            len == text@.len(),
            at <= len,
            forall|i: int| 0 <= i < at ==> #[trigger] text@[i] != ',',
        ensures
            at <= len,
            forall|i: int| 0 <= i < at ==> #[trigger] text@[i] != ',',
            at < len ==> text@[at as int] == ',',
        decreases len - at,
    {
        let comma: bool = if ascii {
            text.get_ascii(at) == COMMA
        } else {
            text.get_char(at) == ','
        };
        if comma {
            break ;
        }
        at = at + 1;
    }
    proof {
        lemma_find_at(s, ',', at as int);
    }
    if at == len {
        return text.to_owned();
    }
    let mut fixed = String::new();
    if ascii {
        fixed.append(text.substring_ascii(0, at));
        fixed.append(".");
        fixed.append(text.substring_ascii(at + 1, len));
    } else {
        fixed.append(text.substring_char(0, at));
        fixed.append(".");
        fixed.append(text.substring_char(at + 1, len));
    }
    proof {
        reveal_strlit(".");
        assert(fixed@ =~= s.update(at as int, '.'));
    }
    fixed
}

/// Tells the notation of a text: clock notation where it fits, else decimal notation where
/// that fits, else none.
pub fn detect(text: &str) -> (found: Option<Notation>)
    ensures
        found == notation_of(text@),
{
    if split_clock(text).is_some() {
        return Some(Notation::Clock);
    }
    let fixed = fix_comma(text);
    if split_numeral(fixed.as_str()).is_some() {
        Some(Notation::Decimal)
    } else {
        None
    }
}

} // verus!
