//! Decimal digits: what a digit string is worth, and how a number is written.

use vstd::prelude::*;

verus! {

/// The ASCII code of the digit zero.
pub const ZERO: u8 = 48;

/// The ASCII code of the digit nine.
pub const NINE: u8 = 57;

/// One of the ten ASCII digits.
pub open spec fn is_digit(c: char) -> bool {
    '0' <= c && c <= '9'
}

/// The number a digit stands for.
pub open spec fn digit_value(c: char) -> nat {
    (c as int - '0' as int) as nat
}

/// The digit that stands for a number below ten.
pub open spec fn digit_char(d: nat) -> char {
    (d + '0' as nat) as char
}

/// Every character is a digit; the empty string qualifies.
pub open spec fn all_digits(s: Seq<char>) -> bool {
    forall|i: int| 0 <= i < s.len() ==> is_digit(#[trigger] s[i])
}

/// The number a digit string denotes in base ten; the empty string denotes zero.
pub open spec fn decimal_value(s: Seq<char>) -> nat
    decreases s.len(),
{
    if s.len() == 0 {
        0
    } else {
        10 * decimal_value(s.drop_last()) + digit_value(s.last())
    }
}

/// Ten to the power `n`.
pub open spec fn pow10(n: nat) -> nat
    decreases n,
{
    if n == 0 {
        1
    } else {
        10 * pow10((n - 1) as nat)
    }
}

/// The shortest digit string that denotes `n`: no leading zero, and `"0"` for zero.
pub open spec fn decimal_digits(n: nat) -> Seq<char>
    decreases n,
{
    if n < 10 {
        seq![digit_char(n)]
    } else {
        decimal_digits(n / 10).push(digit_char(n % 10))
    }
}

/// `count` zero digits.
pub open spec fn zeros(count: nat) -> Seq<char> {
    Seq::new(count, |i: int| '0')
}

/// `n` written with at least `width` digits, zeros filling up on the left.
pub open spec fn padded_digits(n: nat, width: nat) -> Seq<char> {
    let digits = decimal_digits(n);
    if digits.len() >= width {
        digits
    } else {
        zeros((width - digits.len()) as nat) + digits
    }
}

/// The whole part of `scale` times the fraction that `digits` denote after a decimal point:
/// `scale` times `0.digits`, rounded down.
pub open spec fn scaled_fraction(digits: Seq<char>, scale: nat) -> nat {
    scale * decimal_value(digits) / pow10(digits.len())
}

/// The whole number nearest to `n / d`, a half going up.
pub open spec fn round_div(n: nat, d: nat) -> nat {
    (2 * n + d) / (2 * d)
}

/// `count` digits nine.
pub open spec fn nines(count: nat) -> Seq<char> {
    Seq::new(count, |i: int| '9')
}

/// The digit string that denotes one more than `digits` do, written as long as `digits`,
/// or one digit longer where `digits` are all nines.
pub open spec fn successor(digits: Seq<char>) -> Seq<char>
    decreases digits.len(),
{
    if digits.len() == 0 {
        seq!['1']
    } else if digits.last() == '9' {
        successor(digits.drop_last()).push('0')
    } else {
        digits.drop_last().push(digit_char(digit_value(digits.last()) + 1))
    }
}

/// A string of digits is ASCII.
pub proof fn lemma_digits_ascii(s: Seq<char>)
    requires
        all_digits(s),
    ensures
        vstd::utf8::is_ascii_chars(s),
{
    assert forall|i: int| 0 <= i < s.len() implies '\0' <= #[trigger] s[i] <= '\u{7f}' by {
        assert(is_digit(s[i]));
    }
}

/// The powers of ten that the library counts in: a hundred, ten thousand, a million
/// millions.
pub proof fn lemma_pow10_values()
    ensures
        pow10(2) == 100,
        pow10(4) == 10000,
        pow10(12) == 1_000_000_000_000,
{
    reveal_with_fuel(pow10, 13);
}

/// Appending a digit multiplies the value by ten and adds the digit.
pub proof fn lemma_decimal_value_push(s: Seq<char>, c: char)
    ensures
        decimal_value(s.push(c)) == 10 * decimal_value(s) + digit_value(c),
{
    assert(s.push(c).drop_last() =~= s);
}

/// Powers of ten are positive, and each is ten times the one before.
pub proof fn lemma_pow10_positive(n: nat)
    ensures
        pow10(n) > 0,
        pow10(n + 1) == 10 * pow10(n),
    decreases n,
{
    if n > 0 {
        lemma_pow10_positive((n - 1) as nat);
    }
}

/// The value of a concatenation: the left part shifted by the length of the right part,
/// plus the right part.
pub proof fn lemma_decimal_value_concat(a: Seq<char>, b: Seq<char>)
    ensures
        decimal_value(a + b) == decimal_value(a) * pow10(b.len()) + decimal_value(b),
    decreases b.len(),
{
    if b.len() == 0 {
        assert(a + b =~= a);
        assert(pow10(0) == 1);
        assert(decimal_value(b) == 0);
    } else {
        let init = b.drop_last();
        lemma_decimal_value_concat(a, init);
        assert((a + b).drop_last() =~= a + init);
        assert((a + b).last() == b.last());
        lemma_pow10_positive(init.len());
        assert(decimal_value(a) * pow10(b.len()) == 10 * (decimal_value(a) * pow10(init.len())))
            by (nonlinear_arith)
            requires
                pow10(b.len()) == 10 * pow10(init.len()),
        ;
        assert(decimal_value(a + b) == 10 * decimal_value(a + init) + digit_value(b.last()));
        assert(decimal_value(b) == 10 * decimal_value(init) + digit_value(b.last()));
    }
}

/// A string of digits is worth less than ten to the power of its length.
pub proof fn lemma_decimal_value_bound(s: Seq<char>)
    requires
        all_digits(s),
    ensures
        decimal_value(s) < pow10(s.len()),
    decreases s.len(),
{
    if s.len() > 0 {
        lemma_decimal_value_bound(s.drop_last());
        lemma_pow10_positive(s.drop_last().len());
        assert(is_digit(s[s.len() - 1]));
    }
}

/// Leading zeros do not change the value.
pub proof fn lemma_zeros_value(count: nat)
    ensures
        all_digits(zeros(count)),
        decimal_value(zeros(count)) == 0,
    decreases count,
{
    if count > 0 {
        lemma_zeros_value((count - 1) as nat);
        assert(zeros(count).drop_last() =~= zeros((count - 1) as nat));
    }
}

/// `decimal_digits` writes digits only, at least one, and they denote the number written.
pub proof fn lemma_decimal_digits(n: nat)
    ensures
        all_digits(decimal_digits(n)),
        decimal_digits(n).len() >= 1,
        decimal_value(decimal_digits(n)) == n,
    decreases n,
{
    if n < 10 {
        let s = seq![digit_char(n)];
        assert(s.drop_last() =~= Seq::<char>::empty());
        assert(decimal_value(s.drop_last()) == 0);
    } else {
        lemma_decimal_digits(n / 10);
        lemma_decimal_value_push(decimal_digits(n / 10), digit_char(n % 10));
    }
}

/// `padded_digits` writes digits only, at least `width` of them, and they denote the number
/// written; a number below ten to the power `width` gets exactly `width` digits, unless
/// `width` is zero.
pub proof fn lemma_padded_digits(n: nat, width: nat)
    ensures
        all_digits(padded_digits(n, width)),
        padded_digits(n, width).len() >= width,
        padded_digits(n, width).len() >= 1,
        decimal_value(padded_digits(n, width)) == n,
        n < pow10(width) && width >= 1 ==> padded_digits(n, width).len() == width,
{
    let digits = decimal_digits(n);
    lemma_decimal_digits(n);
    lemma_decimal_digits_len(n, width);
    if digits.len() < width {
        let fill = zeros((width - digits.len()) as nat);
        lemma_zeros_value((width - digits.len()) as nat);
        lemma_decimal_value_concat(fill, digits);
        assert(decimal_value(fill) * pow10(digits.len()) == 0) by (nonlinear_arith)
            requires
                decimal_value(fill) == 0,
        ;
    }
}

/// A number below ten to the power `width` is written with at most `width` digits,
/// unless `width` is zero.
pub proof fn lemma_decimal_digits_len(n: nat, width: nat)
    ensures
        n < pow10(width) && width >= 1 ==> decimal_digits(n).len() <= width,
    decreases n,
{
    if n >= 10 && n < pow10(width) && width >= 1 {
        lemma_pow10_positive((width - 1) as nat);
        if width == 1 {
            assert(pow10(1) == 10) by {
                reveal_with_fuel(pow10, 2);
            }
        } else {
            lemma_decimal_digits_len(n / 10, (width - 1) as nat);
        }
    }
}

/// A fraction is less than one, so its multiple stays below the factor.
pub proof fn lemma_scaled_fraction_bound(digits: Seq<char>, scale: nat)
    requires
        all_digits(digits),
    ensures
        scaled_fraction(digits, scale) <= scale,
        scale > 0 ==> scaled_fraction(digits, scale) < scale,
{
    lemma_decimal_value_bound(digits);
    let value = decimal_value(digits);
    let unit = pow10(digits.len());
    assert(scale * value / unit <= scale && (scale > 0 ==> scale * value / unit < scale))
        by (nonlinear_arith)
        requires
            value < unit,
    ;
}

/// With one more digit in front, the multiple is a tenth of what the new digit and the old
/// multiple make together.
pub proof fn lemma_scaled_fraction_step(d: char, rest: Seq<char>, scale: nat)
    requires
        is_digit(d),
    ensures
        scaled_fraction(seq![d] + rest, scale) == (scale * digit_value(d) + scaled_fraction(
            rest,
            scale,
        )) / 10,
{
    let unit = pow10(rest.len());
    let value = decimal_value(rest);
    let digit = digit_value(d);
    lemma_pow10_positive(rest.len());
    lemma_decimal_value_concat(seq![d], rest);
    assert(decimal_value(seq![d]) == digit) by {
        assert(seq![d].drop_last() =~= Seq::<char>::empty());
        assert(decimal_value(seq![d].drop_last()) == 0);
    }
    let all = scale * (digit * unit + value);
    assert(all == scale * value + (scale * digit) * unit && 0 <= all) by (nonlinear_arith)
        requires
            all == scale * (digit * unit + value),
    ;
    vstd::arithmetic::div_mod::lemma_hoist_over_denominator(
        (scale * value) as int,
        (scale * digit) as int,
        unit,
    );
    vstd::arithmetic::div_mod::lemma_div_denominator(all as int, unit as int, 10);
    assert((seq![d] + rest).len() == rest.len() + 1);
}

/// Rounding a multiple of a fraction to the nearest whole number: take twice the multiple,
/// rounded down, add one and halve.
pub proof fn lemma_round_scaled(digits: Seq<char>, scale: nat)
    ensures
        round_div(scale * decimal_value(digits), pow10(digits.len())) == (scaled_fraction(
            digits,
            2 * scale,
        ) + 1) / 2,
{
    let unit = pow10(digits.len());
    let value = decimal_value(digits);
    lemma_pow10_positive(digits.len());
    let doubled = 2 * scale * value;
    assert(doubled == 2 * (scale * value) && 0 <= doubled) by (nonlinear_arith)
        requires
            doubled == 2 * scale * value,
    ;
    vstd::arithmetic::div_mod::lemma_hoist_over_denominator(doubled as int, 1, unit);
    vstd::arithmetic::div_mod::lemma_div_denominator((doubled + unit) as int, unit as int, 2);
    assert(unit * 2 == 2 * unit);
}

/// The successor holds digits only and denotes one more.
pub proof fn lemma_successor(digits: Seq<char>)
    requires
        all_digits(digits),
    ensures
        all_digits(successor(digits)),
        decimal_value(successor(digits)) == decimal_value(digits) + 1,
    decreases digits.len(),
{
    if digits.len() == 0 {
        assert(seq!['1'].drop_last() =~= Seq::<char>::empty());
        assert(decimal_value(seq!['1'].drop_last()) == 0);
    } else {
        let init = digits.drop_last();
        assert(is_digit(digits[digits.len() - 1]));
        assert forall|i: int| 0 <= i < init.len() implies is_digit(#[trigger] init[i]) by {
            assert(init[i] == digits[i]);
        }
        if digits.last() == '9' {
            lemma_successor(init);
            lemma_decimal_value_push(successor(init), '0');
        } else {
            lemma_decimal_value_push(init, digit_char(digit_value(digits.last()) + 1));
        }
    }
}

/// Behind any digits, nines turn into zeros and the digits before them go one up.
pub proof fn lemma_successor_nines(head: Seq<char>, count: nat)
    ensures
        successor(head + nines(count)) == successor(head) + zeros(count),
    decreases count,
{
    if count == 0 {
        assert(head + nines(0) =~= head);
        assert(successor(head) + zeros(0) =~= successor(head));
    } else {
        let less = (count - 1) as nat;
        lemma_successor_nines(head, less);
        assert((head + nines(count)).drop_last() =~= head + nines(less));
        assert(successor(head) + zeros(count) =~= (successor(head) + zeros(less)).push('0'));
    }
}

/// The value of a digit string, held at `u32::MAX` where it would be larger.
pub fn parse_saturating(digits: &str) -> (value: u32)
    requires
        all_digits(digits@),
    ensures
        value as int == vstd::math::min(decimal_value(digits@) as int, u32::MAX as int),
{
    proof {
        lemma_digits_ascii(digits@);
    }
    let len: usize = digits.unicode_len();
    let mut value: u32 = 0;
    let mut i: usize = 0;
    assert(digits@.subrange(0, 0) =~= Seq::<char>::empty());
    while i < len
        invariant
            i <= len,
            len == digits@.len(),
            digits.is_ascii(),
            all_digits(digits@),
            value as int == vstd::math::min(
                decimal_value(digits@.subrange(0, i as int)) as int,
                u32::MAX as int,
            ),
        decreases len - i,
    {
        let byte: u8 = digits.get_ascii(i);
        proof {
            assert(is_digit(digits@[i as int]));
            lemma_decimal_value_push(digits@.subrange(0, i as int), digits@[i as int]);
            assert(digits@.subrange(0, i as int).push(digits@[i as int]) =~= digits@.subrange(
                0,
                i + 1,
            ));
        }
        let wide: u64 = value as u64 * 10 + (byte - ZERO) as u64;
        value = if wide > u32::MAX as u64 {
            u32::MAX
        } else {
            wide as u32
        };
        i = i + 1;
    }
    assert(digits@.subrange(0, len as int) =~= digits@);
    value
}

/// The one-character string that shows a digit.
pub fn digit_str(d: u8) -> (shown: &'static str)
    requires
        d < 10,
    ensures
        shown@ == seq![digit_char(d as nat)],
{
    proof {
        reveal_strlit("0");
        reveal_strlit("1");
        reveal_strlit("2");
        reveal_strlit("3");
        reveal_strlit("4");
        reveal_strlit("5");
        reveal_strlit("6");
        reveal_strlit("7");
        reveal_strlit("8");
        reveal_strlit("9");
    }
    let shown = match d {
        0 => "0",
        1 => "1",
        2 => "2",
        3 => "3",
        4 => "4",
        5 => "5",
        6 => "6",
        7 => "7",
        8 => "8",
        _ => "9",
    };
    assert(shown@ =~= seq![digit_char(d as nat)]);
    shown
}

/// Appends `n` in its shortest decimal form.
pub fn push_decimal(out: &mut String, n: u64)
    ensures
        final(out)@ == old(out)@ + decimal_digits(n as nat),
    decreases n,
{
    if n >= 10 {
        push_decimal(out, n / 10);
    }
    out.append(digit_str((n % 10) as u8));
    proof {
        if n >= 10 {
            assert(final(out)@ =~= old(out)@ + decimal_digits(n as nat));
        }
    }
}

/// How many digits the shortest decimal form of `n` has.
pub fn decimal_len(n: u64) -> (len: usize)
    ensures
        len == decimal_digits(n as nat).len(),
        1 <= len <= 20,
{
    proof {
        assert(pow10(20) == 100_000_000_000_000_000_000) by {
            reveal_with_fuel(pow10, 21);
        }
        lemma_decimal_digits_len(n as nat, 20);
    }
    let mut rest: u64 = n;
    let mut len: usize = 1;
    while rest >= 10
        invariant
            len >= 1,
            decimal_digits(n as nat).len() <= 20,
            decimal_digits(n as nat).len() == decimal_digits(rest as nat).len() + len - 1,
        decreases rest,
    {
        proof {
            lemma_decimal_digits((rest / 10) as nat);
        }
        rest = rest / 10;
        len = len + 1;
    }
    len
}

/// Appends `n` with at least `width` digits, zeros filling up on the left.
pub fn push_padded(out: &mut String, n: u64, width: usize)
    ensures
        final(out)@ == old(out)@ + padded_digits(n as nat, width as nat),
{
    let len: usize = decimal_len(n);
    let mut written: usize = len;
    proof {
        reveal_strlit("0");
        assert(out@ =~= old(out)@ + zeros(0));
    }
    while written < width
        invariant
            len <= written,
            written <= width || written == len,
            out@ == old(out)@ + zeros((written - len) as nat),
        decreases width - written,
    {
        out.append("0");
        proof {
            reveal_strlit("0");
            assert(out@ =~= old(out)@ + zeros((written + 1 - len) as nat));
        }
        written = written + 1;
    }
    push_decimal(out, n);
    assert(out@ =~= old(out)@ + padded_digits(n as nat, width as nat));
}

/// The whole part of `scale` times the fraction that `digits` denote after a decimal point.
pub fn scale_fraction(digits: &str, scale: u32) -> (scaled: u32)
    requires
        all_digits(digits@),
    ensures
        scaled == scaled_fraction(digits@, scale as nat),
{
    proof {
        lemma_digits_ascii(digits@);
    }
    let len: usize = digits.unicode_len();
    let mut scaled: u64 = 0;
    let mut i: usize = len;
    proof {
        let none = digits@.subrange(len as int, len as int);
        assert(none =~= Seq::<char>::empty());
        assert(pow10(0) == 1);
        assert(scale as nat * decimal_value(none) == 0) by (nonlinear_arith)
            requires
                decimal_value(none) == 0,
        ;
    }
    while i > 0
        invariant
            i <= len,
            len == digits@.len(),
            digits.is_ascii(),
            all_digits(digits@),
            scaled == scaled_fraction(digits@.subrange(i as int, len as int), scale as nat),
            scaled <= scale,
        decreases i,
    {
        i = i - 1;
        let byte: u8 = digits.get_ascii(i);
        proof {
            let rest = digits@.subrange(i + 1, len as int);
            let grown = digits@.subrange(i as int, len as int);
            assert(is_digit(digits@[i as int]));
            assert(grown =~= seq![digits@[i as int]] + rest);
            lemma_scaled_fraction_step(digits@[i as int], rest, scale as nat);
            assert forall|k: int| 0 <= k < grown.len() implies is_digit(#[trigger] grown[k]) by {
                assert(grown[k] == digits@[i + k]);
            }
            lemma_scaled_fraction_bound(grown, scale as nat);
        }
        scaled = (scale as u64 * (byte - ZERO) as u64 + scaled) / 10;
    }
    assert(digits@.subrange(0, len as int) =~= digits@);
    scaled as u32
}

/// Appends the digit string that denotes one more than `digits` do: see [`successor`].
pub fn push_successor(out: &mut String, digits: &str)
    requires
        all_digits(digits@),
    ensures
        final(out)@ == old(out)@ + successor(digits@),
{
    proof {
        lemma_digits_ascii(digits@);
    }
    let len: usize = digits.unicode_len();
    let mut kept: usize = len;
    while kept > 0 && digits.get_ascii(kept - 1) == NINE
        invariant
            kept <= len,
            len == digits@.len(),
            digits.is_ascii(),
            forall|i: int| kept <= i < len ==> #[trigger] digits@[i] == '9',
        decreases kept,
    {
        kept = kept - 1;
    }
    let ghost tail = nines((len - kept) as nat);
    assert(digits@.subrange(kept as int, len as int) =~= tail);
    proof {
        reveal_strlit("0");
        reveal_strlit("1");
    }
    if kept == 0 {
        out.append("1");
        proof {
            assert(digits@ =~= Seq::<char>::empty() + tail);
            lemma_successor_nines(Seq::<char>::empty(), (len - kept) as nat);
            assert(out@ =~= old(out)@ + successor(Seq::<char>::empty()));
        }
    } else {
        let last: u8 = digits.get_ascii(kept - 1);
        let ghost head = digits@.subrange(0, kept as int);
        proof {
            assert(is_digit(digits@[kept - 1]));
            assert(digits@ =~= head + tail);
            lemma_successor_nines(head, (len - kept) as nat);
            assert(head.drop_last() =~= digits@.subrange(0, kept - 1));
        }
        out.append(digits.substring_ascii(0, kept - 1));
        out.append(digit_str(last - ZERO + 1));
        proof {
            assert(out@ =~= old(out)@ + successor(head));
        }
    }
    let ghost before_zeros = out@;
    let mut written: usize = kept;
    while written < len
        invariant
            kept <= written <= len,
            out@ == before_zeros + zeros((written - kept) as nat),
        decreases len - written,
    {
        out.append("0");
        proof {
            reveal_strlit("0");
            assert(out@ =~= before_zeros + zeros((written + 1 - kept) as nat));
        }
        written = written + 1;
    }
    proof {
        assert(before_zeros + zeros(0) =~= before_zeros);
        assert(out@ =~= old(out)@ + successor(digits@));
    }
}

} // verus!
