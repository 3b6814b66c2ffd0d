//! Characters and strings: what the codecs need of them.

use vstd::arithmetic::div_mod::{lemma_breakdown, lemma_div_denominator, lemma_small_mod};
use vstd::prelude::*;

verus! {

/// `String::push` appends one character and changes nothing else.
pub assume_specification[ String::push ](s: &mut String, c: char)
    ensures
        final(s)@ == old(s)@.push(c),
;

/// `c` is one of `0` to `9`.
pub open spec fn is_decimal_digit(c: char) -> bool {
    '0' <= c <= '9'
}

/// The number that a decimal digit stands for.
pub open spec fn digit_value(c: char) -> u8
    recommends
        is_decimal_digit(c),
{
    (c as int - '0' as int) as u8
}

/// The decimal digit that stands for a number below ten.
pub open spec fn digit_char(d: u8) -> char
    recommends
        d < 10,
{
    ('0' as u8 + d) as char
}

/// Every character is a decimal digit.
pub open spec fn all_decimal_digits(s: Seq<char>) -> bool {
    forall|i: int| 0 <= i < s.len() ==> is_decimal_digit(#[trigger] s[i])
}

/// Ten to the power of `exponent`.
pub open spec fn pow10(exponent: nat) -> nat
    decreases exponent,
{
    if exponent == 0 {
        1
    } else {
        10 * pow10((exponent - 1) as nat)
    }
}

/// The number that decimal digits spell, the most significant first.
pub open spec fn decimal_value(digits: Seq<char>) -> nat
    decreases digits.len(),
{
    if digits.len() == 0 {
        0
    } else {
        10 * decimal_value(digits.drop_last()) + digit_value(digits.last()) as nat
    }
}

/// The lowest `width` decimal digits of a number, the most significant
/// first, with zeros in front where the number has fewer.
pub open spec fn decimal_text(value: nat, width: nat) -> Seq<char> {
    Seq::new(width, |i: int| digit_char(((value / pow10((width - 1 - i) as nat)) % 10) as u8))
}

/// The characters of a string, in order.
pub fn chars_of(s: &str) -> (chars: Vec<char>)
    ensures
        chars@ == s@,
{
    let mut chars: Vec<char> = Vec::new();
    for c in it: s.chars()
        invariant
            it.seq() == s@,
            chars@ == it.seq().take(it.index()),
    {
        assert(it.seq().take(it.index()).push(c) == it.seq().take(it.index() + 1));
        chars.push(c);
    }
    chars
}

/// The number of a decimal digit; `None` for any other character.
pub fn to_digit(c: char) -> (d: Option<u8>)
    ensures
        d == if is_decimal_digit(c) {
            Some(digit_value(c))
        } else {
            None
        },
        d matches Some(digit) ==> digit < 10,
{
    if '0' <= c && c <= '9' {
        Some((c as u32 - '0' as u32) as u8)
    } else {
        None
    }
}

/// The decimal digit of a number below ten.
pub fn from_digit(d: u8) -> (c: char)
    requires
        d < 10,
    ensures
        c == digit_char(d),
        is_decimal_digit(c),
        digit_value(c) == d,
{
    ('0' as u8 + d) as char
}

/// The powers of ten grow, and up to the nineteenth they fit in 64 bits.
pub proof fn lemma_pow10(lower: nat, upper: nat)
    requires
        lower <= upper,
    ensures
        0 < pow10(lower) <= pow10(upper),
        pow10(19) == 10_000_000_000_000_000_000,
    decreases upper,
{
    assert(pow10(19) == 10_000_000_000_000_000_000) by {
        reveal_with_fuel(pow10, 20);
    }
    if upper > 0 {
        let below = (upper - 1) as nat;
        lemma_pow10(if lower <= below {
            lower
        } else {
            below
        }, below);
    }
}

/// The number that the decimal digits from `from` up to `to` spell.
pub fn parse_decimal(digits: &[char], from: usize, to: usize) -> (value: u64)
    requires
        from <= to <= digits.len(),
        to - from <= 19,
        all_decimal_digits(digits@),
    ensures
        value == decimal_value(digits@.subrange(from as int, to as int)),
        value < pow10((to - from) as nat),
{
    let mut value: u64 = 0;
    let mut i: usize = from;
    assert(digits@.subrange(from as int, from as int) =~= Seq::<char>::empty());
    while i < to
        invariant
            from <= i <= to <= digits.len(),
            to - from <= 19,
            all_decimal_digits(digits@),
            value == decimal_value(digits@.subrange(from as int, i as int)),
            value < pow10((i - from) as nat),
        decreases to - i,
    {
        let digit = match to_digit(digits[i]) {
            Some(digit) => digit,
            None => 0,
        };
        proof {
            assert(is_decimal_digit(digits@[i as int]));
            let next = digits@.subrange(from as int, i + 1);
            assert(next.drop_last() =~= digits@.subrange(from as int, i as int));
            assert(next.last() == digits@[i as int]);
            lemma_pow10((i + 1 - from) as nat, 19);
        }
        value = value * 10 + digit as u64;
        i += 1;
    }
    value
}

/// Appends the lowest `width` decimal digits of `value`, the most
/// significant first, with zeros in front where the number has fewer.
pub fn push_decimal(out: &mut String, value: u64, width: usize)
    requires
        width <= 19,
    ensures
        final(out)@ == old(out)@ + decimal_text(value as nat, width as nat),
{
    let ghost before = out@;
    let ghost text = decimal_text(value as nat, width as nat);
    let mut divisor: u64 = 1;
    let mut k: usize = 1;
    while k < width
        invariant
            1 <= k,
            k <= width || width == 0,
            width <= 19,
            divisor == pow10((k - 1) as nat),
        decreases width - k,
    {
        proof {
            lemma_pow10(k as nat, 19);
        }
        divisor = divisor * 10;
        k += 1;
    }
    let mut i: usize = 0;
    assert(before + text.take(0) =~= before);
    while i < width
        invariant
            i <= width <= 19,
            text == decimal_text(value as nat, width as nat),
            out@ == before + text.take(i as int),
            i < width ==> divisor == pow10((width - 1 - i) as nat),
        decreases width - i,
    {
        proof {
            lemma_pow10((width - 1 - i) as nat, 19);
        }
        let digit = ((value / divisor) % 10) as u8;
        out.push(from_digit(digit));
        divisor = divisor / 10;
        proof {
            assert(before + text.take(i + 1) =~= (before + text.take(i as int)).push(
                digit_char(digit),
            ));
        }
        i += 1;
    }
    assert(text.take(width as int) =~= text);
}

/// A number that is written in decimal digits and read again is the number,
/// but for what did not fit in the width.
pub proof fn lemma_decimal_value_of_text(value: nat, width: nat)
    ensures
        decimal_value(decimal_text(value, width)) == value % pow10(width),
        value < pow10(width) ==> decimal_value(decimal_text(value, width)) == value,
    decreases width,
{
    lemma_pow10(0, width);
    if width > 0 {
        let text = decimal_text(value, width);
        let shorter = decimal_text(value / 10, (width - 1) as nat);
        lemma_decimal_value_of_text(value / 10, (width - 1) as nat);
        assert forall|i: int| 0 <= i < width - 1 implies text[i] == shorter[i] by {
            let place = pow10((width - 2 - i) as nat);
            lemma_pow10(0, (width - 2 - i) as nat);
            assert(pow10((width - 1 - i) as nat) == 10 * place);
            lemma_div_denominator(value as int, 10, place as int);
        }
        assert(text.drop_last() =~= shorter);
        assert(text.last() == digit_char((value % 10) as u8)) by {
            let place = pow10((width - 1 - (width - 1)) as nat);
            assert(place == 1);
            assert(value / place == value);
            assert(text[width - 1] == digit_char(((value / place) % 10) as u8));
        }
        lemma_pow10(0, (width - 1) as nat);
        lemma_breakdown(value as int, 10, pow10((width - 1) as nat) as int);
    }
    if value < pow10(width) {
        lemma_small_mod(value, pow10(width));
    }
}

/// What `decimal_text` writes are decimal digits, as many as asked for.
pub proof fn lemma_decimal_text_is_digits(value: nat, width: nat)
    ensures
        decimal_text(value, width).len() == width,
        all_decimal_digits(decimal_text(value, width)),
{
    let text = decimal_text(value, width);
    assert forall|i: int| 0 <= i < text.len() implies is_decimal_digit(#[trigger] text[i]) by {
        let digit = ((value / pow10((width - 1 - i) as nat)) % 10) as u8;
        lemma_pow10((width - 1 - i) as nat, (width - 1 - i) as nat);
        assert(text[i] == digit_char(digit));
    }
}

} // verus!
