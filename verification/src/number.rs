//! Decimal integers as text: what a line of input means.

use vstd::prelude::*;

verus! {

/// The characters that surround a number without belonging to it: those with
/// the Unicode property White_Space.
pub open spec fn is_whitespace(c: char) -> bool {
    let code = c as u32;
    ||| 0x09 <= code <= 0x0D
    ||| code == 0x20
    ||| code == 0x85
    ||| code == 0xA0
    ||| code == 0x1680
    ||| 0x2000 <= code <= 0x200A
    ||| code == 0x2028
    ||| code == 0x2029
    ||| code == 0x202F
    ||| code == 0x205F
    ||| code == 0x3000
}

/// The character is one of `0` to `9`.
pub open spec fn is_digit(c: char) -> bool {
    '0' <= c <= '9'
}

/// Every character of `text` is a digit.
pub open spec fn all_digits(text: Seq<char>) -> bool {
    forall|i: int| 0 <= i < text.len() ==> is_digit(#[trigger] text[i])
}

/// The number that a string of digits writes in base 10.
pub open spec fn digits_value(digits: Seq<char>) -> int
    decreases digits.len(),
{
    if digits.len() == 0 {
        0
    } else {
        10 * digits_value(digits.drop_last()) + (digits.last() as int - '0' as int)
    }
}

/// The number that the digits write, negated where `negative`: `None`
/// unless there is a digit, nothing but digits, and the value has 32 bits.
pub open spec fn number_of(digits: Seq<char>, negative: bool) -> Option<i32> {
    let value = if negative {
        -digits_value(digits)
    } else {
        digits_value(digits)
    };
    if digits.len() > 0 && all_digits(digits) && i32::MIN <= value <= i32::MAX {
        Some(value as i32)
    } else {
        None
    }
}

/// The number that `text` writes: an optional `+` or `-`, then one digit or
/// more, and nothing else.
pub open spec fn integer_of(text: Seq<char>) -> Option<i32> {
    if text.len() > 0 && text[0] == '-' {
        number_of(text.drop_first(), true)
    } else if text.len() > 0 && text[0] == '+' {
        number_of(text.drop_first(), false)
    } else {
        number_of(text, false)
    }
}

/// The number of whitespace characters at the start of `text`.
pub open spec fn leading_whitespace(text: Seq<char>) -> nat
    decreases text.len(),
{
    if text.len() > 0 && is_whitespace(text[0]) {
        1 + leading_whitespace(text.drop_first())
    } else {
        0
    }
}

/// The number of whitespace characters at the end of `text`.
pub open spec fn trailing_whitespace(text: Seq<char>) -> nat
    decreases text.len(),
{
    if text.len() > 0 && is_whitespace(text.last()) {
        1 + trailing_whitespace(text.drop_last())
    } else {
        0
    }
}

/// `text` without the whitespace at its start and at its end.
pub open spec fn trimmed(text: Seq<char>) -> Seq<char> {
    let start = leading_whitespace(text) as int;
    let rest = text.subrange(start, text.len() as int);
    rest.subrange(0, rest.len() - trailing_whitespace(rest))
}

/// Tells whether a character is whitespace.
pub fn whitespace(c: char) -> (result: bool)
    ensures
        result == is_whitespace(c),
{
    let code = c as u32;
    (0x09 <= code && code <= 0x0D) || code == 0x20 || code == 0x85 || code == 0xA0 || code
        == 0x1680 || (0x2000 <= code && code <= 0x200A) || code == 0x2028 || code == 0x2029
        || code == 0x202F || code == 0x205F || code == 0x3000
}

/// The characters of a string.
pub fn characters(text: &str) -> (chars: Vec<char>)
    ensures
        chars@ == text@,
{
    let mut chars: Vec<char> = Vec::new();
    for c in it: text.chars()
        invariant
            chars@ == it.seq().take(it.index() as int),
    {
        chars.push(c);
    }
    chars
}

/// A string of digits is worth at least as much as each of its prefixes.
pub proof fn lemma_digits_value_grows(digits: Seq<char>, k: int)
    requires
        all_digits(digits),
        0 <= k <= digits.len(),
    ensures
        0 <= digits_value(digits.take(k)) <= digits_value(digits),
    decreases digits.len() - k,
{
    if k == digits.len() {
        assert(digits.take(k) =~= digits);
        lemma_digits_value_is_natural(digits);
    } else {
        lemma_digits_value_grows(digits, k + 1);
        assert(digits.take(k + 1).drop_last() =~= digits.take(k));
        assert(is_digit(digits[k]));
        assert(digits.take(k + 1).last() == digits[k]);
        lemma_digits_value_is_natural(digits.take(k));
    }
}

/// A string of digits writes no negative number.
pub proof fn lemma_digits_value_is_natural(digits: Seq<char>)
    requires
        all_digits(digits),
    ensures
        0 <= digits_value(digits),
    decreases digits.len(),
{
    if digits.len() > 0 {
        assert(is_digit(digits.last()));
        lemma_digits_value_is_natural(digits.drop_last());
    }
}

/// Reads the digits `chars[from..to]` as a number, negated where `negative`.
pub fn read_digits(chars: &Vec<char>, from: usize, to: usize, negative: bool) -> (result: Option<
    i32,
>)
    requires
        from <= to <= chars.len(),
    ensures
        result == number_of(chars@.subrange(from as int, to as int), negative),
{
    let ghost digits = chars@.subrange(from as int, to as int);
    if from == to {
        return None;
    }
    let mut magnitude: i64 = 0;
    let mut i: usize = from;
    while i < to
        invariant
            from <= i <= to <= chars.len(),
            digits == chars@.subrange(from as int, to as int),
            all_digits(digits.take(i - from)),
            magnitude == digits_value(digits.take(i - from)),
            0 <= magnitude <= 0x8000_0000,
        decreases to - i,
    {
        let c = chars[i];
        assert(digits[i - from] == c);
        if c < '0' || c > '9' {
            return None;
        }
        let digit: i64 = (c as u32 - '0' as u32) as i64;
        proof {
            assert(digits.take(i - from + 1).drop_last() =~= digits.take(i - from));
            assert(digits.take(i - from + 1).last() == c);
            assert forall|j: int| 0 <= j < i - from + 1 implies is_digit(
                #[trigger] digits.take(i - from + 1)[j],
            ) by {
                if j < i - from {
                    assert(digits.take(i - from)[j] == digits[j]);
                }
            }
        }
        let next: i64 = magnitude * 10 + digit;
        if next > 0x8000_0000 {
            proof {
                if all_digits(digits) {
                    lemma_digits_value_grows(digits, i - from + 1);
                }
            }
            return None;
        }
        magnitude = next;
        i += 1;
    }
    assert(digits.take(to - from) =~= digits);
    if negative {
        Some((-magnitude) as i32)
    } else if magnitude <= 0x7FFF_FFFF {
        Some(magnitude as i32)
    } else {
        None
    }
}

/// Reads a line of input as a number: the whitespace around it is dropped,
/// and what is left must be a decimal integer of 32 bits, with or without a
/// sign.
pub fn parse_integer(line: &str) -> (result: Option<i32>)
    ensures
        result == integer_of(trimmed(line@)),
{
    let chars = characters(line);
    let len = chars.len();
    let mut start: usize = 0;
    assert(chars@.subrange(0, len as int) =~= chars@);
    while start < len && whitespace(chars[start])
        invariant
            start <= len == chars.len(),
            leading_whitespace(chars@) == start + leading_whitespace(
                chars@.subrange(start as int, len as int),
            ),
        decreases len - start,
    {
        proof {
            let rest = chars@.subrange(start as int, len as int);
            assert(rest[0] == chars[start as int]);
            assert(rest.drop_first() =~= chars@.subrange(start + 1, len as int));
        }
        start += 1;
    }
    let ghost rest = chars@.subrange(start as int, len as int);
    proof {
        if start < len {
            assert(rest[0] == chars[start as int]);
        }
        assert(leading_whitespace(rest) == 0);
    }
    let mut end: usize = len;
    while end > start && whitespace(chars[end - 1])
        invariant
            start <= end <= len == chars.len(),
            rest == chars@.subrange(start as int, len as int),
            trailing_whitespace(rest) == (len - end) + trailing_whitespace(
                chars@.subrange(start as int, end as int),
            ),
        decreases end,
    {
        proof {
            let kept = chars@.subrange(start as int, end as int);
            assert(kept.last() == chars[end - 1]);
            assert(kept.drop_last() =~= chars@.subrange(start as int, end - 1));
        }
        end -= 1;
    }
    proof {
        let kept = chars@.subrange(start as int, end as int);
        if end > start {
            assert(kept.last() == chars[end - 1]);
        }
        assert(trailing_whitespace(kept) == 0);
        assert(trimmed(line@) =~= kept);
    }
    read_integer(&chars, start, end)
}

/// Reads `chars[from..to]` as a number: an optional sign and digits.
pub fn read_integer(chars: &Vec<char>, from: usize, to: usize) -> (result: Option<i32>)
    requires
        from <= to <= chars.len(),
    ensures
        result == integer_of(chars@.subrange(from as int, to as int)),
{
    let ghost text = chars@.subrange(from as int, to as int);
    if from < to && chars[from] == '-' {
        assert(text.drop_first() =~= chars@.subrange(from + 1, to as int));
        read_digits(chars, from + 1, to, true)
    } else if from < to && chars[from] == '+' {
        assert(text.drop_first() =~= chars@.subrange(from + 1, to as int));
        read_digits(chars, from + 1, to, false)
    } else {
        read_digits(chars, from, to, false)
    }
}

/// Reads a piece of text as a number: an optional sign and digits, and
/// nothing around them.
pub fn parse_number(text: &str) -> (result: Option<i32>)
    ensures
        result == integer_of(text@),
{
    let chars = characters(text);
    assert(chars@.subrange(0, chars.len() as int) =~= chars@);
    read_integer(&chars, 0, chars.len())
}

} // verus!
