//! Scanning of text: fields between separators, decimal numbers, and
//! comparison of strings.

use vstd::prelude::*;

verus! {

/// The fields of a text: the pieces between the occurrences of the
/// separator, in order. A text without a separator is one field, and so
/// is the empty text.
pub open spec fn fields(text: Seq<char>, separator: char) -> Seq<Seq<char>>
    decreases text.len(),
{
    if text.len() == 0 {
        seq![Seq::empty()]
    } else {
        let before = fields(text.drop_last(), separator);
        if text.last() == separator {
            before.push(Seq::empty())
        } else {
            before.update(before.len() - 1, before.last().push(text.last()))
        }
    }
}

/// The texts of a list of strings, in order.
pub open spec fn texts(parts: Seq<&str>) -> Seq<Seq<char>> {
    Seq::new(parts.len(), |i: int| parts[i]@)
}

/// A text has at least one field, and a separator ends the field before it.
pub proof fn lemma_fields_nonempty(text: Seq<char>, separator: char)
    ensures
        fields(text, separator).len() >= 1,
    decreases text.len(),
{
    if text.len() > 0 {
        lemma_fields_nonempty(text.drop_last(), separator);
    }
}

/// The characters of a string, in order.
pub fn chars_of(text: &str) -> (chars: Vec<char>)
    ensures
        chars@ == text@,
{
    let mut chars: Vec<char> = Vec::new();
    for c in it: text.chars()
        invariant
            chars@ == it.seq().take(it.index() as int),
            it.seq() == text@,
    {
        chars.push(c);
        assert(chars@ =~= it.seq().take(it.index() + 1));
    }
    assert(chars@ =~= text@);
    chars
}

/// Whether two strings hold the same text.
pub fn same_text(a: &str, b: &str) -> (same: bool)
    ensures
        same == (a@ == b@),
{
    let left = chars_of(a);
    let right = chars_of(b);
    if left.len() != right.len() {
        return false;
    }
    let mut i: usize = 0;
    while i < left.len()
        invariant
            left@ == a@,
            right@ == b@,
            left@.len() == right@.len(),
            i <= left@.len(),
            left@.take(i as int) == right@.take(i as int),
        decreases left@.len() - i,
    {
        if left[i] != right[i] {
            assert(a@[i as int] != b@[i as int]);
            return false;
        }
        assert(left@.take(i + 1) =~= left@.take(i as int).push(left@[i as int]));
        assert(right@.take(i + 1) =~= right@.take(i as int).push(right@[i as int]));
        i = i + 1;
    }
    assert(left@.take(i as int) =~= left@);
    assert(right@.take(i as int) =~= right@);
    true
}

/// Cuts a string into its fields.
pub fn split<'a>(text: &'a str, separator: char) -> (parts: Vec<&'a str>)
    ensures
        texts(parts@) == fields(text@, separator),
{
    let length = text.unicode_len();
    let mut parts: Vec<&'a str> = Vec::new();
    let mut start: usize = 0;
    let mut i: usize = 0;
    for c in it: text.chars()
        invariant
            it.seq() == text@,
            length == text@.len(),
            i == it.index(),
            start <= i <= length,
            fields(text@.take(i as int), separator).len() == parts@.len() + 1,
            forall|k: int|
                0 <= k < parts@.len() ==> (#[trigger] parts@[k])@ == fields(
                    text@.take(i as int),
                    separator,
                )[k],
            fields(text@.take(i as int), separator).last() == text@.subrange(
                start as int,
                i as int,
            ),
    {
        let ghost before = fields(text@.take(i as int), separator);
        proof {
            assert(text@.take(i + 1).drop_last() =~= text@.take(i as int));
            assert(text@.take(i + 1).last() == c);
        }
        if c == separator {
            parts.push(text.substring_char(start, i));
            start = i + 1;
            proof {
                assert(text@.subrange(start as int, i + 1) =~= Seq::<char>::empty());
            }
        } else {
            proof {
                assert(text@.subrange(start as int, i + 1) =~= text@.subrange(
                    start as int,
                    i as int,
                ).push(c));
            }
        }
        i = i + 1;
    }
    proof {
        assert(text@.take(i as int) =~= text@);
    }
    parts.push(text.substring_char(start, i));
    proof {
        assert(texts(parts@) =~= fields(text@, separator));
    }
    parts
}

/// Whether a character is a decimal digit.
pub open spec fn is_digit(c: char) -> bool {
    '0' <= c <= '9'
}

/// The number that a decimal digit stands for.
pub open spec fn digit_value(c: char) -> int {
    c as int - '0' as int
}

/// Whether a text is made of decimal digits only.
pub open spec fn all_digits(digits: Seq<char>) -> bool {
    forall|i: int| 0 <= i < digits.len() ==> is_digit(#[trigger] digits[i])
}

/// The number that a text of decimal digits stands for.
pub open spec fn digits_value(digits: Seq<char>) -> int
    decreases digits.len(),
{
    if digits.len() == 0 {
        0
    } else {
        digits_value(digits.drop_last()) * 10 + digit_value(digits.last())
    }
}

/// How many characters of a text are its sign: one where it opens with
/// `+`, or with `-` where a negative number is accepted.
pub open spec fn sign_len(text: Seq<char>, negative_allowed: bool) -> int {
    if text.len() > 0 && (text[0] == '+' || (negative_allowed && text[0] == '-')) {
        1
    } else {
        0
    }
}

/// The number that a text stands for in decimal notation: an optional
/// sign, then at least one digit and nothing else.
pub open spec fn decimal(text: Seq<char>, negative_allowed: bool) -> Option<int> {
    let digits = text.skip(sign_len(text, negative_allowed));
    if digits.len() > 0 && all_digits(digits) {
        if sign_len(text, negative_allowed) == 1 && text[0] == '-' {
            Some(-digits_value(digits))
        } else {
            Some(digits_value(digits))
        }
    } else {
        None
    }
}

/// The `i32` that a text stands for, if it stands for one.
pub open spec fn parsed_i32(text: Seq<char>) -> Option<i32> {
    match decimal(text, true) {
        Some(value) => if i32::MIN <= value <= i32::MAX {
            Some(value as i32)
        } else {
            None
        },
        None => None,
    }
}

/// The `u8` that a text stands for, if it stands for one.
pub open spec fn parsed_u8(text: Seq<char>) -> Option<u8> {
    match decimal(text, false) {
        Some(value) => if value <= u8::MAX {
            Some(value as u8)
        } else {
            None
        },
        None => None,
    }
}

/// A number is at least as large as the number that any of its leading
/// digits stand for.
pub proof fn lemma_digits_value_grows(digits: Seq<char>, count: int)
    requires
        all_digits(digits),
        0 <= count <= digits.len(),
    ensures
        0 <= digits_value(digits.take(count)) <= digits_value(digits),
    decreases digits.len(),
{
    if count == digits.len() {
        assert(digits.take(count) =~= digits);
        if count > 0 {
            lemma_digits_value_grows(digits.drop_last(), count - 1);
            assert(digits.drop_last().take(count - 1) =~= digits.drop_last());
            assert(is_digit(digits[count - 1]));
        }
    } else {
        lemma_digits_value_grows(digits.drop_last(), count);
        assert(digits.drop_last().take(count) =~= digits.take(count));
        assert(is_digit(digits[digits.len() - 1]));
    }
}

/// Reads a decimal number whose magnitude is at most `limit`.
fn scan_decimal(text: &str, negative_allowed: bool, limit: i64) -> (value: Option<i64>)
    requires
        0 <= limit <= 0x1_0000_0000,
    ensures
        value == match decimal(text@, negative_allowed) {
            Some(number) => if -limit <= number <= limit {
                Some(number as i64)
            } else {
                None
            },
            None => None,
        },
{
    let length = text.unicode_len();
    let ghost skip = sign_len(text@, negative_allowed);
    let ghost digits = text@.skip(skip);
    let mut negative = false;
    let mut magnitude: i64 = 0;
    let mut i: usize = 0;
    for c in it: text.chars()
        invariant
            it.seq() == text@,
            length == text@.len(),
            i == it.index(),
            i <= length,
            skip == sign_len(text@, negative_allowed),
            digits == text@.skip(skip),
            i >= 1 ==> i >= skip,
            negative == (i >= 1 && skip == 1 && text@[0] == '-'),
            i >= skip ==> all_digits(digits.take(i - skip)) && magnitude == digits_value(
                digits.take(i - skip),
            ),
            i < skip ==> magnitude == 0,
            0 <= magnitude <= limit <= 0x1_0000_0000,
    {
        if i == 0 && (c == '+' || (negative_allowed && c == '-')) {
            negative = c == '-';
            proof {
                assert(digits.take(0) =~= Seq::<char>::empty());
            }
        } else if c >= '0' && c <= '9' {
            let digit: i64 = (c as u32 - '0' as u32) as i64;
            proof {
                assert(0 <= digit <= 9 && digit == digit_value(c));
                assert(digits[i - skip] == c);
                assert(digits.take(i + 1 - skip).drop_last() =~= digits.take(i - skip));
                assert(digits.take(i + 1 - skip).last() == c);
            }
            magnitude = magnitude * 10 + digit;
            if magnitude > limit {
                proof {
                    if all_digits(digits) {
                        lemma_digits_value_grows(digits, i + 1 - skip);
                    }
                }
                return None;
            }
        } else {
            proof {
                assert(digits[i - skip] == c);
            }
            return None;
        }
        i = i + 1;
    }
    proof {
        assert(digits.take(i - skip) =~= digits) by {
            if i >= skip {
            }
        }
    }
    if i == 0 || (i == 1 && (text.get_char(0) == '+' || (negative_allowed && text.get_char(0)
        == '-'))) {
        return None;
    }
    if negative {
        Some(-magnitude)
    } else {
        Some(magnitude)
    }
}

/// Reads an `i32` in decimal notation.
pub fn parse_i32(text: &str) -> (value: Option<i32>)
    ensures
        value == parsed_i32(text@),
{
    match scan_decimal(text, true, 0x8000_0000) {
        Some(number) => if number <= 0x7fff_ffff {
            Some(number as i32)
        } else {
            None
        },
        None => None,
    }
}

/// Reads a `u8` in decimal notation.
pub fn parse_u8(text: &str) -> (value: Option<u8>)
    ensures
        value == parsed_u8(text@),
{
    proof {
        let digits = text@.skip(sign_len(text@, false));
        if all_digits(digits) {
            lemma_digits_value_grows(digits, 0);
        }
    }
    match scan_decimal(text, false, 255) {
        Some(number) => Some(number as u8),
        None => None,
    }
}

} // verus!
