//! Parsing of command-line arguments: pairs of numbers such as `640x480`.

use crate::bounds::ImageBounds;
use vstd::prelude::*;

verus! {

/// The character is one of `0`..`9`.
pub open spec fn is_digit_char(c: char) -> bool {
    '0' <= c <= '9'
}

/// The number that a run of digit characters stands for.
pub open spec fn digits_value(digits: Seq<char>) -> nat
    decreases digits.len(),
{
    if digits.len() == 0 {
        0
    } else {
        (10 * digits_value(digits.drop_last()) + (digits.last() as u32 - '0' as u32)) as nat
    }
}

/// The text without its leading `+`, if it has one.
pub open spec fn unsigned_part(text: Seq<char>) -> Seq<char> {
    if text.len() > 0 && text[0] == '+' {
        text.skip(1)
    } else {
        text
    }
}

/// The number that the text stands for: an optional `+` and then digits,
/// at least one, and nothing else.
pub open spec fn number_spec(text: Seq<char>) -> Option<nat> {
    let digits = unsigned_part(text);
    if digits.len() > 0 && forall|i: int| 0 <= i < digits.len() ==> is_digit_char(#[trigger] digits[i]) {
        Some(digits_value(digits))
    } else {
        None
    }
}

/// The number that the text stands for, where it fits in 64 bits.
pub open spec fn u64_spec(text: Seq<char>) -> Option<u64> {
    match number_spec(text) {
        Some(value) => if value <= u64::MAX {
            Some(value as u64)
        } else {
            None
        },
        None => None,
    }
}

/// The separator stands at `at` and nowhere before.
pub open spec fn is_first(text: Seq<char>, separator: char, at: int) -> bool {
    &&& 0 <= at < text.len()
    &&& text[at] == separator
    &&& forall|i: int| 0 <= i < at ==> text[i] != separator
}

/// The text before the first separator and the text after it, where the
/// text holds the separator.
pub open spec fn split_spec(text: Seq<char>, separator: char) -> Option<(Seq<char>, Seq<char>)> {
    if exists|at: int| is_first(text, separator, at) {
        let at = choose|at: int| is_first(text, separator, at);
        Some((text.take(at), text.skip(at + 1)))
    } else {
        None
    }
}

/// The two numbers that the text holds, one on each side of the first
/// separator.
pub open spec fn pair_spec(text: Seq<char>, separator: char) -> Option<(u64, u64)> {
    match split_spec(text, separator) {
        Some((left, right)) => match (u64_spec(left), u64_spec(right)) {
            (Some(first), Some(second)) => Some((first, second)),
            _ => None,
        },
        None => None,
    }
}

/// The bounds that the text holds, as `WIDTHxHEIGHT`.
pub open spec fn bounds_spec(text: Seq<char>) -> Option<ImageBounds> {
    match pair_spec(text, 'x') {
        Some((width, height)) => if width <= usize::MAX && height <= usize::MAX {
            Some(ImageBounds { width: width as usize, height: height as usize })
        } else {
            None
        },
        None => None,
    }
}

/// A text holds its first separator at one place only.
pub proof fn lemma_first_unique(text: Seq<char>, separator: char, first: int, second: int)
    requires
        is_first(text, separator, first),
        is_first(text, separator, second),
    ensures
        first == second,
{
}

/// A text with a separator is what stands before the first one, the
/// separator, and what stands after it; and the part before holds none.
pub proof fn lemma_split(text: Seq<char>, separator: char)
    ensures
        split_spec(text, separator) is Some <==> text.contains(separator),
        split_spec(text, separator) matches Some((left, right)) ==> text == left + seq![
            separator,
        ] + right && !left.contains(separator),
{
    if text.contains(separator) {
        let some = choose|i: int| 0 <= i < text.len() && text[i] == separator;
        lemma_has_first(text, separator, some);
    }
    if exists|at: int| is_first(text, separator, at) {
        let at = choose|at: int| is_first(text, separator, at);
        assert(text =~= text.take(at) + seq![separator] + text.skip(at + 1));
        assert(text.contains(separator));
    }
}

/// A text that holds the separator somewhere holds a first one.
pub proof fn lemma_has_first(text: Seq<char>, separator: char, at: int)
    requires
        0 <= at < text.len(),
        text[at] == separator,
    ensures
        exists|first: int| is_first(text, separator, first),
    decreases at,
{
    if forall|i: int| 0 <= i < at ==> text[i] != separator {
        assert(is_first(text, separator, at));
    } else {
        let earlier = choose|i: int| 0 <= i < at && text[i] == separator;
        lemma_has_first(text, separator, earlier);
    }
}

/// The text before the first separator and the text after it, or `None`
/// where the text does not hold the separator.
pub fn split_pair<'a>(text: &'a str, separator: char) -> (result: Option<(&'a str, &'a str)>)
    ensures
        result is Some <==> split_spec(text@, separator) is Some,
        result matches Some((left, right)) ==> split_spec(text@, separator) == Some(
            (left@, right@),
        ),
{
    let len = text.unicode_len();
    let mut at: usize = 0;
    while at < len
        invariant
            len == text@.len(),
            at <= len,
            forall|i: int| 0 <= i < at ==> text@[i] != separator,
        decreases len - at,
    {
        if text.get_char(at) == separator {
            proof {
                assert(is_first(text@, separator, at as int));
                let chosen = choose|chosen: int| is_first(text@, separator, chosen);
                lemma_first_unique(text@, separator, at as int, chosen);
            }
            let left = text.substring_char(0, at);
            let right = text.substring_char(at + 1, len);
            return Some((left, right));
        }
        at += 1;
    }
    None
}

/// The number that the text stands for, or `None` where it stands for none
/// that fits in 64 bits.
pub fn parse_u64(text: &str) -> (result: Option<u64>)
    ensures
        result == u64_spec(text@),
{
    let len = text.unicode_len();
    let start: usize = if len > 0 && text.get_char(0) == '+' {
        1
    } else {
        0
    };
    let ghost digits = unsigned_part(text@);
    if start == len {
        return None;
    }
    let mut at: usize = start;
    let mut value: u64 = 0;
    proof {
        assert(text@.skip(0) =~= text@);
    }
    while at < len
        invariant
            len == text@.len(),
            start <= at <= len,
            digits == unsigned_part(text@),
            digits == text@.skip(start as int),
            forall|i: int| 0 <= i < at - start ==> is_digit_char(#[trigger] digits[i]),
            value == digits_value(digits.take(at - start)),
        decreases len - at,
    {
        let c = text.get_char(at);
        if !('0' <= c && c <= '9') {
            proof {
                assert(digits[at - start] == c);
                assert(!is_digit_char(digits[at - start]));
            }
            return None;
        }
        let low = (c as u32 - '0' as u32) as u64;
        let ghost longer = digits.take(at + 1 - start);
        proof {
            assert(digits[at - start] == c);
            assert(longer.drop_last() =~= digits.take(at - start));
            assert(longer.last() == c);
            assert(digits_value(longer) == 10 * value + low);
        }
        let next = match value.checked_mul(10) {
            Some(tens) => tens.checked_add(low),
            None => None,
        };
        match next {
            Some(sum) => {
                value = sum;
            },
            None => {
                proof {
                    assert(10 * value + low > u64::MAX);
                    if forall|i: int| 0 <= i < digits.len() ==> is_digit_char(#[trigger] digits[i]) {
                        lemma_digits_value_prefix(digits, at + 1 - start);
                        assert(digits_value(digits) > u64::MAX);
                    }
                }
                return None;
            },
        }
        at += 1;
    }
    proof {
        assert(digits.take(len - start) =~= digits);
    }
    Some(value)
}

/// A run of digits stands for at least as much as any run it starts with.
pub proof fn lemma_digits_value_prefix(digits: Seq<char>, len: int)
    requires
        0 <= len <= digits.len(),
        forall|i: int| 0 <= i < digits.len() ==> is_digit_char(#[trigger] digits[i]),
    ensures
        digits_value(digits.take(len)) <= digits_value(digits),
    decreases digits.len(),
{
    if len == digits.len() {
        assert(digits.take(len) =~= digits);
    } else {
        lemma_digits_value_prefix(digits.drop_last(), len);
        assert(digits.drop_last().take(len) =~= digits.take(len));
    }
}

/// The two numbers that the text holds, one on each side of the first
/// separator; `None` where the separator is missing or a side is no
/// number.
pub fn parse_pair(text: &str, separator: char) -> (result: Option<(u64, u64)>)
    ensures
        result == pair_spec(text@, separator),
{
    match split_pair(text, separator) {
        Some((left, right)) => match (parse_u64(left), parse_u64(right)) {
            (Some(first), Some(second)) => Some((first, second)),
            _ => None,
        },
        None => None,
    }
}

/// The bounds that the text holds, as `WIDTHxHEIGHT`.
pub fn parse_bounds(text: &str) -> (result: Option<ImageBounds>)
    ensures
        result == bounds_spec(text@),
{
    match parse_pair(text, 'x') {
        Some((width, height)) => {
            if width <= usize::MAX as u64 && height <= usize::MAX as u64 {
                Some(ImageBounds { width: width as usize, height: height as usize })
            } else {
                None
            }
        },
        None => None,
    }
}

} // verus!
