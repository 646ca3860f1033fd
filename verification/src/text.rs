//! Reading text: whitespace-separated fields and unsigned decimal numbers.

use vstd::prelude::*;

verus! {

/// `c` is a Unicode white space character.
pub open spec fn is_whitespace(c: char) -> bool {
    let u = c as u32;
    ||| 0x09 <= u <= 0x0D
    ||| u == 0x20
    ||| u == 0x85
    ||| u == 0xA0
    ||| u == 0x1680
    ||| 0x2000 <= u <= 0x200A
    ||| u == 0x2028
    ||| u == 0x2029
    ||| u == 0x202F
    ||| u == 0x205F
    ||| u == 0x3000
}

/// `c` is one of the decimal digits `0` to `9`.
pub open spec fn is_digit(c: char) -> bool {
    0x30 <= c as u32 <= 0x39
}

/// The value of a decimal digit.
pub open spec fn digit_value(c: char) -> int {
    c as u32 - 0x30
}

/// Number of characters before the first white space in `s`.
pub open spec fn word_len(s: Seq<char>) -> nat
    decreases s.len(),
{
    if s.len() == 0 || is_whitespace(s[0]) {
        0
    } else {
        1 + word_len(s.drop_first())
    }
}

/// The fields of `s`: its longest runs of characters other than white space,
/// in order. White space before, between and behind the fields is dropped.
pub open spec fn words(s: Seq<char>) -> Seq<Seq<char>>
    decreases s.len(),
{
    if s.len() == 0 {
        Seq::empty()
    } else if is_whitespace(s[0]) {
        words(s.drop_first())
    } else {
        proof {
            lemma_word_len_bounds(s);
        }
        let k = word_len(s) as int;
        seq![s.take(k)] + words(s.skip(k))
    }
}

/// Every character of `s` is a decimal digit.
pub open spec fn all_digits(s: Seq<char>) -> bool {
    forall|i: int| 0 <= i < s.len() ==> is_digit(#[trigger] s[i])
}

/// The number that a string of decimal digits denotes.
pub open spec fn decimal(digits: Seq<char>) -> int
    decreases digits.len(),
{
    if digits.len() == 0 {
        0
    } else {
        decimal(digits.drop_last()) * 10 + digit_value(digits.last())
    }
}

/// `s` without a leading plus sign.
pub open spec fn unsigned_part(s: Seq<char>) -> Seq<char> {
    if s.len() > 0 && s[0] == '+' {
        s.drop_first()
    } else {
        s
    }
}

/// The number that the field `s` denotes: an optional plus sign followed by
/// one or more decimal digits, and nothing else. There is none if `s` is not
/// of that form or the number does not fit in `usize`.
pub open spec fn number(s: Seq<char>) -> Option<int> {
    let digits = unsigned_part(s);
    if digits.len() > 0 && all_digits(digits) && decimal(digits) <= usize::MAX {
        Some(decimal(digits))
    } else {
        None
    }
}

/// The views of a list of fields.
pub open spec fn fields_view(fields: Seq<Vec<char>>) -> Seq<Seq<char>> {
    fields.map_values(|w: Vec<char>| w@)
}

/// A word is no longer than the text it starts, and not empty if the text
/// starts with a character other than white space.
pub proof fn lemma_word_len_bounds(s: Seq<char>)
    ensures
        word_len(s) <= s.len(),
        s.len() > 0 && !is_whitespace(s[0]) ==> word_len(s) >= 1,
    decreases s.len(),
{
    if s.len() > 0 && !is_whitespace(s[0]) {
        lemma_word_len_bounds(s.drop_first());
    }
}

/// A string of digits denotes no less than each of its prefixes does, and
/// nothing negative.
pub proof fn lemma_decimal_prefix(digits: Seq<char>, k: int)
    requires
        all_digits(digits),
        0 <= k <= digits.len(),
    ensures
        0 <= decimal(digits.take(k)) <= decimal(digits),
    decreases digits.len(),
{
    if digits.len() == 0 {
        assert(digits.take(k) =~= digits);
    } else {
        let head = digits.drop_last();
        assert(all_digits(head)) by {
            assert forall|i: int| 0 <= i < head.len() implies is_digit(#[trigger] head[i]) by {
                assert(is_digit(digits[i]));
            }
        }
        assert(is_digit(digits[digits.len() - 1]));
        lemma_decimal_prefix(head, head.len() as int);
        assert(head.take(head.len() as int) =~= head);
        if k == digits.len() {
            assert(digits.take(k) =~= digits);
        } else {
            lemma_decimal_prefix(head, k);
            assert(digits.take(k) =~= head.take(k));
        }
    }
}

/// A number that a field denotes is a `usize` value.
pub proof fn lemma_number_bounds(s: Seq<char>)
    ensures
        number(s) matches Some(v) ==> 0 <= v <= usize::MAX,
{
    let digits = unsigned_part(s);
    if all_digits(digits) {
        lemma_decimal_prefix(digits, digits.len() as int);
        assert(digits.take(digits.len() as int) =~= digits);
    }
}

/// Whether `c` is a Unicode white space character.
pub fn is_whitespace_char(c: char) -> (b: bool)
    ensures
        b == is_whitespace(c),
{
    let u: u32 = c as u32;
    (0x09 <= u && u <= 0x0D) || u == 0x20 || u == 0x85 || u == 0xA0 || u == 0x1680 || (0x2000 <= u
        && u <= 0x200A) || u == 0x2028 || u == 0x2029 || u == 0x202F || u == 0x205F || u
        == 0x3000
}

/// The characters of `s`, in order.
pub fn chars_of(s: &str) -> (chars: Vec<char>)
    ensures
        chars@ == s@,
{
    let mut chars: Vec<char> = Vec::new();
    for c in it: s.chars()
        invariant
            chars@ == it.seq().take(it.index() as int),
    {
        chars.push(c);
    }
    chars
}

/// Splits a line into its fields, as separated by white space.
pub fn split_words(line: &str) -> (fields: Vec<Vec<char>>)
    ensures
        fields_view(fields@) == words(line@),
{
    let chars = chars_of(line);
    let count = chars.len();
    let mut fields: Vec<Vec<char>> = Vec::new();
    let mut i: usize = 0;
    assert(chars@.skip(0) =~= chars@);
    assert(fields_view(fields@) + words(chars@.skip(0)) =~= words(chars@));
    while i < count
        invariant
            i <= count == chars@.len(),
            fields_view(fields@) + words(chars@.skip(i as int)) == words(chars@),
        decreases count - i,
    {
        let ghost rest = chars@.skip(i as int);
        if is_whitespace_char(chars[i]) {
            assert(rest.drop_first() =~= chars@.skip(i + 1));
            i += 1;
        } else {
            let start: usize = i;
            let mut word: Vec<char> = Vec::new();
            assert(chars@.subrange(start as int, i as int) =~= Seq::<char>::empty());
            while i < count && !is_whitespace_char(chars[i])
                invariant
                    start <= i <= count == chars@.len(),
                    word@ == chars@.subrange(start as int, i as int),
                    word_len(chars@.skip(start as int)) == (i - start) + word_len(
                        chars@.skip(i as int),
                    ),
                decreases count - i,
            {
                word.push(chars[i]);
                proof {
                    assert(chars@.skip(i as int).drop_first() =~= chars@.skip(i + 1));
                    assert(chars@.subrange(start as int, i + 1) =~= chars@.subrange(
                        start as int,
                        i as int,
                    ).push(chars@[i as int]));
                }
                i += 1;
            }
            proof {
                let k = word_len(rest) as int;
                assert(word_len(chars@.skip(i as int)) == 0);
                assert(k == i - start);
                assert(rest.take(k) =~= word@);
                assert(rest.skip(k) =~= chars@.skip(i as int));
                assert(words(rest) == seq![rest.take(k)] + words(rest.skip(k)));
            }
            let ghost held = fields_view(fields@);
            fields.push(word);
            assert(fields_view(fields@) =~= held.push(word@));
            assert(held.push(word@) + words(chars@.skip(i as int)) =~= held + words(rest));
        }
    }
    assert(chars@.skip(count as int).len() == 0);
    assert(fields_view(fields@) + words(chars@.skip(count as int)) =~= fields_view(fields@));
    fields
}

/// Reads a field as an unsigned decimal number: an optional plus sign, then
/// one or more digits. Gives `None` for any other text and for a number that
/// does not fit in `usize`.
pub fn parse_number(field: &[char]) -> (value: Option<usize>)
    ensures
        match value {
            Some(v) => number(field@) == Some(v as int),
            None => number(field@) is None,
        },
{
    let count = field.len();
    let start: usize = if count > 0 && field[0] == '+' {
        1
    } else {
        0
    };
    let ghost digits = unsigned_part(field@);
    assert(digits =~= field@.skip(start as int));
    if start == count {
        return None;
    }
    let mut acc: usize = 0;
    let mut i: usize = start;
    assert(digits.take(0) =~= Seq::<char>::empty());
    while i < count
        invariant
            start <= i <= count == field@.len(),
            digits == unsigned_part(field@),
            digits == field@.skip(start as int),
            all_digits(digits.take(i - start)),
            acc == decimal(digits.take(i - start)),
        decreases count - i,
    {
        let c = field[i];
        let u: u32 = c as u32;
        let ghost read = digits.take(i - start);
        let ghost next = digits.take(i - start + 1);
        proof {
            assert(next.drop_last() =~= read);
            assert(next.last() == c);
        }
        if u < 0x30 || 0x39 < u {
            assert(!is_digit(digits[i - start]));
            return None;
        }
        proof {
            assert(all_digits(next)) by {
                assert forall|j: int| 0 <= j < next.len() implies is_digit(#[trigger] next[j]) by {
                    if j < read.len() {
                        assert(is_digit(read[j]));
                    }
                }
            }
            if all_digits(digits) {
                lemma_decimal_prefix(digits, i - start + 1);
            }
        }
        let digit: usize = (u - 0x30) as usize;
        let shifted = match acc.checked_mul(10) {
            Some(x) => x,
            None => {
                return None;
            },
        };
        acc = match shifted.checked_add(digit) {
            Some(x) => x,
            None => {
                return None;
            },
        };
        i += 1;
    }
    assert(digits.take(count - start) =~= digits);
    Some(acc)
}

} // verus!
