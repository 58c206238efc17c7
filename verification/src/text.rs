//! Splitting of texts and reading of decimal numbers.

use vstd::prelude::*;

verus! {

/// The standard `String::push`: appends one character.
pub assume_specification[ String::push ](text: &mut String, c: char)
    ensures
        final(text)@ == old(text)@.push(c),
;

/// Position of the first occurrence of `c`, or the length of the text where there is none.
pub open spec fn first_position(text: Seq<char>, c: char) -> int
    decreases text.len(),
{
    if text.len() == 0 || text[0] == c {
        0
    } else {
        1 + first_position(text.skip(1), c)
    }
}

/// The two parts of a text around the first occurrence of `c`.
pub open spec fn divided(text: Seq<char>, c: char) -> Option<(Seq<char>, Seq<char>)> {
    let at = first_position(text, c);
    if at < text.len() {
        Some((text.take(at), text.skip(at + 1)))
    } else {
        None
    }
}

/// The parts of a text between the occurrences of `c`; there is always at least one.
pub open spec fn pieces(text: Seq<char>, c: char) -> Seq<Seq<char>>
    decreases text.len(),
{
    let at = first_position(text, c);
    if 0 <= at < text.len() {
        seq![text.take(at)] + pieces(text.skip(at + 1), c)
    } else {
        seq![text]
    }
}

/// Views of a list of strings.
pub open spec fn views(list: Seq<String>) -> Seq<Seq<char>> {
    list.map_values(|s: String| s@)
}

/// What the position of the first occurrence means.
pub proof fn lemma_first_position(text: Seq<char>, c: char)
    ensures
        0 <= first_position(text, c) <= text.len(),
        forall|i: int| 0 <= i < first_position(text, c) ==> #[trigger] text[i] != c,
        first_position(text, c) < text.len() ==> text[first_position(text, c)] == c,
    decreases text.len(),
{
    if text.len() > 0 && text[0] != c {
        lemma_first_position(text.skip(1), c);
        let at = first_position(text, c);
        assert forall|i: int| 0 <= i < at implies #[trigger] text[i] != c by {
            if i > 0 {
                assert(text.skip(1)[i - 1] == text[i]);
            }
        }
        if at < text.len() {
            assert(text.skip(1)[at - 1] == text[at]);
        }
    }
}

/// A position without an earlier occurrence is the first one.
pub proof fn lemma_first_position_is(text: Seq<char>, c: char, at: int)
    requires
        0 <= at <= text.len(),
        forall|i: int| 0 <= i < at ==> #[trigger] text[i] != c,
        at < text.len() ==> text[at] == c,
    ensures
        first_position(text, c) == at,
{
    lemma_first_position(text, c);
    let first = first_position(text, c);
    if first < at {
        assert(text[first] != c);
    }
    if at < first {
        assert(text[at] != c);
    }
}

/// Finds the first occurrence of a character.
pub fn find_char(text: &str, c: char) -> (r: usize)
    ensures
        r == first_position(text@, c),
        r <= text@.len(),
{
    let len = text.unicode_len();
    let mut i: usize = 0;
    while i < len && text.get_char(i) != c
        invariant
            i <= len,
            len == text@.len(),
            forall|k: int| 0 <= k < i ==> #[trigger] text@[k] != c,
        decreases len - i,
    {
        i = i + 1;
    }
    proof {
        lemma_first_position_is(text@, c, i as int);
    }
    i
}

/// Splits a text at the first occurrence of a character.
pub fn split_once(text: &str, c: char) -> (r: Option<(String, String)>)
    ensures
        match r {
            Some((head, tail)) => divided(text@, c) == Some((head@, tail@)),
            None => divided(text@, c) is None,
        },
{
    let at = find_char(text, c);
    let len = text.unicode_len();
    if at < len {
        let head = text.substring_char(0, at).to_owned();
        let tail = text.substring_char(at + 1, len).to_owned();
        assert(head@ =~= text@.take(at as int));
        assert(tail@ =~= text@.skip(at + 1));
        Some((head, tail))
    } else {
        None
    }
}

/// Splits a text at every occurrence of a character.
pub fn split(text: &str, c: char) -> (r: Vec<String>)
    ensures
        views(r@) == pieces(text@, c),
        r@.len() >= 1,
{
    let len = text.unicode_len();
    let mut list: Vec<String> = Vec::new();
    let mut start: usize = 0;
    proof {
        assert(text@.skip(0) =~= text@);
        assert(views(list@) + pieces(text@, c) =~= pieces(text@, c));
    }
    loop
        invariant
            start <= len,
            len == text@.len(),
            pieces(text@, c) == views(list@) + pieces(text@.skip(start as int), c),
        decreases len - start,
    {
        let rest = text.substring_char(start, len);
        assert(rest@ =~= text@.skip(start as int));
        let at = find_char(rest, c);
        let ghost before = views(list@);
        if at < len - start {
            let piece = rest.substring_char(0, at).to_owned();
            list.push(piece);
            proof {
                assert(piece@ =~= rest@.take(at as int));
                assert(rest@.skip(at + 1) =~= text@.skip(start + at + 1));
                assert(views(list@) =~= before.push(piece@));
                assert(before + pieces(rest@, c) =~= views(list@) + pieces(
                    text@.skip(start + at + 1),
                    c,
                ));
            }
            start = start + at + 1;
        } else {
            let piece = rest.to_owned();
            list.push(piece);
            proof {
                assert(views(list@) =~= before.push(piece@));
                assert(before + pieces(rest@, c) =~= views(list@));
            }
            return list;
        }
    }
}

/// A decimal digit.
pub open spec fn is_digit(c: char) -> bool {
    '0' <= c <= '9'
}

/// Every character is a decimal digit.
pub open spec fn all_digits(text: Seq<char>) -> bool {
    forall|i: int| 0 <= i < text.len() ==> is_digit(#[trigger] text[i])
}

/// The number that a sequence of decimal digits stands for.
pub open spec fn digits_value(text: Seq<char>) -> nat
    decreases text.len(),
{
    if text.len() == 0 {
        0
    } else {
        (digits_value(text.drop_last()) * 10 + (text.last() as nat - '0' as nat)) as nat
    }
}

/// Decimal digits of a number, without leading zeros.
pub open spec fn decimal(n: nat) -> Seq<char>
    decreases n,
{
    let digit = ('0' as nat + n % 10) as char;
    if n < 10 {
        seq![digit]
    } else {
        decimal(n / 10).push(digit)
    }
}

/// The 64-bit number that a text stands for: decimal digits, optionally after a plus sign.
pub open spec fn number_of(text: Seq<char>) -> Option<u64> {
    let digits = if text.len() > 0 && text[0] == '+' {
        text.skip(1)
    } else {
        text
    };
    if digits.len() > 0 && all_digits(digits) && digits_value(digits) <= u64::MAX {
        Some(digits_value(digits) as u64)
    } else {
        None
    }
}

/// The value of a prefix of the digits is not larger than that of all of them.
proof fn lemma_prefix_value(text: Seq<char>, n: int)
    requires
        0 <= n <= text.len(),
        all_digits(text),
    ensures
        digits_value(text.take(n)) <= digits_value(text),
    decreases text.len() - n,
{
    if n < text.len() {
        assert(text.take(n + 1).drop_last() =~= text.take(n));
        assert(is_digit(text[n]));
        lemma_prefix_value(text, n + 1);
    } else {
        assert(text.take(n) =~= text);
    }
}

/// Reads a decimal number.
pub fn parse_number(text: &str) -> (r: Option<u64>)
    ensures
        r == number_of(text@),
{
    let len = text.unicode_len();
    let start: usize = if len > 0 && text.get_char(0) == '+' {
        1
    } else {
        0
    };
    let ghost digits = text@.skip(start as int);
    assert(start == 0 ==> digits =~= text@);
    if start == len {
        return None;
    }
    let mut value: u64 = 0;
    let mut i: usize = start;
    while i < len
        invariant
            start <= i <= len,
            len == text@.len(),
            start < len,
            digits == text@.skip(start as int),
            number_of(text@) == (if digits.len() > 0 && all_digits(digits) && digits_value(digits)
                <= u64::MAX {
                Some(digits_value(digits) as u64)
            } else {
                None
            }),
            all_digits(digits.take(i - start)),
            value == digits_value(digits.take(i - start)),
        decreases len - i,
    {
        let c = text.get_char(i);
        let ghost n = i - start;
        assert(digits[n] == c);
        if c < '0' || c > '9' {
            return None;
        }
        let digit: u64 = (c as u32 - '0' as u32) as u64;
        proof {
            assert(digits.take(n + 1).drop_last() =~= digits.take(n));
            assert(digits.take(n + 1).last() == c);
        }
        if value > (u64::MAX - digit) / 10 {
            proof {
                if all_digits(digits) {
                    lemma_prefix_value(digits, n + 1);
                }
            }
            return None;
        }
        value = value * 10 + digit;
        i = i + 1;
        proof {
            assert forall|k: int| 0 <= k < n + 1 implies is_digit(#[trigger] digits.take(n + 1)[k]) by {
                if k < n {
                    assert(digits.take(n)[k] == digits.take(n + 1)[k]);
                }
            }
        }
    }
    assert(digits.take(len - start) =~= digits);
    Some(value)
}

/// Reading the digits of a number gives the number back.
pub proof fn law_decimal_reads_back(n: u64)
    ensures
        number_of(decimal(n as nat)) == Some(n),
{
    lemma_decimal(n as nat);
    assert(decimal(n as nat)[0] != '+');
}

/// The digits of a number are digits, and stand for it.
pub proof fn lemma_decimal(n: nat)
    ensures
        decimal(n).len() > 0,
        all_digits(decimal(n)),
        digits_value(decimal(n)) == n,
    decreases n,
{
    let digit = ('0' as nat + n % 10) as char;
    assert('0' as nat + n % 10 == digit as nat);
    if n < 10 {
        assert(seq![digit].drop_last() =~= Seq::<char>::empty());
        reveal_with_fuel(digits_value, 2);
    } else {
        lemma_decimal(n / 10);
        let head = decimal(n / 10);
        assert(head.push(digit).drop_last() =~= head);
    }
}

} // verus!
