//! Character-level helpers for the strings the tools handle: file names,
//! extensions and lines typed by the user.

use vstd::prelude::*;

verus! {

/// `String::push` appends exactly one character to the end of the string.
pub assume_specification[ String::push ](s: &mut String, c: char)
    ensures
        final(s)@ == old(s)@.push(c),
;

/// The characters of `s`, in order.
pub fn chars_of(s: &str) -> (out: Vec<char>)
    ensures
        out@ == s@,
{
    let mut out: Vec<char> = Vec::new();
    let chars = s.chars();
    for c in it: chars
        invariant
            it.seq() == s@,
            out@ == s@.take(it.index() as int),
    {
        out.push(c);
    }
    out
}

/// The string made of the characters `chars[from..to]`.
pub fn string_of(chars: &Vec<char>, from: usize, to: usize) -> (out: String)
    requires
        from <= to <= chars.len(),
    ensures
        out@ == chars@.subrange(from as int, to as int),
{
    let mut out = String::new();
    let mut i: usize = from;
    while i < to
        invariant
            from <= i <= to <= chars.len(),
            out@ == chars@.subrange(from as int, i as int),
        decreases to - i,
    {
        out.push(chars[i]);
        i += 1;
    }
    out
}

/// The texts of a run of strings, position by position.
pub open spec fn texts(strings: Seq<String>) -> Seq<Seq<char>> {
    strings.map_values(|s: String| s@)
}

/// Reading the texts commutes with appending a string.
pub proof fn lemma_texts_push(strings: Seq<String>, s: String)
    ensures
        texts(strings.push(s)) == texts(strings).push(s@),
{
    assert(texts(strings.push(s)) =~= texts(strings).push(s@));
}

/// `c` with an ASCII capital letter replaced by its small letter.
pub open spec fn ascii_lower(c: char) -> char {
    if 'A' <= c && c <= 'Z' {
        ((c as u8) + 32) as char
    } else {
        c
    }
}

/// `c` with an ASCII capital letter replaced by its small letter.
pub fn to_ascii_lower(c: char) -> (lower: char)
    ensures
        lower == ascii_lower(c),
{
    if 'A' <= c && c <= 'Z' {
        ((c as u8) + 32) as char
    } else {
        c
    }
}

/// `s` with every ASCII capital letter replaced by its small letter.
pub open spec fn ascii_lowercase(s: Seq<char>) -> Seq<char> {
    s.map_values(|c: char| ascii_lower(c))
}

/// The two texts are equal once ASCII capitals are read as small letters.
pub open spec fn same_ignoring_ascii_case(a: Seq<char>, b: Seq<char>) -> bool {
    ascii_lowercase(a) == ascii_lowercase(b)
}

/// `s` with every ASCII capital letter replaced by its small letter; all other
/// characters stay as they are.
pub fn to_ascii_lowercase(s: &str) -> (lower: String)
    ensures
        lower@ == ascii_lowercase(s@),
{
    let mut lower = String::new();
    let chars = s.chars();
    for c in it: chars
        invariant
            it.seq() == s@,
            lower@ == ascii_lowercase(s@.take(it.index() as int)),
    {
        let ghost before = s@.take(it.index() as int);
        lower.push(to_ascii_lower(c));
        assert(ascii_lowercase(before.push(c)) =~= ascii_lowercase(before).push(ascii_lower(c)));
        assert(s@.take(it.index() + 1) =~= before.push(c));
    }
    assert(s@.take(s@.len() as int) =~= s@);
    lower
}

/// Whether `a` and `b` are the same text, ASCII letters compared without
/// regard to case.
pub fn eq_ignore_ascii_case(a: &str, b: &str) -> (same: bool)
    ensures
        same == same_ignoring_ascii_case(a@, b@),
{
    let left = chars_of(a);
    let right = chars_of(b);
    if left.len() != right.len() {
        assert(ascii_lowercase(a@).len() != ascii_lowercase(b@).len());
        return false;
    }
    let mut i: usize = 0;
    while i < left.len()
        invariant
            i <= left.len(),
            left.len() == right.len(),
            left@ == a@,
            right@ == b@,
            forall|j: int| 0 <= j < i ==> ascii_lower(a@[j]) == ascii_lower(b@[j]),
        decreases left.len() - i,
    {
        if to_ascii_lower(left[i]) != to_ascii_lower(right[i]) {
            assert(ascii_lowercase(a@)[i as int] != ascii_lowercase(b@)[i as int]);
            return false;
        }
        i += 1;
    }
    assert(ascii_lowercase(a@) =~= ascii_lowercase(b@));
    true
}

/// The character for a digit value below ten.
pub open spec fn digit_char(d: nat) -> char {
    (('0' as u8) + d) as char
}

/// `n` written in decimal, without sign or leading zeros.
pub open spec fn decimal(n: nat) -> Seq<char>
    decreases n,
{
    if n < 10 {
        seq![digit_char(n)]
    } else {
        decimal(n / 10).push(digit_char(n % 10))
    }
}

/// `n` written in decimal, without sign or leading zeros.
pub fn decimal_text(n: u128) -> (text: String)
    ensures
        text@ == decimal(n as nat),
{
    // The digits, lowest first.
    let mut digits: Vec<char> = Vec::new();
    let mut rest = n;
    while rest >= 10
        invariant
            decimal(n as nat) == decimal(rest as nat) + digits@.reverse(),
        decreases rest,
    {
        let d = (rest % 10) as u8;
        let ghost before = digits@;
        digits.push((48u8 + d) as char);
        proof {
            assert(digits@.reverse() =~= seq![digit_char((rest % 10) as nat)] + before.reverse());
            assert(decimal(rest as nat) == decimal((rest / 10) as nat).push(
                digit_char((rest % 10) as nat),
            ));
            assert(decimal(n as nat) =~= decimal((rest / 10) as nat) + digits@.reverse());
        }
        rest = rest / 10;
    }
    let mut text = String::new();
    text.push((48u8 + rest as u8) as char);
    while digits.len() > 0
        invariant
            decimal(n as nat) == text@ + digits@.reverse(),
        decreases digits.len(),
    {
        let ghost before = digits@;
        let c = digits.pop().unwrap();
        text.push(c);
        proof {
            assert(before.reverse() =~= seq![c] + digits@.reverse());
            assert(decimal(n as nat) =~= text@ + digits@.reverse());
        }
    }
    assert(digits@.reverse() =~= Seq::<char>::empty());
    assert(text@ + Seq::<char>::empty() =~= text@);
    text
}

/// Whether the two texts are the same, character for character.
pub fn same_text(a: &str, b: &str) -> (same: bool)
    ensures
        same == (a@ == b@),
{
    let left = chars_of(a);
    let right = chars_of(b);
    if left.len() != right.len() {
        return false;
    }
    let mut i: usize = 0;
    while i < left.len()
        invariant
            i <= left.len(),
            left.len() == right.len(),
            left@ == a@,
            right@ == b@,
            forall|j: int| 0 <= j < i ==> a@[j] == b@[j],
        decreases left.len() - i,
    {
        if left[i] != right[i] {
            return false;
        }
        i += 1;
    }
    assert(a@ =~= b@);
    true
}

/// The pieces of `text` between the occurrences of `separator`: each
/// separator closes a piece and opens the next, so there is one piece more
/// than there are separators, and pieces may be empty.
pub open spec fn pieces(text: Seq<char>, separator: char) -> Seq<Seq<char>>
    decreases text.len(),
{
    if text.len() == 0 {
        seq![text]
    } else {
        let earlier = pieces(text.drop_last(), separator);
        if text.last() == separator {
            earlier.push(Seq::empty())
        } else {
            earlier.update(earlier.len() - 1, earlier.last().push(text.last()))
        }
    }
}

/// Splits `text` at every occurrence of `separator`.
pub fn split_on(text: &str, separator: char) -> (parts: Vec<String>)
    ensures
        texts(parts@) == pieces(text@, separator),
{
    let mut parts: Vec<String> = Vec::new();
    let mut current = String::new();
    let chars = text.chars();
    assert(text@.take(0) =~= Seq::<char>::empty());
    assert(texts(parts@).push(current@) =~= pieces(text@.take(0), separator));
    for c in it: chars
        invariant
            it.seq() == text@,
            texts(parts@).push(current@) == pieces(text@.take(it.index() as int), separator),
    {
        let ghost seen = text@.take(it.index() as int);
        let ghost closed = texts(parts@);
        let ghost open = current@;
        proof {
            assert(text@.take(it.index() + 1).drop_last() =~= seen);
            assert(text@.take(it.index() + 1).last() == c);
        }
        if c == separator {
            proof {
                lemma_texts_push(parts@, current);
            }
            parts.push(current);
            current = String::new();
        } else {
            current.push(c);
            assert(closed.push(current@) =~= closed.push(open).update(
                closed.len() as int,
                open.push(c),
            ));
        }
    }
    proof {
        lemma_texts_push(parts@, current);
        assert(text@.take(text@.len() as int) =~= text@);
    }
    parts.push(current);
    parts
}

/// Whether `c` is one of the ten ASCII digits.
pub open spec fn is_digit(c: char) -> bool {
    '0' <= c && c <= '9'
}

/// The value of a run of digits read as a decimal number; 0 for no digits.
pub open spec fn digits_value(digits: Seq<char>) -> nat
    decreases digits.len(),
{
    if digits.len() == 0 {
        0
    } else {
        digits_value(digits.drop_last()) * 10 + ((digits.last() as u8) - ('0' as u8)) as nat
    }
}

/// `text` without a plus sign in front.
pub open spec fn unsigned_part(text: Seq<char>) -> Seq<char> {
    if text.len() > 0 && text[0] == '+' {
        text.skip(1)
    } else {
        text
    }
}

/// The number that `text` writes: an optional plus sign, then one or more
/// ASCII digits and nothing else, with a value that a `usize` can hold.
/// `None` for every other text.
pub open spec fn parsed_number(text: Seq<char>) -> Option<usize> {
    let digits = unsigned_part(text);
    if digits.len() > 0 && (forall|i: int| 0 <= i < digits.len() ==> is_digit(#[trigger] digits[i]))
        && digits_value(digits) <= usize::MAX {
        Some(digits_value(digits) as usize)
    } else {
        None
    }
}

/// A longer run of digits is worth no less.
proof fn lemma_digits_value_grows(digits: Seq<char>, n: int)
    requires
        0 <= n <= digits.len(),
        forall|i: int| 0 <= i < digits.len() ==> is_digit(#[trigger] digits[i]),
    ensures
        digits_value(digits.take(n)) <= digits_value(digits),
    decreases digits.len() - n,
{
    if n < digits.len() {
        assert(digits.take(n + 1).drop_last() =~= digits.take(n));
        assert(digits.take(n + 1).last() == digits[n]);
        assert(is_digit(digits[n]));
        lemma_digits_value_grows(digits, n + 1);
    } else {
        assert(digits.take(n) =~= digits);
    }
}

/// Reads a number as `str::parse::<usize>` does: an optional plus sign, then
/// one or more ASCII digits and nothing else. `None` where the text is
/// anything else, or where the number is too large for a `usize`.
pub fn parse_number(text: &str) -> (number: Option<usize>)
    ensures
        number == parsed_number(text@),
{
    let chars = chars_of(text);
    let start: usize = if chars.len() > 0 && chars[0] == '+' {
        1
    } else {
        0
    };
    let ghost digits = unsigned_part(text@);
    assert(digits =~= chars@.skip(start as int));
    if start == chars.len() {
        return None;
    }
    let mut value: usize = 0;
    let mut i: usize = start;
    assert(digits.take(0) =~= Seq::<char>::empty());
    while i < chars.len()
        invariant
            start <= i <= chars.len(),
            digits == chars@.skip(start as int),
            digits == unsigned_part(text@),
            forall|j: int| 0 <= j < i - start ==> is_digit(#[trigger] digits[j]),
            value == digits_value(digits.take(i - start)),
        decreases chars.len() - i,
    {
        let c = chars[i];
        proof {
            assert(digits[i - start] == c);
            assert(digits.take(i - start + 1).drop_last() =~= digits.take(i - start));
            assert(digits.take(i - start + 1).last() == c);
        }
        if !('0' <= c && c <= '9') {
            assert(!is_digit(digits[i - start]));
            return None;
        }
        let d = (c as u8 - 48u8) as usize;
        assert(digits_value(digits.take(i - start + 1)) == value * 10 + d);
        let next = match value.checked_mul(10) {
            Some(tens) => tens.checked_add(d),
            None => None,
        };
        match next {
            Some(n) => {
                value = n;
            },
            None => {
                proof {
                    if forall|j: int| 0 <= j < digits.len() ==> is_digit(#[trigger] digits[j]) {
                        lemma_digits_value_grows(digits, i - start + 1);
                    }
                }
                return None;
            },
        }
        i += 1;
    }
    assert(digits.take(chars.len() - start) =~= digits);
    Some(value)
}

} // verus!
