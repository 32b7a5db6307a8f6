//! Text as sequences of characters.
//!
//! Every contract in this crate speaks of text through its view, a
//! `Seq<char>`. This module holds the vocabulary those contracts share
//! (where a pattern first occurs, what trimming removes, what number a run of
//! digits denotes) and the executable functions that compute it on slices of
//! `char`. Where a pattern first occurs is said of sequences of any kind, so
//! that it can be said of bytes too.

use vstd::prelude::*;
use vstd::slice::slice_subrange;

verus! {

/// The characters of `text`, in order.
pub fn chars_of(text: &str) -> (chars: Vec<char>)
    ensures
        chars@ == text@,
{
    let mut chars: Vec<char> = Vec::new();
    for c in it: text.chars()
        invariant
            it.seq() == text@,
            chars@ == it.seq().take(it.index() as int),
    {
        chars.push(c);
    }
    chars
}

/// A string made of the characters of `chars`, in order.
pub fn string_of(chars: &[char]) -> (text: String)
    ensures
        text@ == chars@,
{
    let mut text = String::new();
    let mut i: usize = 0;
    while i < chars.len()
        invariant
            i <= chars.len(),
            text@ == chars@.take(i as int),
        decreases chars.len() - i,
    {
        text.push(chars[i]);
        i = i + 1;
    }
    text
}

/// The part of `chars` from `from` up to, not including, `to`.
pub fn part<'a>(chars: &'a [char], from: usize, to: usize) -> (piece: &'a [char])
    requires
        from <= to <= chars@.len(),
    ensures
        piece@ == chars@.subrange(from as int, to as int),
{
    slice_subrange(chars, from, to)
}

/// Whether two slices hold the same characters.
pub fn same_chars(a: &[char], b: &[char]) -> (same: bool)
    ensures
        same == (a@ == b@),
{
    if a.len() != b.len() {
        return false;
    }
    let mut i: usize = 0;
    while i < a.len()
        invariant
            a@.len() == b@.len(),
            i <= a.len(),
            a@.take(i as int) == b@.take(i as int),
        decreases a.len() - i,
    {
        if a[i] != b[i] {
            return false;
        }
        proof {
            assert(a@.take(i + 1) == a@.take(i as int).push(a@[i as int]));
            assert(b@.take(i + 1) == b@.take(i as int).push(b@[i as int]));
        }
        i = i + 1;
    }
    proof {
        assert(a@ == a@.take(a@.len() as int));
        assert(b@ == b@.take(b@.len() as int));
    }
    true
}

/// Whether `chars` spells the literal `word`.
pub fn spells(chars: &[char], word: &str) -> (same: bool)
    ensures
        same == (chars@ == word@),
{
    let letters = chars_of(word);
    same_chars(chars, letters.as_slice())
}

/// Whether `pattern` stands in `text` at position `at`.
pub open spec fn occurs_at<T>(text: Seq<T>, pattern: Seq<T>, at: int) -> bool {
    &&& 0 <= at
    &&& at + pattern.len() <= text.len()
    &&& text.subrange(at, at + pattern.len()) == pattern
}

/// Whether `at` is the leftmost position at which `pattern` stands in `text`.
pub open spec fn first_at<T>(text: Seq<T>, pattern: Seq<T>, at: int) -> bool {
    &&& occurs_at(text, pattern, at)
    &&& forall|earlier: int| 0 <= earlier < at ==> !occurs_at(text, pattern, earlier)
}

/// The leftmost position at which `pattern` stands in `text`, if it stands
/// there at all.
pub open spec fn first_occurrence<T>(text: Seq<T>, pattern: Seq<T>) -> Option<int> {
    if exists|at: int| occurs_at(text, pattern, at) {
        Some(choose|at: int| first_at(text, pattern, at))
    } else {
        None
    }
}

/// Below any occurrence there is a leftmost one.
proof fn lemma_leftmost_exists<T>(text: Seq<T>, pattern: Seq<T>, at: int)
    requires
        occurs_at(text, pattern, at),
    ensures
        exists|first: int| first_at(text, pattern, first),
    decreases at,
{
    if exists|earlier: int| 0 <= earlier < at && occurs_at(text, pattern, earlier) {
        let earlier = choose|earlier: int| 0 <= earlier < at && occurs_at(text, pattern, earlier);
        lemma_leftmost_exists(text, pattern, earlier);
    } else {
        assert(first_at(text, pattern, at));
    }
}

/// A position that is leftmost is the one `first_occurrence` names.
pub proof fn lemma_first_occurrence_is<T>(text: Seq<T>, pattern: Seq<T>, at: int)
    requires
        first_at(text, pattern, at),
    ensures
        first_occurrence(text, pattern) == Some(at),
{
    let chosen = choose|first: int| first_at(text, pattern, first);
    assert(first_at(text, pattern, chosen));
    assert(chosen == at) by {
        if chosen < at {
            assert(!occurs_at(text, pattern, chosen));
        } else if at < chosen {
            assert(!occurs_at(text, pattern, at));
        }
    }
}

/// What `first_occurrence` names is an occurrence with none to its left.
pub proof fn lemma_first_occurrence_found<T>(text: Seq<T>, pattern: Seq<T>)
    requires
        first_occurrence(text, pattern) is Some,
    ensures
        first_at(text, pattern, first_occurrence(text, pattern)->0),
{
    let at = choose|at: int| occurs_at(text, pattern, at);
    lemma_leftmost_exists(text, pattern, at);
}

/// Whether `pattern` stands in `text` at position `at`.
pub fn matches_at(text: &[char], pattern: &[char], at: usize) -> (matches: bool)
    ensures
        matches == occurs_at(text@, pattern@, at as int),
{
    if pattern.len() > text.len() || at > text.len() - pattern.len() {
        false
    } else {
        same_chars(part(text, at, at + pattern.len()), pattern)
    }
}

/// The leftmost position at which `pattern` stands in `text`.
pub fn find(text: &[char], pattern: &[char]) -> (found: Option<usize>)
    ensures
        match found {
            Some(at) => first_occurrence(text@, pattern@) == Some(at as int),
            None => first_occurrence(text@, pattern@) is None,
        },
{
    if pattern.len() > text.len() {
        return None;
    }
    let last: usize = text.len() - pattern.len();
    let mut at: usize = 0;
    loop
        invariant
            last == text@.len() - pattern@.len(),
            at <= last,
            forall|earlier: int| 0 <= earlier < at ==> !occurs_at(text@, pattern@, earlier),
        decreases last - at,
    {
        if matches_at(text, pattern, at) {
            proof {
                lemma_first_occurrence_is(text@, pattern@, at as int);
            }
            return Some(at);
        }
        if at == last {
            return None;
        }
        at = at + 1;
    }
}

/// Whether `c` is white space: the characters that Unicode gives the property
/// `White_Space`.
pub open spec fn is_whitespace(c: char) -> bool {
    ||| '\u{9}' <= c <= '\u{D}'
    ||| c == ' '
    ||| c == '\u{85}'
    ||| c == '\u{A0}'
    ||| c == '\u{1680}'
    ||| '\u{2000}' <= c <= '\u{200A}'
    ||| c == '\u{2028}'
    ||| c == '\u{2029}'
    ||| c == '\u{202F}'
    ||| c == '\u{205F}'
    ||| c == '\u{3000}'
}

/// `text` without the white space it begins with.
pub open spec fn trim_start(text: Seq<char>) -> Seq<char>
    decreases text.len(),
{
    if text.len() > 0 && is_whitespace(text.first()) {
        trim_start(text.drop_first())
    } else {
        text
    }
}

/// `text` without the white space it ends with.
pub open spec fn trim_end(text: Seq<char>) -> Seq<char>
    decreases text.len(),
{
    if text.len() > 0 && is_whitespace(text.last()) {
        trim_end(text.drop_last())
    } else {
        text
    }
}

/// `text` without the white space around it.
pub open spec fn trim(text: Seq<char>) -> Seq<char> {
    trim_end(trim_start(text))
}

/// Whether `c` is white space.
pub fn whitespace(c: char) -> (white: bool)
    ensures
        white == is_whitespace(c),
{
    ('\u{9}' <= c && c <= '\u{D}') || c == ' ' || c == '\u{85}' || c == '\u{A0}' || c == '\u{1680}'
        || ('\u{2000}' <= c && c <= '\u{200A}') || c == '\u{2028}' || c == '\u{2029}' || c
        == '\u{202F}' || c == '\u{205F}' || c == '\u{3000}'
}

/// `text` without the white space around it.
pub fn trimmed<'a>(text: &'a [char]) -> (inner: &'a [char])
    ensures
        inner@ == trim(text@),
{
    let mut from: usize = 0;
    proof {
        assert(text@.subrange(0, text@.len() as int) == text@);
    }
    while from < text.len() && whitespace(text[from])
        invariant
            from <= text.len(),
            trim_start(text@) == trim_start(text@.subrange(from as int, text@.len() as int)),
        decreases text.len() - from,
    {
        proof {
            let tail = text@.subrange(from as int, text@.len() as int);
            assert(tail.drop_first() == text@.subrange(from + 1, text@.len() as int));
        }
        from = from + 1;
    }
    let mut to: usize = text.len();
    while from < to && whitespace(text[to - 1])
        invariant
            from <= to <= text.len(),
            trim(text@) == trim_end(text@.subrange(from as int, to as int)),
        decreases to - from,
    {
        proof {
            let body = text@.subrange(from as int, to as int);
            assert(body.drop_last() == text@.subrange(from as int, to - 1));
        }
        to = to - 1;
    }
    part(text, from, to)
}

/// Whether `text` ends with a carriage return and a line feed.
pub open spec fn ends_with_crlf(text: Seq<char>) -> bool {
    &&& text.len() >= 2
    &&& text[text.len() - 2] == '\r'
    &&& text[text.len() - 1] == '\n'
}

/// `text` without the line ends (`"\r\n"`, once or several times over) that
/// it ends with.
pub open spec fn without_line_ends(text: Seq<char>) -> Seq<char>
    decreases text.len(),
{
    if ends_with_crlf(text) {
        without_line_ends(text.take(text.len() - 2))
    } else {
        text
    }
}

/// `text` without the line ends that it ends with.
pub fn strip_line_ends<'a>(text: &'a [char]) -> (inner: &'a [char])
    ensures
        inner@ == without_line_ends(text@),
{
    let mut to: usize = text.len();
    proof {
        assert(text@.take(text@.len() as int) == text@);
    }
    while to >= 2 && text[to - 2] == '\r' && text[to - 1] == '\n'
        invariant
            to <= text.len(),
            without_line_ends(text@) == without_line_ends(text@.take(to as int)),
        decreases to,
    {
        proof {
            assert(text@.take(to as int).take(to - 2) == text@.take(to - 2));
        }
        to = to - 2;
    }
    part(text, 0, to)
}

/// Whether `c` is one of the ten decimal digits.
pub open spec fn is_digit(c: char) -> bool {
    '0' <= c <= '9'
}

/// The number that the digit `c` stands for.
pub open spec fn digit_value(c: char) -> nat {
    if is_digit(c) {
        (c as int - '0' as int) as nat
    } else {
        0
    }
}

/// The number that `digits` denotes in base ten.
pub open spec fn decimal(digits: Seq<char>) -> nat
    decreases digits.len(),
{
    if digits.len() == 0 {
        0
    } else {
        decimal(digits.drop_last()) * 10 + digit_value(digits.last())
    }
}

/// The digits of `token`: the whole of it, but for one leading `+`.
pub open spec fn unsigned_digits(token: Seq<char>) -> Seq<char> {
    if token.len() > 0 && token.first() == '+' {
        token.drop_first()
    } else {
        token
    }
}

/// The 16-bit number that `token` denotes: `token` is one or more decimal
/// digits, after at most one `+`, and the number they denote is at most 65535.
pub open spec fn decimal_u16(token: Seq<char>) -> Option<u16> {
    let digits = unsigned_digits(token);
    if digits.len() > 0 && (forall|i: int| 0 <= i < digits.len() ==> is_digit(#[trigger] digits[i]))
        && decimal(digits) <= u16::MAX {
        Some(decimal(digits) as u16)
    } else {
        None
    }
}

/// More digits never denote less.
proof fn lemma_decimal_grows(digits: Seq<char>, shorter: int)
    requires
        0 <= shorter <= digits.len(),
    ensures
        decimal(digits.take(shorter)) <= decimal(digits),
    decreases digits.len(),
{
    if shorter < digits.len() {
        lemma_decimal_grows(digits.drop_last(), shorter);
        assert(digits.drop_last().take(shorter) == digits.take(shorter));
    } else {
        assert(digits.take(shorter) == digits);
    }
}

/// The 16-bit number that `token` denotes.
pub fn read_u16(token: &[char]) -> (number: Option<u16>)
    ensures
        number == decimal_u16(token@),
{
    let from: usize = if token.len() > 0 && token[0] == '+' {
        1
    } else {
        0
    };
    let digits = part(token, from, token.len());
    if digits.len() == 0 {
        return None;
    }
    let mut value: u32 = 0;
    let mut i: usize = 0;
    while i < digits.len()
        invariant
            i <= digits.len(),
            digits@ == unsigned_digits(token@),
            forall|k: int| 0 <= k < i ==> is_digit(#[trigger] digits@[k]),
            value == decimal(digits@.take(i as int)),
            value <= u16::MAX,
        decreases digits.len() - i,
    {
        let c = digits[i];
        if !('0' <= c && c <= '9') {
            return None;
        }
        proof {
            assert(digits@.take(i + 1).drop_last() == digits@.take(i as int));
        }
        value = value * 10 + (c as u32 - '0' as u32);
        if value > 65535 {
            proof {
                lemma_decimal_grows(digits@, i + 1);
            }
            return None;
        }
        i = i + 1;
    }
    proof {
        assert(digits@.take(digits@.len() as int) == digits@);
    }
    Some(value as u16)
}

/// The digit for `value`, which is less than ten.
pub open spec fn digit_of(value: nat) -> char {
    (value + '0' as nat) as char
}

/// The decimal digits of `number`, without leading zeros.
pub open spec fn digits_of(number: nat) -> Seq<char>
    decreases number,
{
    if number < 10 {
        seq![digit_of(number)]
    } else {
        digits_of(number / 10).push(digit_of(number % 10))
    }
}

/// The digits of a number denote that number.
pub proof fn digits_denote_their_number(number: nat)
    ensures
        digits_of(number).len() >= 1,
        forall|i: int| 0 <= i < digits_of(number).len() ==> is_digit(#[trigger] digits_of(number)[i]),
        decimal(digits_of(number)) == number,
    decreases number,
{
    if number < 10 {
        assert(digits_of(number).drop_last() == Seq::<char>::empty());
        assert(decimal(Seq::<char>::empty()) == 0);
    } else {
        digits_denote_their_number(number / 10);
        assert(digits_of(number).drop_last() == digits_of(number / 10));
        assert forall|i: int| 0 <= i < digits_of(number).len() implies is_digit(
            #[trigger] digits_of(number)[i],
        ) by {
            if i < digits_of(number / 10).len() {
                assert(digits_of(number)[i] == digits_of(number / 10)[i]);
            }
        }
    }
}

/// What is written as a 16-bit number is read as that number.
pub proof fn written_number_is_read_back(number: u16)
    ensures
        decimal_u16(digits_of(number as nat)) == Some(number),
{
    digits_denote_their_number(number as nat);
    assert(digits_of(number as nat)[0] != '+');
}

/// The decimal digits of `number`.
pub fn write_u16(number: u16) -> (digits: Vec<char>)
    ensures
        digits@ == digits_of(number as nat),
    decreases number,
{
    if number < 10 {
        let mut digits: Vec<char> = Vec::new();
        digits.push(digit(number));
        digits
    } else {
        let mut digits = write_u16(number / 10);
        digits.push(digit(number % 10));
        digits
    }
}

/// The digit for `value`.
fn digit(value: u16) -> (c: char)
    requires
        value < 10,
    ensures
        c == digit_of(value as nat),
{
    (value as u8 + 48) as char
}

} // verus!
