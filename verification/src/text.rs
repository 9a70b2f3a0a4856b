//! Text assembly: appending, decimal numerals, and identity text.

use std::sync::Arc;
use vstd::prelude::*;

verus! {

/// `String::push` appends one character at the end.
pub assume_specification[ String::push ](text: &mut String, c: char)
    ensures
        final(text)@ == old(text)@.push(c),
;

/// `String::push_str` appends a string slice at the end.
pub assume_specification[ String::push_str ](text: &mut String, tail: &str)
    ensures
        final(text)@ == old(text)@ + tail@,
;

/// `Arc::clone` hands out another pointer to the same value.
#[verifier::external_body]
pub(crate) fn share<T>(value: &Arc<T>) -> (copy: Arc<T>)
    ensures
        copy == *value,
{
    Arc::clone(value)
}

/// The decimal digit with the given value.
pub open spec fn digit(d: nat) -> char {
    (48 + d) as u8 as char
}

/// The decimal numeral of `n`, without leading zeros.
pub open spec fn decimal(n: nat) -> Seq<char>
    decreases n,
{
    if n < 10 {
        seq![digit(n)]
    } else {
        decimal(n / 10).push(digit(n % 10))
    }
}

/// Appends the decimal numeral of `n`.
pub fn push_decimal(text: &mut String, n: u64)
    ensures
        final(text)@ == old(text)@ + decimal(n as nat),
{
    push_wide(text, n as u128);
}

/// Appends the decimal numeral of a wide integer.
pub fn push_wide(text: &mut String, n: u128)
    ensures
        final(text)@ == old(text)@ + decimal(n as nat),
    decreases n,
{
    let low: u128 = n % 10;
    let c: char = (48u8 + low as u8) as char;
    if n >= 10 {
        push_wide(text, n / 10);
    }
    text.push(c);
    assert(text@ =~= old(text)@ + decimal(n as nat));
}

/// The text `prefix`, then the numeral of `n`.
pub fn with_number(prefix: &str, n: u64) -> (text: String)
    ensures
        text@ == prefix@ + decimal(n as nat),
{
    let mut text = prefix.to_owned();
    push_decimal(&mut text, n);
    text
}

/// The text of `head` followed by that of `tail`.
pub fn joined(head: &str, tail: &str) -> (text: String)
    ensures
        text@ == head@ + tail@,
{
    let mut text = head.to_owned();
    text.push_str(tail);
    text
}

/// The characters of an optional text.
pub open spec fn text_of(a: Option<String>) -> Option<Seq<char>> {
    match a {
        Some(x) => Some(x@),
        None => None,
    }
}

/// Copies an optional text.
pub fn copy_text(a: &Option<String>) -> (b: Option<String>)
    ensures
        b == *a,
{
    match a {
        Some(x) => Some(x.clone()),
        None => None,
    }
}

/// The characters of a text.
pub fn chars_of(text: &str) -> (chars: Vec<char>)
    ensures
        chars@ == text@,
{
    let mut chars: Vec<char> = Vec::new();
    for c in iter: text.chars()
        invariant
            chars@ == text@.take(iter.index() as int),
            iter.seq() == text@,
    {
        chars.push(c);
        assert(chars@ =~= text@.take(iter.index() + 1));
    }
    assert(chars@ =~= text@);
    chars
}

/// The character with an ASCII capital made small.
pub open spec fn lower_char(c: char) -> char {
    if 'A' <= c <= 'Z' {
        ((c as u8) + 32) as u8 as char
    } else {
        c
    }
}

/// The text with every ASCII capital made small and all else as it is.
pub open spec fn lowered(text: Seq<char>) -> Seq<char> {
    Seq::new(text.len(), |i: int| lower_char(text[i]))
}

/// Makes an ASCII capital small.
pub fn to_lower_char(c: char) -> (lower: char)
    ensures
        lower == lower_char(c),
{
    if 'A' <= c && c <= 'Z' {
        ((c as u8) + 32) as char
    } else {
        c
    }
}

/// Lowercases only ASCII letters, so that every character keeps its place.
pub fn ascii_lower(raw: &str) -> (lower: String)
    ensures
        lower@ == lowered(raw@),
{
    let chars = chars_of(raw);
    let mut lower = String::new();
    let mut i: usize = 0;
    while i < chars.len()
        invariant
            i <= chars.len(),
            chars@ == raw@,
            lower@ =~= lowered(raw@).take(i as int),
        decreases chars.len() - i,
    {
        lower.push(to_lower_char(chars[i]));
        i = i + 1;
    }
    assert(lower@ =~= lowered(raw@));
    lower
}

/// The order of texts by code point.
pub open spec fn code_points(text: Seq<char>) -> Seq<u128> {
    Seq::new(text.len(), |i: int| text[i] as u32 as u128)
}

/// The code points of a text.
pub fn to_code_points(text: &str) -> (points: Vec<u128>)
    ensures
        points@ == code_points(text@),
{
    let chars = chars_of(text);
    let mut points: Vec<u128> = Vec::new();
    let mut i: usize = 0;
    while i < chars.len()
        invariant
            i <= chars.len(),
            chars@ == text@,
            points@ =~= code_points(text@).take(i as int),
        decreases chars.len() - i,
    {
        points.push(chars[i] as u32 as u128);
        i = i + 1;
    }
    assert(points@ =~= code_points(text@));
    points
}

/// Different characters have different codes.
proof fn lemma_char_code(a: char, b: char)
    requires
        a as u32 == b as u32,
    ensures
        a == b,
{
}

/// Different texts have different code points.
pub proof fn lemma_code_points_injective(a: Seq<char>, b: Seq<char>)
    requires
        code_points(a) == code_points(b),
    ensures
        a == b,
{
    assert(code_points(a).len() == a.len() && code_points(b).len() == b.len());
    assert forall|i: int| 0 <= i < a.len() implies a[i] == b[i] by {
        let x: char = a[i];
        let y: char = b[i];
        assert(code_points(a)[i] == x as u32 as u128);
        assert(code_points(b)[i] == y as u32 as u128);
        lemma_char_code(x, y);
    }
    assert(a =~= b);
}

/// First position of a character from `i` on.
pub open spec fn index_of_char(text: Seq<char>, c: char, i: int) -> Option<int>
    decreases text.len() - i,
{
    if i >= text.len() {
        None
    } else if text[i] == c {
        Some(i)
    } else {
        index_of_char(text, c, i + 1)
    }
}

/// Finds a character.
pub fn find_char(chars: &Vec<char>, c: char, from: usize) -> (found: Option<usize>)
    requires
        from <= chars.len(),
    ensures
        index_of_char(chars@, c, from as int) == match found {
            Some(i) => Some(i as int),
            None => None,
        },
        found matches Some(i) ==> from <= i < chars.len(),
{
    let mut i: usize = from;
    while i < chars.len()
        invariant
            from <= i <= chars.len(),
            index_of_char(chars@, c, from as int) == index_of_char(chars@, c, i as int),
        decreases chars.len() - i,
    {
        if chars[i] == c {
            return Some(i);
        }
        i = i + 1;
    }
    None
}

/// The text of a range of characters.
pub fn text_range(chars: &Vec<char>, from: usize, to: usize) -> (text: String)
    requires
        from <= to <= chars.len(),
    ensures
        text@ == chars@.subrange(from as int, to as int),
{
    let mut text = String::new();
    let mut i: usize = from;
    while i < to
        invariant
            from <= i <= to <= chars.len(),
            text@ =~= chars@.subrange(from as int, i as int),
        decreases to - i,
    {
        text.push(chars[i]);
        i = i + 1;
    }
    text
}

/// The symbols of Crockford's base 32, in order of value.
pub open spec fn crockford() -> Seq<char> {
    "0123456789ABCDEFGHJKMNPQRSTVWXYZ"@
}

/// Thirty-two to the power `n`.
pub open spec fn pow32(n: nat) -> nat
    decreases n,
{
    if n == 0 {
        1
    } else {
        32 * pow32((n - 1) as nat)
    }
}

/// The canonical text of an identity: twenty-six base-32 digits, most
/// significant first.
pub open spec fn ulid_text(value: u128) -> Seq<char> {
    Seq::new(26, |i: int| crockford()[((value as nat / pow32((25 - i) as nat)) % 32) as int])
}

/// `ulid::Ulid::to_string` writes the value as twenty-six Crockford base-32
/// digits, the most significant one first.
#[verifier::external_body]
pub(crate) fn encode_ulid(value: u128) -> (text: String)
    ensures
        text@ == ulid_text(value),
{
    ulid::Ulid(value).to_string()
}

} // verus!
