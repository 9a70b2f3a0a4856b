//! Words, letter case, containment and joining of texts.

use crate::diagnostics::{contains_text, sort_texts, texts};
use crate::listing::increasing;
use crate::text::{chars_of, code_points, lowered, text_range};
use vstd::prelude::*;

verus! {

/// Whether a character is ASCII.
pub open spec fn is_ascii(c: char) -> bool {
    (c as u32) < 128
}

/// Whether a text is made of ASCII characters.
pub open spec fn is_ascii_text(text: Seq<char>) -> bool {
    forall|i: int| 0 <= i < text.len() ==> is_ascii(#[trigger] text[i])
}

/// Whether a character is an ASCII letter or digit.
pub open spec fn ascii_alphanumeric(c: char) -> bool {
    'a' <= c <= 'z' || 'A' <= c <= 'Z' || '0' <= c <= '9'
}

/// What `char::is_alphanumeric` says of a character.
pub uninterp spec fn unicode_alphanumeric(c: char) -> bool;

/// The text that `str::to_lowercase` makes of a text.
pub uninterp spec fn unicode_lowercase(text: Seq<char>) -> Seq<char>;

/// The characters that `char::to_uppercase` makes of a character.
pub uninterp spec fn unicode_uppercase(c: char) -> Seq<char>;

/// Whether a character is a letter or a digit.
pub open spec fn alphanumeric(c: char) -> bool {
    if is_ascii(c) {
        ascii_alphanumeric(c)
    } else {
        unicode_alphanumeric(c)
    }
}

/// Whether a character has the Unicode property White_Space.
pub open spec fn whitespace(c: char) -> bool {
    let n = c as u32;
    ||| 0x9 <= n <= 0xd
    ||| n == 0x20
    ||| n == 0x85
    ||| n == 0xa0
    ||| n == 0x1680
    ||| 0x2000 <= n <= 0x200a
    ||| n == 0x2028
    ||| n == 0x2029
    ||| n == 0x202f
    ||| n == 0x205f
    ||| n == 0x3000
}

/// A text in lower case.
pub open spec fn lowercase(text: Seq<char>) -> Seq<char> {
    if is_ascii_text(text) {
        lowered(text)
    } else {
        unicode_lowercase(text)
    }
}

/// A character in upper case.
pub open spec fn uppercase(c: char) -> Seq<char> {
    if 'a' <= c <= 'z' {
        seq![((c as u32) - 32) as u32 as char]
    } else if is_ascii(c) {
        seq![c]
    } else {
        unicode_uppercase(c)
    }
}

/// `char::is_alphanumeric` depends on the character alone; among ASCII characters it
/// holds of the letters and digits.
#[verifier::external_body]
pub(crate) fn is_alphanumeric(c: char) -> (yes: bool)
    ensures
        is_ascii(c) ==> yes == ascii_alphanumeric(c),
        !is_ascii(c) ==> yes == unicode_alphanumeric(c),
{
    c.is_alphanumeric()
}

/// `char::is_whitespace` holds of the characters with the Unicode property
/// White_Space.
#[verifier::external_body]
pub(crate) fn is_whitespace(c: char) -> (yes: bool)
    ensures
        yes == whitespace(c),
{
    c.is_whitespace()
}

/// `str::to_lowercase` depends on the text alone. ASCII letters get their lower-case
/// counterparts in an ASCII text, and a text with characters keeps some.
#[verifier::external_body]
pub(crate) fn to_lowercase(text: &str) -> (lower: String)
    ensures
        is_ascii_text(text@) ==> lower@ == lowered(text@),
        !is_ascii_text(text@) ==> lower@ == unicode_lowercase(text@),
        text@.len() > 0 ==> lower@.len() > 0,
{
    text.to_lowercase()
}

/// `char::to_uppercase` depends on the character alone; its characters come in
/// order. An ASCII letter gets its upper-case counterpart, and another ASCII
/// character stays.
#[verifier::external_body]
pub(crate) fn to_uppercase(c: char) -> (upper: String)
    ensures
        is_ascii(c) ==> upper@ == uppercase(c),
        !is_ascii(c) ==> upper@ == unicode_uppercase(c),
{
    c.to_uppercase().to_string()
}

/// First position from `i` on that is not part of a word.
pub open spec fn run_end(text: Seq<char>, i: int) -> int
    decreases text.len() - i,
{
    if i < text.len() && alphanumeric(text[i]) {
        run_end(text, i + 1)
    } else {
        i
    }
}

/// The words of a text from `i` on: the longest runs of letters and digits.
pub open spec fn words_from(text: Seq<char>, i: int) -> Seq<Seq<char>>
    decreases text.len() - i,
    when 0 <= i
    via words_decrease
{
    if i >= text.len() {
        Seq::empty()
    } else if !alphanumeric(text[i]) {
        words_from(text, i + 1)
    } else {
        seq![text.subrange(i, run_end(text, i))] + words_from(text, run_end(text, i))
    }
}

#[via_fn]
proof fn words_decrease(text: Seq<char>, i: int) {
    if i < text.len() && alphanumeric(text[i]) {
        lemma_run_end(text, i + 1);
    }
}

pub proof fn lemma_run_end(text: Seq<char>, i: int)
    requires
        0 <= i <= text.len(),
    ensures
        i <= run_end(text, i) <= text.len(),
    decreases text.len() - i,
{
    if i < text.len() && alphanumeric(text[i]) {
        lemma_run_end(text, i + 1);
    }
}

/// The words of a text.
pub open spec fn words_of(text: Seq<char>) -> Seq<Seq<char>> {
    words_from(text, 0)
}

/// Splits a text into its words.
pub fn split_words(text: &str) -> (words: Vec<String>)
    ensures
        texts(words@) == words_of(text@),
{
    let chars = chars_of(text);
    let mut words: Vec<String> = Vec::new();
    let mut i: usize = 0;
    assert(texts(words@) + words_from(chars@, 0) =~= words_of(text@));
    while i < chars.len()
        invariant
            i <= chars.len(),
            chars@ == text@,
            texts(words@) + words_from(chars@, i as int) == words_of(text@),
        decreases chars.len() - i,
    {
        if !is_alphanumeric(chars[i]) {
            i = i + 1;
        } else {
            let start: usize = i;
            i = i + 1;
            while i < chars.len() && is_alphanumeric(chars[i])
                invariant
                    start < i <= chars.len(),
                    alphanumeric(chars@[start as int]),
                    run_end(chars@, start as int) == run_end(chars@, i as int),
                decreases chars.len() - i,
            {
                i = i + 1;
            }
            let ghost before = texts(words@);
            words.push(text_range(&chars, start, i));
            proof {
                let word = chars@.subrange(start as int, i as int);
                assert(run_end(chars@, start as int) == i);
                assert(texts(words@) =~= before.push(word));
                assert(before + (seq![word] + words_from(chars@, i as int)) =~= before.push(word)
                    + words_from(chars@, i as int));
            }
        }
    }
    assert(texts(words@) + words_from(chars@, i as int) =~= texts(words@));
    words
}

/// Whether `part` stands in `text` at position `i`.
pub open spec fn occurs_at(text: Seq<char>, part: Seq<char>, i: int) -> bool {
    0 <= i && i + part.len() <= text.len() && text.subrange(i, i + part.len()) == part
}

/// Whether `part` stands somewhere in `text`.
pub open spec fn occurs(text: Seq<char>, part: Seq<char>) -> bool {
    exists|i: int| #[trigger] occurs_at(text, part, i)
}

/// Whether `part` stands in `text` at position `i`.
pub fn stands_at(text: &Vec<char>, part: &Vec<char>, i: usize) -> (yes: bool)
    ensures
        yes == occurs_at(text@, part@, i as int),
{
    if i > text.len() || part.len() > text.len() - i {
        return false;
    }
    let mut k: usize = 0;
    while k < part.len()
        invariant
            k <= part.len(),
            i + part.len() <= text.len(),
            forall|m: int| 0 <= m < k ==> text@[i + m] == #[trigger] part@[m],
        decreases part.len() - k,
    {
        if text[i + k] != part[k] {
            assert(text@.subrange(i as int, i + part@.len())[k as int] == text@[i + k]);
            return false;
        }
        k = k + 1;
    }
    assert(text@.subrange(i as int, i + part@.len()) =~= part@);
    true
}

/// Whether one text contains another.
pub fn contains(text: &str, part: &str) -> (yes: bool)
    ensures
        yes == occurs(text@, part@),
{
    let whole = chars_of(text);
    let piece = chars_of(part);
    let mut i: usize = 0;
    while i <= whole.len()
        invariant
            i <= whole.len() + 1,
            whole@ == text@,
            piece@ == part@,
            forall|k: int| 0 <= k < i ==> !#[trigger] occurs_at(text@, part@, k),
        decreases whole.len() + 1 - i,
    {
        if stands_at(&whole, &piece, i) {
            assert(occurs_at(text@, part@, i as int));
            return true;
        }
        if i == whole.len() {
            assert forall|k: int| !#[trigger] occurs_at(text@, part@, k) by {}
            return false;
        }
        i = i + 1;
    }
    false
}

/// Whether one text contains another, letter case aside.
pub open spec fn occurs_ignoring_case(haystack: Seq<char>, needle: Seq<char>) -> bool {
    occurs(lowercase(haystack), lowercase(needle))
}

/// Whether one text contains another, letter case aside.
pub fn contains_ignore_case(haystack: &str, needle: &str) -> (yes: bool)
    ensures
        yes == occurs_ignoring_case(haystack@, needle@),
{
    let whole = to_lowercase(haystack);
    let part = to_lowercase(needle);
    contains(whole.as_str(), part.as_str())
}

/// Texts one after another with a separator between them.
pub open spec fn joined_by(list: Seq<Seq<char>>, separator: Seq<char>, n: int) -> Seq<char>
    decreases n,
{
    if n <= 0 {
        Seq::empty()
    } else if n == 1 {
        list[0]
    } else {
        joined_by(list, separator, n - 1) + separator + list[n - 1]
    }
}

/// Joins texts with a separator.
pub fn join(list: &Vec<String>, separator: &str) -> (text: String)
    ensures
        text@ == joined_by(texts(list@), separator@, list@.len() as int),
{
    let mut text = String::new();
    let mut i: usize = 0;
    assert(text@ =~= joined_by(texts(list@), separator@, 0));
    while i < list.len()
        invariant
            i <= list.len(),
            text@ == joined_by(texts(list@), separator@, i as int),
        decreases list.len() - i,
    {
        if i > 0 {
            text.push_str(separator);
        }
        text.push_str(list[i].as_str());
        assert(text@ =~= joined_by(texts(list@), separator@, i + 1));
        i = i + 1;
    }
    text
}

/// Whether the list holds the distinct lower-case words of the query, by code
/// point.
pub open spec fn are_tokens(query: Seq<char>, list: Seq<Seq<char>>) -> bool {
    &&& increasing(list, |t: Seq<char>| code_points(t))
    &&& forall|x: Seq<char>| #[trigger]
        list.contains(x) <==> exists|i: int|
            0 <= i < words_of(query).len() && lowercase(#[trigger] words_of(query)[i]) == x
}

proof fn lemma_words_from(a: Seq<char>, b: Seq<char>, i: int)
    requires
        0 <= i <= a.len() + 1,
    ensures
        words_from(a + " "@ + b, i) == if i <= a.len() {
            words_from(a, i) + words_of(b)
        } else {
            words_of(b)
        },
    decreases a.len() + 1 - i,
{
    reveal_strlit(" ");
    let whole = a + " "@ + b;
    if i == a.len() + 1 {
        lemma_words_behind(whole, b, i, 0);
    } else if i == a.len() {
        assert(whole[i] == ' ');
        lemma_words_from(a, b, i + 1);
        assert(words_from(a, i) + words_of(b) =~= words_of(b));
    } else if !alphanumeric(a[i]) {
        assert(whole[i] == a[i]);
        lemma_words_from(a, b, i + 1);
    } else {
        assert(whole[i] == a[i]);
        lemma_run_before(a, b, i);
        lemma_run_end(a, i);
        lemma_run_end(a, i + 1);
        let end = run_end(a, i);
        lemma_words_from(a, b, end);
        assert(whole.subrange(i, end) =~= a.subrange(i, end));
        let word = seq![a.subrange(i, end)];
        assert(word + (words_from(a, end) + words_of(b)) =~= (word + words_from(a, end))
            + words_of(b));
    }
}

proof fn lemma_run_before(a: Seq<char>, b: Seq<char>, i: int)
    requires
        0 <= i <= a.len(),
    ensures
        run_end(a + " "@ + b, i) == run_end(a, i),
    decreases a.len() - i,
{
    reveal_strlit(" ");
    let whole = a + " "@ + b;
    if i < a.len() {
        assert(whole[i] == a[i]);
        if alphanumeric(a[i]) {
            lemma_run_before(a, b, i + 1);
        }
    } else {
        assert(whole[i] == ' ');
    }
}

proof fn lemma_run_behind(whole: Seq<char>, b: Seq<char>, shift: int, i: int)
    requires
        0 <= shift <= whole.len(),
        b == whole.skip(shift),
        0 <= i <= b.len(),
    ensures
        run_end(whole, shift + i) == shift + run_end(b, i),
    decreases b.len() - i,
{
    if i < b.len() && alphanumeric(b[i]) {
        lemma_run_behind(whole, b, shift, i + 1);
    }
}

proof fn lemma_words_behind(whole: Seq<char>, b: Seq<char>, shift: int, i: int)
    requires
        0 <= shift <= whole.len(),
        b =~= whole.skip(shift),
        0 <= i <= b.len(),
    ensures
        words_from(whole, shift + i) == words_from(b, i),
    decreases b.len() - i,
{
    if i < b.len() {
        if !alphanumeric(b[i]) {
            lemma_words_behind(whole, b, shift, i + 1);
        } else {
            lemma_run_behind(whole, b, shift, i);
            lemma_run_end(b, i);
            lemma_run_end(b, i + 1);
            let end = run_end(b, i);
            lemma_words_behind(whole, b, shift, end);
            assert(whole.subrange(shift + i, shift + end) =~= b.subrange(i, end));
        }
    }
}

/// The tokens of two queries joined by a space are those of either.
pub proof fn law_joined_query_has_both_tokens(
    a: Seq<char>,
    b: Seq<char>,
    of_a: Seq<Seq<char>>,
    of_b: Seq<Seq<char>>,
    of_both: Seq<Seq<char>>,
)
    requires
        are_tokens(a, of_a),
        are_tokens(b, of_b),
        are_tokens(a + " "@ + b, of_both),
    ensures
        forall|t: Seq<char>| #[trigger]
            of_both.contains(t) <==> of_a.contains(t) || of_b.contains(t),
{
    lemma_words_from(a, b, 0);
    let whole = words_of(a + " "@ + b);
    assert(whole == words_of(a) + words_of(b));
    assert forall|t: Seq<char>| #[trigger] of_both.contains(t) <==> of_a.contains(t)
        || of_b.contains(t) by {
        if of_both.contains(t) {
            let i = choose|i: int| 0 <= i < whole.len() && lowercase(#[trigger] whole[i]) == t;
            if i < words_of(a).len() {
                assert(lowercase(words_of(a)[i]) == t);
            } else {
                assert(lowercase(words_of(b)[i - words_of(a).len()]) == t);
            }
        }
        if of_a.contains(t) {
            let i = choose|i: int|
                0 <= i < words_of(a).len() && lowercase(#[trigger] words_of(a)[i]) == t;
            assert(whole[i] == words_of(a)[i]);
        }
        if of_b.contains(t) {
            let i = choose|i: int|
                0 <= i < words_of(b).len() && lowercase(#[trigger] words_of(b)[i]) == t;
            assert(whole[words_of(a).len() + i] == words_of(b)[i]);
        }
    }
}

proof fn lemma_words_hold_text(text: Seq<char>, i: int, k: int)
    requires
        0 <= i,
        0 <= k < words_from(text, i).len(),
    ensures
        words_from(text, i)[k].len() > 0,
    decreases text.len() - i,
{
    if i < text.len() {
        if !alphanumeric(text[i]) {
            lemma_words_hold_text(text, i + 1, k);
        } else {
            lemma_run_end(text, i + 1);
            if k > 0 {
                lemma_words_hold_text(text, run_end(text, i), k - 1);
            }
        }
    }
}

/// The distinct lower-case words of a query.
pub fn tokens(query: &str) -> (list: Vec<String>)
    ensures
        are_tokens(query@, texts(list@)),
        forall|t: Seq<char>| #[trigger] texts(list@).contains(t) ==> t.len() > 0,
{
    let words = split_words(query);
    let ghost all = words_of(query@);
    let mut names: Vec<String> = Vec::new();
    let mut i: usize = 0;
    while i < words.len()
        invariant
            i <= words.len(),
            texts(words@) == all,
            all == words_of(query@),
            texts(names@).no_duplicates(),
            forall|x: Seq<char>| #[trigger] texts(names@).contains(x) ==> x.len() > 0,
            forall|x: Seq<char>| #[trigger]
                texts(names@).contains(x) <==> exists|k: int|
                    0 <= k < i && lowercase(#[trigger] all[k]) == x,
        decreases words.len() - i,
    {
        let lower = to_lowercase(words[i].as_str());
        let ghost added = lower@;
        assert(all[i as int] == words@[i as int]@);
        proof {
            lemma_words_hold_text(query@, 0, i as int);
        }
        let ghost before = texts(names@);
        if !contains_text(&names, &lower) {
            names.push(lower);
            proof {
                let after = texts(names@);
                assert(after =~= before.push(added));
                assert forall|x: Seq<char>| #[trigger] after.contains(x) <==> before.contains(x)
                    || x == added by {
                    if after.contains(x) {
                        let k = choose|k: int| 0 <= k < after.len() && after[k] == x;
                        if k < before.len() {
                            assert(before[k] == x);
                        }
                    }
                    if before.contains(x) {
                        let k = choose|k: int| 0 <= k < before.len() && before[k] == x;
                        assert(after[k] == x);
                    }
                    assert(after[before.len() as int] == added);
                }
                assert(after.no_duplicates());
            }
        }
        i = i + 1;
    }
    assert(texts(words@).len() == words@.len());
    sort_texts(&names)
}

/// Words that say what to do rather than what it is about.
pub open spec fn is_ignored(word: Seq<char>) -> bool {
    ||| word == "add"@
    ||| word == "create"@
    ||| word == "append"@
    ||| word == "new"@
    ||| word == "table"@
    ||| word == "model"@
    ||| word == "endpoint"@
    ||| word == "definition"@
}

fn ignored(word: &String) -> (yes: bool)
    ensures
        yes == is_ignored(word@),
{
    *word == "add".to_owned() || *word == "create".to_owned() || *word == "append".to_owned()
        || *word == "new".to_owned() || *word == "table".to_owned() || *word
        == "model".to_owned() || *word == "endpoint".to_owned() || *word
        == "definition".to_owned()
}

/// The word with its first letter made large.
pub open spec fn capitalized(word: Seq<char>) -> Seq<char> {
    if word.len() == 0 {
        Seq::empty()
    } else {
        uppercase(word[0]) + word.skip(1)
    }
}

/// The telling words of a query, capitalized.
pub open spec fn title_words(query: Seq<char>, n: int) -> Seq<Seq<char>>
    decreases n,
{
    if n <= 0 {
        Seq::empty()
    } else {
        let word = words_of(query)[n - 1];
        if is_ignored(lowercase(word)) {
            title_words(query, n - 1)
        } else {
            title_words(query, n - 1).push(capitalized(word))
        }
    }
}

fn capitalize(word: &String) -> (text: String)
    ensures
        text@ == capitalized(word@),
{
    let chars = chars_of(word.as_str());
    if chars.len() == 0 {
        let text = String::new();
        assert(text@ =~= capitalized(word@));
        return text;
    }
    let mut text = to_uppercase(chars[0]);
    let rest = text_range(&chars, 1, chars.len());
    text.push_str(rest.as_str());
    assert(chars@.subrange(1, chars@.len() as int) =~= word@.skip(1));
    text
}

/// A title made of the telling words of a query, if it has any.
pub fn suggested_title(query: &str) -> (title: Option<String>)
    ensures
        ({
            let telling = title_words(query@, words_of(query@).len() as int);
            match title {
                None => telling.len() == 0,
                Some(text) => telling.len() > 0 && text@ == joined_by(
                    telling,
                    " "@,
                    telling.len() as int,
                ),
            }
        }),
{
    let words = split_words(query);
    let ghost all = words_of(query@);
    let mut telling: Vec<String> = Vec::new();
    let mut i: usize = 0;
    assert(texts(telling@) =~= title_words(query@, 0));
    while i < words.len()
        invariant
            i <= words.len(),
            texts(words@) == all,
            all == words_of(query@),
            texts(telling@) == title_words(query@, i as int),
        decreases words.len() - i,
    {
        assert(all[i as int] == words@[i as int]@);
        let lower = to_lowercase(words[i].as_str());
        let ghost before = texts(telling@);
        if !ignored(&lower) {
            telling.push(capitalize(&words[i]));
            assert(texts(telling@) =~= before.push(capitalized(all[i as int])));
        }
        i = i + 1;
    }
    assert(texts(words@).len() == words@.len());
    assert(texts(telling@).len() == telling@.len());
    if telling.len() == 0 {
        None
    } else {
        Some(join(&telling, " "))
    }
}

/// The node type that a query speaks of.
pub open spec fn inferred_type(query: Seq<char>) -> Option<Seq<char>> {
    let lower = lowercase(query);
    if occurs(lower, "table"@) {
        Some("database_table"@)
    } else if occurs(lower, "endpoint"@) {
        Some("api_endpoint"@)
    } else if occurs(lower, "model"@) {
        Some("database_model"@)
    } else {
        None
    }
}

/// Infers the node type that a query speaks of.
pub fn infer_type(query: &str) -> (kind: Option<String>)
    ensures
        crate::text::text_of(kind) == inferred_type(query@),
{
    let lower = to_lowercase(query);
    if contains(lower.as_str(), "table") {
        Some("database_table".to_owned())
    } else if contains(lower.as_str(), "endpoint") {
        Some("api_endpoint".to_owned())
    } else if contains(lower.as_str(), "model") {
        Some("database_model".to_owned())
    } else {
        None
    }
}

} // verus!
