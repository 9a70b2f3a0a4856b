//! What the functions on text promise.

use crate::query::{
    hits, last_value, qualified, text_end, text_start, trimmed, unquoted, value_at, Qualifier,
};
use crate::text::{decimal, digit};
use crate::words::{
    alphanumeric, capitalized, is_ignored, joined_by, lowercase, run_end, title_words, whitespace,
    words_from, words_of,
};
use vstd::prelude::*;

verus! {

proof fn lemma_run_end(text: Seq<char>, i: int)
    requires
        0 <= i <= text.len(),
    ensures
        i <= run_end(text, i) <= text.len(),
        forall|k: int| i <= k < run_end(text, i) ==> alphanumeric(#[trigger] text[k]),
        run_end(text, i) < text.len() ==> !alphanumeric(text[run_end(text, i)]),
    decreases text.len() - i,
{
    if i < text.len() && alphanumeric(text[i]) {
        lemma_run_end(text, i + 1);
    }
}

/// Whether letters and digits fill the range and end at its ends.
pub open spec fn is_run(text: Seq<char>, from: int, to: int) -> bool {
    &&& 0 <= from < to <= text.len()
    &&& forall|k: int| from <= k < to ==> alphanumeric(#[trigger] text[k])
    &&& from > 0 ==> !alphanumeric(text[from - 1])
    &&& to < text.len() ==> !alphanumeric(text[to])
}

proof fn lemma_words_from(text: Seq<char>, i: int, w: int)
    requires
        0 <= i <= text.len(),
        i > 0 ==> !alphanumeric(text[i - 1]) || i == text.len() || !alphanumeric(text[i]),
        0 <= w < words_from(text, i).len(),
    ensures
        exists|from: int, to: int|
            i <= from && #[trigger] is_run(text, from, to) && words_from(text, i)[w]
                == text.subrange(from, to),
    decreases text.len() - i,
{
    if i < text.len() {
        if !alphanumeric(text[i]) {
            lemma_words_from(text, i + 1, w);
            let (from, to) = choose|from: int, to: int|
                i + 1 <= from && #[trigger] is_run(text, from, to) && words_from(text, i + 1)[w]
                    == text.subrange(from, to);
            assert(is_run(text, from, to));
        } else {
            lemma_run_end(text, i);
            let e = run_end(text, i);
            lemma_run_end(text, i + 1);
            assert(e > i);
            let rest = words_from(text, e);
            assert(words_from(text, i) == seq![text.subrange(i, e)] + rest);
            if w == 0 {
                assert(is_run(text, i, e));
            } else {
                assert(words_from(text, i)[w] == rest[w - 1]);
                lemma_words_from(text, e, w - 1);
                let (from, to) = choose|from: int, to: int|
                    e <= from && #[trigger] is_run(text, from, to) && rest[w - 1] == text.subrange(
                        from,
                        to,
                    );
                assert(is_run(text, from, to));
            }
        }
    }
}

proof fn lemma_words_cover(text: Seq<char>, i: int, from: int, to: int)
    requires
        0 <= i <= from,
        i > 0 ==> !alphanumeric(text[i - 1]) || i == text.len() || !alphanumeric(text[i]),
        is_run(text, from, to),
    ensures
        words_from(text, i).contains(text.subrange(from, to)),
    decreases text.len() - i,
{
    if !alphanumeric(text[i]) {
        assert(i < from);
        lemma_words_cover(text, i + 1, from, to);
    } else {
        lemma_run_end(text, i);
        lemma_run_end(text, i + 1);
        let e = run_end(text, i);
        let rest = words_from(text, e);
        let all = words_from(text, i);
        assert(all == seq![text.subrange(i, e)] + rest);
        if from == i {
            if to < e {
                assert(alphanumeric(text[to]));
            }
            if e < to {
                assert(alphanumeric(text[e]));
            }
            assert(all[0] == text.subrange(from, to));
        } else {
            if from < e {
                assert(alphanumeric(text[from - 1]));
            }
            lemma_words_cover(text, e, from, to);
            let k = choose|k: int| 0 <= k < rest.len() && rest[k] == text.subrange(from, to);
            assert(all[k + 1] == text.subrange(from, to));
        }
    }
}

/// The words of a text are its runs of letters and digits: each word is one, and each is a word.
pub proof fn law_words_are_the_runs(text: Seq<char>, w: int, from: int, to: int)
    ensures
        0 <= w < words_of(text).len() ==> exists|a: int, b: int| #[trigger]
            is_run(text, a, b) && words_of(text)[w] == text.subrange(a, b),
        is_run(text, from, to) ==> words_of(text).contains(text.subrange(from, to)),
{
    if 0 <= w < words_of(text).len() {
        lemma_words_from(text, 0, w);
        let (a, b) = choose|a: int, b: int|
            0 <= a && #[trigger] is_run(text, a, b) && words_from(text, 0)[w] == text.subrange(a, b);
        assert(is_run(text, a, b));
    }
    if is_run(text, from, to) {
        lemma_words_cover(text, 0, from, to);
    }
}

proof fn lemma_text_start(text: Seq<char>, i: int)
    requires
        0 <= i <= text.len(),
    ensures
        i <= text_start(text, i) <= text.len(),
        forall|k: int| i <= k < text_start(text, i) ==> whitespace(#[trigger] text[k]),
        text_start(text, i) < text.len() ==> !whitespace(text[text_start(text, i)]),
    decreases text.len() - i,
{
    if i < text.len() && whitespace(text[i]) {
        lemma_text_start(text, i + 1);
    }
}

proof fn lemma_text_end(text: Seq<char>, from: int, n: int)
    requires
        0 <= from <= n <= text.len(),
    ensures
        from <= text_end(text, from, n) <= n,
        forall|k: int| text_end(text, from, n) <= k < n ==> whitespace(#[trigger] text[k]),
        text_end(text, from, n) > from ==> !whitespace(text[text_end(text, from, n) - 1]),
    decreases n - from,
{
    if n > from && whitespace(text[n - 1]) {
        lemma_text_end(text, from, n - 1);
    }
}

/// Trimming takes away white space at both ends, all of it, and nothing else.
pub proof fn law_trimming_takes_white_space(text: Seq<char>)
    ensures
        exists|a: int, b: int|
            {
                &&& 0 <= a <= b <= text.len()
                &&& trimmed(text) == #[trigger] text.subrange(a, b)
                &&& forall|k: int| 0 <= k < a ==> whitespace(#[trigger] text[k])
                &&& forall|k: int| b <= k < text.len() ==> whitespace(#[trigger] text[k])
            },
        trimmed(text).len() > 0 ==> !whitespace(trimmed(text)[0]) && !whitespace(
            trimmed(text).last(),
        ),
{
    let n = text.len() as int;
    lemma_text_start(text, 0);
    let a = text_start(text, 0);
    lemma_text_end(text, a, n);
    let b = text_end(text, a, n);
    assert(trimmed(text) == text.subrange(a, b));
}

/// Quotes around a value are taken off, and only a pair of them.
pub proof fn law_quotes_are_taken_off(text: Seq<char>)
    ensures
        unquoted(seq!['"'] + text + seq!['"']) == text,
        text.len() < 2 || text[0] != '"' || text.last() != '"' ==> unquoted(text) == text,
{
    let quoted = seq!['"'] + text + seq!['"'];
    assert(quoted[0] == '"' && quoted.last() == '"');
    assert(quoted.subrange(1, quoted.len() - 1) =~= text);
}

proof fn lemma_last_value(raw: Seq<char>, at: Seq<(int, Qualifier)>, q: Qualifier, n: int, i: int)
    requires
        0 <= i < n <= at.len(),
        at[i].1 == q,
        value_at(raw, at, i).len() > 0,
        forall|k: int|
            i < k < n && (#[trigger] at[k]).1 == q ==> value_at(raw, at, k).len() == 0,
    ensures
        last_value(raw, at, q, n) == Some(value_at(raw, at, i)),
    decreases n,
{
    if i < n - 1 {
        assert(at[n - 1].1 == q ==> value_at(raw, at, n - 1).len() == 0);
        lemma_last_value(raw, at, q, n - 1, i);
    }
}

proof fn lemma_no_value(raw: Seq<char>, at: Seq<(int, Qualifier)>, q: Qualifier, n: int)
    requires
        0 <= n <= at.len(),
        forall|k: int|
            0 <= k < n && (#[trigger] at[k]).1 == q ==> value_at(raw, at, k).len() == 0,
    ensures
        last_value(raw, at, q, n) is None,
    decreases n,
{
    if n > 0 {
        assert(at[n - 1].1 == q ==> value_at(raw, at, n - 1).len() == 0);
        lemma_no_value(raw, at, q, n - 1);
    }
}

/// A qualifier has the last value given for it that is not empty, trimmed and without quotes,
/// up to the next qualifier; without one it has none.
pub proof fn law_the_last_value_counts(raw: Seq<char>, q: Qualifier, i: int)
    ensures
        (0 <= i < hits(raw).len() && hits(raw)[i].1 == q && value_at(raw, hits(raw), i).len() > 0
            && forall|k: int|
            i < k < hits(raw).len() && (#[trigger] hits(raw)[k]).1 == q ==> value_at(
                raw,
                hits(raw),
                k,
            ).len() == 0) ==> {
            let at = hits(raw);
            let end = if i + 1 < at.len() {
                at[i + 1].0
            } else {
                raw.len() as int
            };
            qualified(raw, q) == Some(
                unquoted(trimmed(raw.subrange(at[i].0 + q.keyword().len(), end))),
            )
        },
        (forall|k: int| 0 <= k < hits(raw).len() ==> (#[trigger] hits(raw)[k]).1 != q) ==> qualified(
            raw,
            q,
        ) is None,
{
    let at = hits(raw);
    let n = at.len() as int;
    if 0 <= i < n && at[i].1 == q && value_at(raw, at, i).len() > 0 && forall|k: int|
        i < k < n && (#[trigger] at[k]).1 == q ==> value_at(raw, at, k).len() == 0 {
        lemma_last_value(raw, at, q, n, i);
    }
    if forall|k: int| 0 <= k < n ==> (#[trigger] at[k]).1 != q {
        lemma_no_value(raw, at, q, n);
    }
}

/// Joining two lists is joining each and then both.
pub proof fn law_joining_is_associative(
    a: Seq<Seq<char>>,
    b: Seq<Seq<char>>,
    separator: Seq<char>,
)
    requires
        a.len() > 0,
        b.len() > 0,
    ensures
        joined_by(a + b, separator, (a + b).len() as int) == joined_by(
            a,
            separator,
            a.len() as int,
        ) + separator + joined_by(b, separator, b.len() as int),
        joined_by(a, separator, 1) == a[0],
    decreases b.len(),
{
    let n = (a + b).len() as int;
    if b.len() == 1 {
        lemma_joined_prefix(a + b, a, separator, a.len() as int);
        assert((a + b)[n - 1] == b[0]);
    } else {
        let c = b.drop_last();
        law_joining_is_associative(a, c, separator);
        lemma_joined_prefix(a + b, a + c, separator, n - 1);
        lemma_joined_prefix(b, c, separator, b.len() - 1);
        let x = joined_by(a, separator, a.len() as int);
        let y = joined_by(c, separator, c.len() as int);
        assert((a + b)[n - 1] == b.last());
        assert((x + separator + y) + separator + b.last() =~= x + separator + (y + separator
            + b.last()));
    }
}

proof fn lemma_joined_prefix(
    whole: Seq<Seq<char>>,
    part: Seq<Seq<char>>,
    separator: Seq<char>,
    n: int,
)
    requires
        n <= part.len() <= whole.len(),
        forall|i: int| 0 <= i < n ==> whole[i] == #[trigger] part[i],
    ensures
        joined_by(whole, separator, n) == joined_by(part, separator, n),
    decreases n,
{
    if n > 1 {
        lemma_joined_prefix(whole, part, separator, n - 1);
        assert(whole[n - 1] == part[n - 1]);
    } else if n == 1 {
        assert(whole[0] == part[0]);
    }
}

/// The number that a text of decimal digits stands for.
pub open spec fn number_of(text: Seq<char>) -> nat
    decreases text.len(),
{
    if text.len() == 0 {
        0
    } else {
        10 * number_of(text.drop_last()) + (text.last() as u32 - '0' as u32) as nat
    }
}

/// A numeral stands for its number, is made of digits, and has no zero in front unless it is
/// zero itself.
pub proof fn law_numerals_stand_for_their_number(n: nat)
    ensures
        number_of(decimal(n)) == n,
        decimal(n).len() > 0,
        forall|i: int| 0 <= i < decimal(n).len() ==> '0' <= #[trigger] decimal(n)[i] <= '9',
        n > 0 ==> decimal(n)[0] != '0',
    decreases n,
{
    reveal_with_fuel(number_of, 2);
    if n < 10 {
        let d = digit(n);
        assert(d as u32 == 48 + n);
        assert(decimal(n).drop_last() =~= Seq::<char>::empty());
        assert(decimal(n).last() == d);
    } else {
        law_numerals_stand_for_their_number(n / 10);
        let d = digit(n % 10);
        assert(d as u32 == 48 + n % 10);
        assert(decimal(n).drop_last() =~= decimal(n / 10));
        assert(decimal(n).last() == d);
        assert(decimal(n)[0] == decimal(n / 10)[0]);
    }
}

/// Words of a query that tell something.
pub open spec fn is_telling() -> spec_fn(Seq<char>) -> bool {
    |word: Seq<char>| !is_ignored(lowercase(word))
}

proof fn lemma_title_words(query: Seq<char>, n: int)
    requires
        0 <= n <= words_of(query).len(),
    ensures
        ({
            let kept = words_of(query).take(n).filter(is_telling());
            let words = title_words(query, n);
            &&& words.len() == kept.len()
            &&& forall|i: int| 0 <= i < words.len() ==> #[trigger] words[i] == capitalized(kept[i])
        }),
    decreases n,
{
    reveal(Seq::filter);
    if n > 0 {
        lemma_title_words(query, n - 1);
        assert(words_of(query).take(n).drop_last() =~= words_of(query).take(n - 1));
        assert(words_of(query).take(n).last() == words_of(query)[n - 1]);
    }
}

/// A suggested title is made of the telling words of the query, in order, each with a capital.
pub proof fn law_titles_are_made_of_telling_words(query: Seq<char>, i: int)
    ensures
        ({
            let kept = words_of(query).filter(is_telling());
            let words = title_words(query, words_of(query).len() as int);
            &&& words.len() == kept.len()
            &&& 0 <= i < words.len() && kept[i].len() > 0 && 'a' <= kept[i][0] <= 'z'
                ==> words[i].len() == kept[i].len() && words[i][0] as u32 + 32 == kept[i][0] as u32
                && words[i].skip(1) == kept[i].skip(1)
        }),
{
    lemma_title_words(query, words_of(query).len() as int);
    assert(words_of(query).take(words_of(query).len() as int) =~= words_of(query));
    let kept = words_of(query).filter(is_telling());
    let words = title_words(query, words_of(query).len() as int);
    if 0 <= i < words.len() && kept[i].len() > 0 && 'a' <= kept[i][0] <= 'z' {
        let c = kept[i][0];
        assert(words[i] == capitalized(kept[i]));
        assert(words[i].skip(1) =~= kept[i].skip(1));
    }
}

} // verus!
