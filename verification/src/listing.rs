//! What it means for a sequence to list the rows of a table in order.

use crate::order::{ascending, lemma_lex_asymmetric, lemma_lex_irreflexive, lex_le, lex_lt};
use vstd::prelude::*;

verus! {

/// Whether keys strictly increase along `listed`.
pub open spec fn increasing<T>(listed: Seq<T>, key: spec_fn(T) -> Seq<u128>) -> bool {
    forall|i: int, j: int|
        0 <= i < j < listed.len() ==> lex_lt(key(#[trigger] listed[i]), key(#[trigger] listed[j]))
}

/// Whether `listed` holds exactly the rows that satisfy `pred`, in strictly
/// increasing order of their keys.
pub open spec fn lists<T>(
    rows: Seq<T>,
    pred: spec_fn(T) -> bool,
    key: spec_fn(T) -> Seq<u128>,
    listed: Seq<T>,
) -> bool {
    &&& forall|x: T| #[trigger] listed.contains(x) <==> rows.contains(x) && pred(x)
    &&& increasing(listed, key)
}

/// Two strictly increasing sequences of the same items are the same sequence.
pub proof fn lemma_increasing_unique<T>(a: Seq<T>, b: Seq<T>, key: spec_fn(T) -> Seq<u128>)
    requires
        increasing(a, key),
        increasing(b, key),
        forall|x: T| #[trigger] a.contains(x) <==> b.contains(x),
    ensures
        a == b,
    decreases a.len(),
{
    if a.len() == 0 {
        if b.len() > 0 {
            assert(b.contains(b[0]));
            assert(a.contains(b[0]));
        }
        assert(a =~= b);
    } else {
        assert(a.contains(a[0]));
        let k = choose|k: int| 0 <= k < b.len() && b[k] == a[0];
        assert(b.contains(b[0]));
        assert(a.contains(b[0]));
        let m = choose|m: int| 0 <= m < a.len() && a[m] == b[0];
        if k > 0 && m > 0 {
            lemma_lex_asymmetric(key(b[0]), key(b[k]));
            assert(lex_lt(key(a[0]), key(a[m])));
        }
        assert(a[0] == b[0]);
        let a1 = a.skip(1);
        let b1 = b.skip(1);
        assert forall|x: T| #[trigger] a1.contains(x) <==> b1.contains(x) by {
            if a1.contains(x) {
                let i = choose|i: int| 0 <= i < a1.len() && a1[i] == x;
                assert(a[i + 1] == x);
                assert(a.contains(x));
                assert(b.contains(x));
                let j = choose|j: int| 0 <= j < b.len() && b[j] == x;
                if j == 0 {
                    lemma_lex_irreflexive(key(x));
                    assert(lex_lt(key(a[0]), key(a[i + 1])));
                }
                assert(b1[j - 1] == x);
            }
            if b1.contains(x) {
                let i = choose|i: int| 0 <= i < b1.len() && b1[i] == x;
                assert(b[i + 1] == x);
                assert(b.contains(x));
                assert(a.contains(x));
                let j = choose|j: int| 0 <= j < a.len() && a[j] == x;
                if j == 0 {
                    lemma_lex_irreflexive(key(x));
                    assert(lex_lt(key(b[0]), key(b[i + 1])));
                }
                assert(a1[j - 1] == x);
            }
        }
        assert(increasing(a1, key)) by {
            assert forall|i: int, j: int| 0 <= i < j < a1.len() implies lex_lt(
                key(#[trigger] a1[i]),
                key(#[trigger] a1[j]),
            ) by {
                assert(a1[i] == a[i + 1] && a1[j] == a[j + 1]);
            }
        }
        assert(increasing(b1, key)) by {
            assert forall|i: int, j: int| 0 <= i < j < b1.len() implies lex_lt(
                key(#[trigger] b1[i]),
                key(#[trigger] b1[j]),
            ) by {
                assert(b1[i] == b[i + 1] && b1[j] == b[j + 1]);
            }
        }
        lemma_increasing_unique(a1, b1, key);
        assert(a =~= seq![a[0]] + a1);
        assert(b =~= seq![b[0]] + b1);
    }
}

/// A listing is determined by the table, the condition and the key.
pub proof fn lemma_lists_unique<T>(
    rows: Seq<T>,
    pred: spec_fn(T) -> bool,
    key: spec_fn(T) -> Seq<u128>,
    a: Seq<T>,
    b: Seq<T>,
)
    requires
        lists(rows, pred, key, a),
        lists(rows, pred, key, b),
    ensures
        a == b,
{
    lemma_increasing_unique(a, b, key);
}

/// Whether `picked` holds exactly the positions of the rows that satisfy `pred`,
/// each once.
pub open spec fn picks<T>(rows: Seq<T>, pred: spec_fn(T) -> bool, picked: Seq<usize>) -> bool {
    &&& picked.no_duplicates()
    &&& forall|k: int|
        0 <= k < picked.len() ==> #[trigger] picked[k] < rows.len() && pred(rows[picked[k] as int])
    &&& forall|i: int| #![trigger rows[i]] 0 <= i < rows.len() && pred(rows[i]) ==> picked.contains(i as usize)
}

/// Whether the picked rows, taken in the given order of their keys, are `listed`.
pub open spec fn arranges<T>(
    rows: Seq<T>,
    picked: Seq<usize>,
    keys: Seq<Vec<u128>>,
    order: Seq<usize>,
    listed: Seq<T>,
) -> bool {
    &&& keys.len() == picked.len()
    &&& order.len() == picked.len()
    &&& order.no_duplicates()
    &&& forall|i: int| 0 <= i < order.len() ==> #[trigger] order[i] < picked.len()
    &&& forall|p: usize| p < picked.len() ==> #[trigger] order.contains(p)
    &&& ascending(keys, order)
    &&& listed.len() == order.len()
    &&& forall|i: int|
        0 <= i < order.len() ==> #[trigger] listed[i] == rows[picked[order[i] as int] as int]
}

/// Picking, keying and arranging rows yields their listing.
pub proof fn lemma_arranged_lists<T>(
    rows: Seq<T>,
    pred: spec_fn(T) -> bool,
    key: spec_fn(T) -> Seq<u128>,
    picked: Seq<usize>,
    keys: Seq<Vec<u128>>,
    order: Seq<usize>,
    listed: Seq<T>,
)
    requires
        rows.len() <= usize::MAX,
        picked.len() <= usize::MAX,
        picks(rows, pred, picked),
        arranges(rows, picked, keys, order, listed),
        forall|k: int|
            0 <= k < picked.len() ==> #[trigger] keys[k]@ == key(rows[picked[k] as int]),
        forall|k: int, l: int|
            0 <= k < picked.len() && 0 <= l < picked.len() && k != l ==> key(
                rows[#[trigger] picked[k] as int],
            ) != key(rows[#[trigger] picked[l] as int]),
    ensures
        lists(rows, pred, key, listed),
{
    assert forall|x: T| #[trigger] listed.contains(x) <==> rows.contains(x) && pred(x) by {
        if listed.contains(x) {
            let i = choose|i: int| 0 <= i < listed.len() && listed[i] == x;
            let p = picked[order[i] as int];
            assert(rows[p as int] == x);
        }
        if rows.contains(x) && pred(x) {
            let r = choose|r: int| 0 <= r < rows.len() && rows[r] == x;
            assert(picked.contains(r as usize));
            let k = choose|k: int| 0 <= k < picked.len() && picked[k] == r as usize;
            assert(order.contains(k as usize));
            let i = choose|i: int| 0 <= i < order.len() && order[i] == k as usize;
            assert(listed[i] == x);
        }
    }
    assert forall|i: int, j: int| 0 <= i < j < listed.len() implies lex_lt(
        key(#[trigger] listed[i]),
        key(#[trigger] listed[j]),
    ) by {
        let a = order[i] as int;
        let b = order[j] as int;
        assert(a != b);
        assert(lex_le(keys[a]@, keys[b]@));
        assert(keys[a]@ == key(rows[picked[a] as int]));
        assert(keys[b]@ == key(rows[picked[b] as int]));
    }
}

/// Rows with distinct keys can be listed.
pub proof fn lemma_listing<T>(
    rows: Seq<T>,
    pred: spec_fn(T) -> bool,
    key: spec_fn(T) -> Seq<u128>,
    n: int,
) -> (listed: Seq<T>)
    requires
        0 <= n <= rows.len(),
        forall|i: int, j: int|
            0 <= i < j < rows.len() && pred(#[trigger] rows[i]) && pred(#[trigger] rows[j]) ==> key(
                rows[i],
            ) != key(rows[j]),
    ensures
        lists(rows.take(n), pred, key, listed),
    decreases n,
{
    if n == 0 {
        Seq::empty()
    } else {
        let before = lemma_listing(rows, pred, key, n - 1);
        let x = rows[n - 1];
        let old_rows = rows.take(n - 1);
        let new_rows = rows.take(n);
        assert forall|y: T| #[trigger] new_rows.contains(y) <==> old_rows.contains(y) || y == x by {
            if new_rows.contains(y) {
                let k = choose|k: int| 0 <= k < new_rows.len() && new_rows[k] == y;
                if k < n - 1 {
                    assert(old_rows[k] == y);
                }
            }
            if old_rows.contains(y) {
                let k = choose|k: int| 0 <= k < old_rows.len() && old_rows[k] == y;
                assert(new_rows[k] == y);
            }
            assert(new_rows[n - 1] == x);
        }
        if !pred(x) {
            before
        } else {
            assert forall|k: int| 0 <= k < before.len() implies key(#[trigger] before[k])
                != key(x) by {
                assert(before.contains(before[k]));
                let i = choose|i: int| 0 <= i < old_rows.len() && old_rows[i] == before[k];
                assert(rows[i] == before[k]);
            }
            let p = lemma_place(before, key, x, 0);
            let listed = before.insert(p, x);
            assert forall|y: T| #[trigger] listed.contains(y) <==> new_rows.contains(y) && pred(
                y,
            ) by {
                if listed.contains(y) {
                    let k = choose|k: int| 0 <= k < listed.len() && listed[k] == y;
                    if k < p {
                        assert(before[k] == y);
                        assert(before.contains(y));
                    } else if k > p {
                        assert(before[k - 1] == y);
                        assert(before.contains(y));
                    }
                }
                if before.contains(y) {
                    let k = choose|k: int| 0 <= k < before.len() && before[k] == y;
                    if k < p {
                        assert(listed[k] == y);
                    } else {
                        assert(listed[k + 1] == y);
                    }
                }
                assert(listed[p] == x);
            }
            assert forall|i: int, j: int| 0 <= i < j < listed.len() implies lex_lt(
                key(#[trigger] listed[i]),
                key(#[trigger] listed[j]),
            ) by {
                let a = if i < p {
                    i
                } else {
                    i - 1
                };
                let b = if j < p {
                    j
                } else {
                    j - 1
                };
                if i != p {
                    assert(listed[i] == before[a]);
                }
                if j != p {
                    assert(listed[j] == before[b]);
                }
            }
            listed
        }
    }
}

/// Where an item goes among increasing ones: behind the lower ones from `from` on.
proof fn lemma_place<T>(items: Seq<T>, key: spec_fn(T) -> Seq<u128>, x: T, from: int) -> (p: int)
    requires
        increasing(items, key),
        0 <= from <= items.len(),
        forall|k: int| 0 <= k < items.len() ==> key(#[trigger] items[k]) != key(x),
        forall|k: int| 0 <= k < from ==> lex_lt(key(#[trigger] items[k]), key(x)),
    ensures
        from <= p <= items.len(),
        forall|k: int| 0 <= k < p ==> lex_lt(key(#[trigger] items[k]), key(x)),
        forall|k: int| p <= k < items.len() ==> lex_lt(key(x), key(#[trigger] items[k])),
    decreases items.len() - from,
{
    if from == items.len() {
        from
    } else {
        crate::order::lemma_lex_total(key(items[from]), key(x));
        if lex_lt(key(items[from]), key(x)) {
            lemma_place(items, key, x, from + 1)
        } else {
            assert forall|k: int| from <= k < items.len() implies lex_lt(
                key(x),
                key(#[trigger] items[k]),
            ) by {
                if k > from {
                    crate::order::lemma_lex_transitive(key(x), key(items[from]), key(items[k]));
                }
            }
            from
        }
    }
}

} // verus!
