//! Lexicographic keys and the one sort every listing of the library goes through.
//!
//! An ordering such as "sibling order, then identity" or "depth, then path" is
//! written as a sequence of integers, and rows are compared by that sequence.

use vstd::prelude::*;

verus! {

/// Strict lexicographic order on keys; a proper prefix comes first.
pub open spec fn lex_lt(a: Seq<u128>, b: Seq<u128>) -> bool
    decreases a.len(),
{
    if b.len() == 0 {
        false
    } else if a.len() == 0 {
        true
    } else if a[0] != b[0] {
        a[0] < b[0]
    } else {
        lex_lt(a.skip(1), b.skip(1))
    }
}

pub open spec fn lex_le(a: Seq<u128>, b: Seq<u128>) -> bool {
    a == b || lex_lt(a, b)
}

/// No key is below itself.
pub proof fn lemma_lex_irreflexive(a: Seq<u128>)
    ensures
        !lex_lt(a, a),
    decreases a.len(),
{
    if a.len() > 0 {
        lemma_lex_irreflexive(a.skip(1));
    }
}

/// The order is transitive.
pub proof fn lemma_lex_transitive(a: Seq<u128>, b: Seq<u128>, c: Seq<u128>)
    requires
        lex_lt(a, b),
        lex_lt(b, c),
    ensures
        lex_lt(a, c),
    decreases a.len(),
{
    if a.len() > 0 && a[0] == b[0] && b[0] == c[0] {
        lemma_lex_transitive(a.skip(1), b.skip(1), c.skip(1));
    }
}

/// Of two keys that are not below one another, both are the same.
pub proof fn lemma_lex_total(a: Seq<u128>, b: Seq<u128>)
    ensures
        lex_lt(a, b) || a == b || lex_lt(b, a),
    decreases a.len(),
{
    if a.len() == 0 {
        if b.len() == 0 {
            assert(a =~= b);
        }
    } else if b.len() > 0 && a[0] == b[0] {
        lemma_lex_total(a.skip(1), b.skip(1));
        if a.skip(1) == b.skip(1) {
            assert forall|i: int| 0 <= i < a.len() implies a[i] == b[i] by {
                if i > 0 {
                    assert(a.skip(1)[i - 1] == b.skip(1)[i - 1]);
                }
            }
            assert(a.len() == b.len()) by {
                assert(a.skip(1).len() == b.skip(1).len());
            }
            assert(a =~= b);
        }
    }
}

/// Two keys are never each below the other.
pub proof fn lemma_lex_asymmetric(a: Seq<u128>, b: Seq<u128>)
    requires
        lex_lt(a, b),
    ensures
        !lex_lt(b, a),
        a != b,
{
    lemma_lex_irreflexive(a);
    if lex_lt(b, a) {
        lemma_lex_transitive(a, b, a);
    }
}

pub proof fn lemma_lex_le_transitive(a: Seq<u128>, b: Seq<u128>, c: Seq<u128>)
    requires
        lex_le(a, b),
        lex_le(b, c),
    ensures
        lex_le(a, c),
{
    if lex_lt(a, b) && lex_lt(b, c) {
        lemma_lex_transitive(a, b, c);
    }
}

/// Keys of two components compare as pairs do.
pub proof fn lemma_lex_pair(a: u128, b: u128, c: u128, d: u128)
    ensures
        lex_lt(seq![a, b], seq![c, d]) <==> a < c || (a == c && b < d),
{
    let x = seq![a, b];
    let y = seq![c, d];
    assert(x.skip(1) =~= seq![b]);
    assert(y.skip(1) =~= seq![d]);
    lemma_lex_single(b, d);
}

/// Keys of one component compare as integers do.
pub proof fn lemma_lex_single(a: u128, b: u128)
    ensures
        lex_lt(seq![a], seq![b]) <==> a < b,
{
    let x = seq![a];
    let y = seq![b];
    assert(y.skip(1).len() == 0);
    assert(!lex_lt(x.skip(1), y.skip(1)));
}

/// Whether `a` comes strictly before `b`.
pub fn lex_less(a: &Vec<u128>, b: &Vec<u128>) -> (less: bool)
    ensures
        less == lex_lt(a@, b@),
{
    let mut i: usize = 0;
    proof {
        assert(a@.skip(0) =~= a@);
        assert(b@.skip(0) =~= b@);
    }
    while i < a.len() && i < b.len() && a[i] == b[i]
        invariant
            i <= a.len(),
            i <= b.len(),
            lex_lt(a@, b@) == lex_lt(a@.skip(i as int), b@.skip(i as int)),
        decreases a.len() - i,
    {
        proof {
            let x = a@.skip(i as int);
            let y = b@.skip(i as int);
            assert(x[0] == y[0]);
            assert(x.skip(1) =~= a@.skip(i + 1));
            assert(y.skip(1) =~= b@.skip(i + 1));
        }
        i = i + 1;
    }
    if i == b.len() {
        false
    } else if i == a.len() {
        true
    } else {
        a[i] < b[i]
    }
}

/// Whether the keys at the listed positions never decrease.
pub open spec fn ascending(keys: Seq<Vec<u128>>, order: Seq<usize>) -> bool {
    forall|i: int, j: int|
        0 <= i < j < order.len() ==> lex_le(
            #[trigger] keys[order[i] as int]@,
            #[trigger] keys[order[j] as int]@,
        )
}

spec fn in_range(order: Seq<usize>, n: int) -> bool {
    forall|i: int| 0 <= i < order.len() ==> #[trigger] order[i] < n
}

fn merge(keys: &Vec<Vec<u128>>, left: &Vec<usize>, right: &Vec<usize>) -> (merged: Vec<usize>)
    requires
        in_range(left@, keys.len() as int),
        in_range(right@, keys.len() as int),
        ascending(keys@, left@),
        ascending(keys@, right@),
    ensures
        in_range(merged@, keys.len() as int),
        ascending(keys@, merged@),
        merged@.to_multiset() == left@.to_multiset().add(right@.to_multiset()),
{
    let mut merged: Vec<usize> = Vec::new();
    let mut i: usize = 0;
    let mut j: usize = 0;
    proof {
        broadcast use vstd::seq_lib::group_to_multiset_ensures;
        assert(left@.take(0) =~= Seq::empty());
        assert(right@.take(0) =~= Seq::empty());
        assert(merged@.to_multiset() =~= left@.take(0).to_multiset().add(right@.take(0).to_multiset()));
    }
    while i < left.len() || j < right.len()
        invariant
            i <= left.len(),
            j <= right.len(),
            in_range(left@, keys.len() as int),
            in_range(right@, keys.len() as int),
            in_range(merged@, keys.len() as int),
            ascending(keys@, left@),
            ascending(keys@, right@),
            ascending(keys@, merged@),
            merged@.to_multiset() == left@.take(i as int).to_multiset().add(
                right@.take(j as int).to_multiset(),
            ),
            forall|a: int, b: int|
                0 <= a < merged.len() && i <= b < left.len() ==> lex_le(
                    #[trigger] keys@[merged@[a] as int]@,
                    #[trigger] keys@[left@[b] as int]@,
                ),
            forall|a: int, b: int|
                0 <= a < merged.len() && j <= b < right.len() ==> lex_le(
                    #[trigger] keys@[merged@[a] as int]@,
                    #[trigger] keys@[right@[b] as int]@,
                ),
        decreases left.len() - i + right.len() - j,
    {
        let from_right: bool = if i == left.len() {
            true
        } else if j == right.len() {
            false
        } else {
            lex_less(&keys[right[j]], &keys[left[i]])
        };
        let ghost before = merged@;
        if from_right {
            proof {
                if i < left.len() {
                    assert forall|b: int| i <= b < left.len() implies lex_le(
                        keys@[right@[j as int] as int]@,
                        #[trigger] keys@[left@[b] as int]@,
                    ) by {
                        lemma_lex_le_transitive(
                            keys@[right@[j as int] as int]@,
                            keys@[left@[i as int] as int]@,
                            keys@[left@[b] as int]@,
                        );
                    }
                }
            }
            merged.push(right[j]);
            proof {
                broadcast use vstd::seq_lib::group_to_multiset_ensures;
                assert(right@.take(j + 1) =~= right@.take(j as int).push(right@[j as int]));
                assert(merged@.to_multiset() =~= left@.take(i as int).to_multiset().add(
                    right@.take(j + 1).to_multiset(),
                ));
            }
            j = j + 1;
        } else {
            proof {
                if j < right.len() {
                    lemma_lex_total(keys@[right@[j as int] as int]@, keys@[left@[i as int] as int]@);
                    assert forall|b: int| j <= b < right.len() implies lex_le(
                        keys@[left@[i as int] as int]@,
                        #[trigger] keys@[right@[b] as int]@,
                    ) by {
                        lemma_lex_le_transitive(
                            keys@[left@[i as int] as int]@,
                            keys@[right@[j as int] as int]@,
                            keys@[right@[b] as int]@,
                        );
                    }
                }
            }
            merged.push(left[i]);
            proof {
                broadcast use vstd::seq_lib::group_to_multiset_ensures;
                assert(left@.take(i + 1) =~= left@.take(i as int).push(left@[i as int]));
                assert(merged@.to_multiset() =~= left@.take(i + 1).to_multiset().add(
                    right@.take(j as int).to_multiset(),
                ));
            }
            i = i + 1;
        }
        assert(merged@ =~= before.push(merged@.last()));
    }
    proof {
        assert(left@.take(left.len() as int) =~= left@);
        assert(right@.take(right.len() as int) =~= right@);
    }
    merged
}

fn sort_positions(keys: &Vec<Vec<u128>>, lo: usize, hi: usize) -> (sorted: Vec<usize>)
    requires
        lo <= hi <= keys.len(),
    ensures
        in_range(sorted@, keys.len() as int),
        ascending(keys@, sorted@),
        sorted@.to_multiset() == positions(lo, hi).to_multiset(),
    decreases hi - lo,
{
    let mut sorted: Vec<usize> = Vec::new();
    if lo == hi {
        assert(sorted@ =~= positions(lo, hi));
        sorted
    } else if hi - lo == 1 {
        sorted.push(lo);
        assert(sorted@ =~= positions(lo, hi));
        sorted
    } else {
        let mid: usize = lo + (hi - lo) / 2;
        let left = sort_positions(keys, lo, mid);
        let right = sort_positions(keys, mid, hi);
        proof {
            assert(positions(lo, hi) =~= positions(lo, mid) + positions(mid, hi));
            vstd::seq_lib::lemma_multiset_commutative(positions(lo, mid), positions(mid, hi));
        }
        merge(keys, &left, &right)
    }
}

spec fn positions(lo: usize, hi: usize) -> Seq<usize> {
    Seq::new((hi - lo) as nat, |i: int| (lo + i) as usize)
}

/// Positions of `keys` in ascending order of the keys they hold.
pub fn sorted_positions(keys: &Vec<Vec<u128>>) -> (order: Vec<usize>)
    ensures
        order.len() == keys.len(),
        order@.no_duplicates(),
        forall|i: int| 0 <= i < order.len() ==> #[trigger] order@[i] < keys.len(),
        forall|p: usize| p < keys.len() ==> #[trigger] order@.contains(p),
        ascending(keys@, order@),
{
    let order = sort_positions(keys, 0, keys.len());
    proof {
        let all = positions(0, keys.len());
        broadcast use vstd::seq_lib::group_to_multiset_ensures;
        assert(all.no_duplicates());
        all.lemma_multiset_has_no_duplicates();
        order@.lemma_multiset_has_no_duplicates_conv();
        assert(order@.to_multiset().len() == all.to_multiset().len());
        assert forall|p: usize| p < keys.len() implies #[trigger] order@.contains(p) by {
            assert(all[p as int] == p);
            assert(all.contains(p));
            assert(order@.to_multiset().count(p) > 0);
        }
    }
    order
}

} // verus!
