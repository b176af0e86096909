//! A verified insertion sort over any record type that states its ordering.

use vstd::prelude::*;
use vstd::multiset::Multiset;
use vstd::seq_lib::*;

use crate::strings::{
    lemma_seq_lt_irreflexive, lemma_seq_lt_total, lemma_seq_lt_transitive, seq_le, seq_lt,
};

verus! {

broadcast use group_to_multiset_ensures;

/// A total preorder on a record type, with its executable comparison.
pub trait SortKey: Sized + DeepView {
    spec fn spec_le(&self, other: &Self) -> bool;

    proof fn lemma_le_total(a: &Self, b: &Self)
        ensures
            a.spec_le(b) || b.spec_le(a),
    ;

    proof fn lemma_le_transitive(a: &Self, b: &Self, c: &Self)
        requires
            a.spec_le(b),
            b.spec_le(c),
        ensures
            a.spec_le(c),
    ;

    fn le(&self, other: &Self) -> (r: bool)
        ensures
            r == self.spec_le(other),
    ;
}

/// Every earlier element is ordered before every later one.
pub open spec fn sorted_seq<T: SortKey>(s: Seq<T>) -> bool {
    forall|i: int, j: int| 0 <= i < j < s.len() ==> #[trigger] s[i].spec_le(&s[j])
}

/// Inserts `x` into a sorted vector, after every element ordered at or before it.
fn insert_sorted<T: SortKey>(r: &mut Vec<T>, x: T)
    requires
        sorted_seq(old(r)@),
    ensures
        sorted_seq(final(r)@),
        final(r)@.to_multiset() == old(r)@.to_multiset().insert(x),
        final(r).deep_view().to_multiset() == old(r).deep_view().to_multiset().insert(x.deep_view()),
{
    let ghost dv0 = r.deep_view();
    let mut p: usize = 0;
    while p < r.len() && r[p].le(&x)
        invariant
            p <= r.len(),
            r@ == old(r)@,
            forall|k: int| 0 <= k < p ==> #[trigger] r@[k].spec_le(&x),
        decreases r.len() - p,
    {
        p = p + 1;
    }
    let ghost before = r@;
    proof {
        if p < before.len() {
            T::lemma_le_total(&before[p as int], &x);
        }
    }
    let ghost xd = x.deep_view();
    r.insert(p, x);
    proof {
        assert(r.deep_view() =~= dv0.insert(p as int, xd));
        let after = r@;
        assert(after == before.insert(p as int, x));
        assert forall|i: int, j: int| 0 <= i < j < after.len() implies #[trigger] after[i].spec_le(
            &after[j],
        ) by {
            if i < p && j < p {
                assert(before[i].spec_le(&before[j]));
            } else if i < p && j == p {
            } else if i < p && j > p {
                assert(before[i].spec_le(&x));
                if j - 1 == p {
                } else {
                    assert(before[p as int].spec_le(&before[j - 1]));
                    T::lemma_le_transitive(&x, &before[p as int], &before[j - 1]);
                }
                T::lemma_le_transitive(&before[i], &x, &before[j - 1]);
            } else if i == p {
                if j - 1 == p {
                } else {
                    assert(before[p as int].spec_le(&before[j - 1]));
                    T::lemma_le_transitive(&x, &before[p as int], &before[j - 1]);
                }
            } else {
                assert(before[i - 1].spec_le(&before[j - 1]));
            }
        }
    }
}

/// Sorts a vector by the record's order. The result is sorted and holds exactly
/// the input's elements.
pub fn sort_records<T: SortKey>(v: Vec<T>) -> (r: Vec<T>)
    ensures
        sorted_seq(r@),
        r@.to_multiset() == v@.to_multiset(),
        r.deep_view().to_multiset() == v.deep_view().to_multiset(),
        r@.len() == v@.len(),
{
    let mut rest = v;
    let mut out: Vec<T> = Vec::new();
    while rest.len() > 0
        invariant
            sorted_seq(out@),
            v@.to_multiset() == out@.to_multiset().add(rest@.to_multiset()),
            v.deep_view().to_multiset() == out.deep_view().to_multiset().add(rest.deep_view().to_multiset()),
        decreases rest.len(),
    {
        let ghost old_rest = rest@;
        let ghost old_rest_d = rest.deep_view();
        let x = rest.pop().unwrap();
        proof {
            assert(old_rest =~= rest@.push(x));
            assert(old_rest_d =~= rest.deep_view().push(x.deep_view()));
        }
        insert_sorted(&mut out, x);
        proof {
            assert(v@.to_multiset() =~= out@.to_multiset().add(rest@.to_multiset()));
            assert(v.deep_view().to_multiset() =~= out.deep_view().to_multiset().add(rest.deep_view().to_multiset()));
        }
    }
    proof {
        assert(rest@.to_multiset() =~= Multiset::empty());
        assert(rest.deep_view().to_multiset() =~= Multiset::empty());
        assert(v.deep_view().to_multiset() =~= out.deep_view().to_multiset());
        assert(v@.to_multiset() =~= out@.to_multiset());
        out@.to_multiset_ensures();
        v@.to_multiset_ensures();
    }
    out
}


pub proof fn lemma_seq_le_total(a: Seq<char>, b: Seq<char>)
    ensures
        seq_le(a, b) || seq_le(b, a),
{
    lemma_seq_lt_total(a, b);
}

pub proof fn lemma_seq_le_transitive(a: Seq<char>, b: Seq<char>, c: Seq<char>)
    requires
        seq_le(a, b),
        seq_le(b, c),
    ensures
        seq_le(a, c),
{
    if seq_lt(a, b) && seq_lt(b, c) {
        lemma_seq_lt_transitive(a, b, c);
    }
}

/// Lexicographic order on a pair of strings: first by the first, then the second.
pub open spec fn str_pair_le(a1: Seq<char>, a2: Seq<char>, b1: Seq<char>, b2: Seq<char>) -> bool {
    seq_lt(a1, b1) || (a1 == b1 && seq_le(a2, b2))
}

pub proof fn lemma_str_pair_le_total(a1: Seq<char>, a2: Seq<char>, b1: Seq<char>, b2: Seq<char>)
    ensures
        str_pair_le(a1, a2, b1, b2) || str_pair_le(b1, b2, a1, a2),
{
    lemma_seq_lt_total(a1, b1);
    lemma_seq_le_total(a2, b2);
}

pub proof fn lemma_str_pair_le_transitive(
    a1: Seq<char>,
    a2: Seq<char>,
    b1: Seq<char>,
    b2: Seq<char>,
    c1: Seq<char>,
    c2: Seq<char>,
)
    requires
        str_pair_le(a1, a2, b1, b2),
        str_pair_le(b1, b2, c1, c2),
    ensures
        str_pair_le(a1, a2, c1, c2),
{
    lemma_seq_lt_irreflexive(a1);
    lemma_seq_lt_irreflexive(b1);
    if seq_lt(a1, b1) && seq_lt(b1, c1) {
        lemma_seq_lt_transitive(a1, b1, c1);
    }
    if a1 == b1 && b1 == c1 {
        lemma_seq_le_transitive(a2, b2, c2);
    }
}

/// Order by an integer, then by a string.
pub open spec fn int_str_le(a1: int, a2: Seq<char>, b1: int, b2: Seq<char>) -> bool {
    a1 < b1 || (a1 == b1 && seq_le(a2, b2))
}

pub proof fn lemma_int_str_le_total(a1: int, a2: Seq<char>, b1: int, b2: Seq<char>)
    ensures
        int_str_le(a1, a2, b1, b2) || int_str_le(b1, b2, a1, a2),
{
    lemma_seq_le_total(a2, b2);
}

pub proof fn lemma_int_str_le_transitive(
    a1: int,
    a2: Seq<char>,
    b1: int,
    b2: Seq<char>,
    c1: int,
    c2: Seq<char>,
)
    requires
        int_str_le(a1, a2, b1, b2),
        int_str_le(b1, b2, c1, c2),
    ensures
        int_str_le(a1, a2, c1, c2),
{
    if a1 == b1 && b1 == c1 {
        lemma_seq_le_transitive(a2, b2, c2);
    }
}

} // verus!
