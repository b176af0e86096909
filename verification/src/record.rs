//! Content equality of records, stated over their deep views.

use vstd::prelude::*;

verus! {

/// A record whose content can be compared.
pub trait Same: DeepView + Sized {
    fn same(&self, other: &Self) -> (r: bool)
        ensures
            r == (self.deep_view() == other.deep_view()),
    ;
}

impl Same for String {
    fn same(&self, other: &Self) -> (r: bool) {
        *self == *other
    }
}

impl Same for u32 {
    fn same(&self, other: &Self) -> (r: bool) {
        *self == *other
    }
}

impl Same for i32 {
    fn same(&self, other: &Self) -> (r: bool) {
        *self == *other
    }
}

impl Same for u64 {
    fn same(&self, other: &Self) -> (r: bool) {
        *self == *other
    }
}

impl Same for bool {
    fn same(&self, other: &Self) -> (r: bool) {
        *self == *other
    }
}

/// Equality of two optional records by content.
pub fn same_opt<T: Same>(a: &Option<T>, b: &Option<T>) -> (r: bool)
    ensures
        r == (a.deep_view() == b.deep_view()),
{
    match (a, b) {
        (Some(x), Some(y)) => x.same(y),
        (None, None) => true,
        _ => false,
    }
}

/// Equality of two vectors of records by content.
pub fn same_vec<T: Same>(a: &Vec<T>, b: &Vec<T>) -> (r: bool)
    ensures
        r == (a.deep_view() == b.deep_view()),
{
    if a.len() != b.len() {
        proof {
            assert(a.deep_view().len() != b.deep_view().len());
        }
        return false;
    }
    let mut i: usize = 0;
    while i < a.len()
        invariant
            a.len() == b.len(),
            i <= a.len(),
            forall|j: int| 0 <= j < i ==> a@[j].deep_view() == b@[j].deep_view(),
        decreases a.len() - i,
    {
        if !a[i].same(&b[i]) {
            proof {
                assert(a.deep_view()[i as int] != b.deep_view()[i as int]);
            }
            return false;
        }
        i = i + 1;
    }
    proof {
        assert(a.deep_view() =~= b.deep_view());
    }
    true
}


/// A record that can be duplicated with the same content.
pub trait DeepCopy: DeepView + Sized {
    fn deep_copy(&self) -> (r: Self)
        ensures
            r.deep_view() == self.deep_view(),
    ;
}

impl DeepCopy for String {
    fn deep_copy(&self) -> (r: Self) {
        self.clone()
    }
}

impl DeepCopy for u64 {
    fn deep_copy(&self) -> (r: Self) {
        *self
    }
}

pub fn copy_opt<T: DeepCopy>(a: &Option<T>) -> (r: Option<T>)
    ensures
        r.deep_view() == a.deep_view(),
{
    match a {
        Some(x) => Some(x.deep_copy()),
        None => None,
    }
}

pub fn copy_vec<T: DeepCopy>(a: &Vec<T>) -> (r: Vec<T>)
    ensures
        r.deep_view() == a.deep_view(),
{
    let mut out: Vec<T> = Vec::new();
    let mut i: usize = 0;
    while i < a.len()
        invariant
            i <= a.len(),
            out.deep_view() == a.deep_view().subrange(0, i as int),
        decreases a.len() - i,
    {
        let ghost before = out.deep_view();
        let x = a[i].deep_copy();
        proof {
            assert(a.deep_view()[i as int] == a@[i as int].deep_view());
        }
        out.push(x);
        proof {
            assert(out.deep_view() =~= before.push(x.deep_view()));
            assert(out.deep_view() =~= a.deep_view().subrange(0, i + 1));
        }
        i = i + 1;
    }
    proof {
        assert(a.deep_view().subrange(0, a.len() as int) =~= a.deep_view());
    }
    out
}


/// Filtering twice by the same predicate filters once.
pub proof fn lemma_filter_twice<A>(s: Seq<A>, pred: spec_fn(A) -> bool)
    ensures
        s.filter(pred).filter(pred) == s.filter(pred),
    decreases s.len(),
{
    reveal_with_fuel(Seq::<_>::filter, 1);
    if s.len() > 0 {
        lemma_filter_twice(s.drop_last(), pred);
        let f = s.drop_last().filter(pred);
        if pred(s.last()) {
            assert(f.push(s.last()).drop_last() =~= f);
            assert(f.push(s.last()).filter(pred) =~= f.filter(pred).push(s.last()));
        }
    }
}

} // verus!
