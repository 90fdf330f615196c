//! Elements that remember their positions and compare by value alone.

use vstd::prelude::*;
use vstd::std_specs::cmp::{PartialEqSpec, PartialEqSpecImpl};

verus! {

/// An element of a sequence together with the position it was taken from.
/// Two of them are equal when their values are, wherever they stand.
#[derive(Debug)]
pub struct Indexed<'a, T> {
    pub index: usize,
    pub value: &'a T,
}

impl<'a, T: PartialEq> PartialEq for Indexed<'a, T> {
    fn eq(&self, other: &Indexed<'a, T>) -> (r: bool) {
        *self.value == *other.value
    }
}

impl<'a, T: PartialEq> PartialEqSpecImpl for Indexed<'a, T> {
    open spec fn obeys_eq_spec() -> bool {
        T::obeys_eq_spec()
    }

    open spec fn eq_spec(&self, other: &Indexed<'a, T>) -> bool {
        T::eq_spec(self.value, other.value)
    }
}

impl<'a, T: Eq> Eq for Indexed<'a, T> {

}

/// `v` holds the elements of `s` in order, each with its position.
pub open spec fn is_indexing<'a, T>(v: Seq<Indexed<'a, T>>, s: Seq<T>) -> bool {
    &&& v.len() == s.len()
    &&& forall|i: int| 0 <= i < v.len() ==> (#[trigger] v[i]).index == i && *v[i].value == s[i]
}

/// The elements of `s` in order, each with its position.
pub open spec fn indexed_spec<'a, T>(s: Seq<T>) -> Seq<Indexed<'a, T>> {
    Seq::new(s.len(), |i: int| (Indexed { index: i as usize, value: &s[i] }))
}

/// Pairs every element of `s` with its position.
pub fn index_elements<'a, T>(s: &'a [T]) -> (v: Vec<Indexed<'a, T>>)
    ensures
        is_indexing(v@, s@),
        v@ == indexed_spec::<T>(s@),
{
    let mut v: Vec<Indexed<'a, T>> = Vec::new();
    let mut i: usize = 0;
    while i < s.len()
        invariant
            i <= s@.len(),
            is_indexing(v@, s@.take(i as int)),
        decreases s@.len() - i,
    {
        v.push(Indexed { index: i, value: &s[i] });
        i += 1;
    }
    assert(s@.take(i as int) == s@);
    assert(v@ =~= indexed_spec::<T>(s@));
    v
}

} // verus!
