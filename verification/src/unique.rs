//! The elements that occur exactly once in a sequence.

use vstd::prelude::*;
use vstd::std_specs::cmp::PartialEqSpec;

verus! {

/// How many elements of `s` equal `v`.
pub open spec fn occurrences<T: PartialEq>(s: Seq<T>, v: T) -> nat
    decreases s.len(),
{
    if s.len() == 0 {
        0
    } else {
        occurrences(s.drop_last(), v) + if s.last().eq_spec(&v) { 1nat } else { 0nat }
    }
}

/// The elements among the first `n` of `s` that occur exactly once in the
/// whole of `s`, in order.
pub open spec fn unique_among<'a, T: PartialEq>(s: Seq<T>, n: nat) -> Seq<&'a T>
    decreases n,
{
    if n == 0 || n > s.len() {
        Seq::empty()
    } else {
        let init = unique_among::<T>(s, (n - 1) as nat);
        if occurrences(s, s[n - 1]) == 1 {
            init.push(&s[n - 1])
        } else {
            init
        }
    }
}

/// The number of elements of `s` that equal `v`.
pub fn count_occurrences<T: PartialEq>(s: &[T], v: &T) -> (c: usize)
    ensures
        c <= s@.len(),
        T::obeys_eq_spec() ==> c == occurrences(s@, *v),
{
    let mut c: usize = 0;
    let mut j: usize = 0;
    while j < s.len()
        invariant
            j <= s@.len(),
            c <= j,
            T::obeys_eq_spec() ==> c == occurrences(s@.take(j as int), *v),
        decreases s@.len() - j,
    {
        assert(s@.take(j + 1).drop_last() == s@.take(j as int));
        if s[j] == *v {
            c += 1;
        }
        j += 1;
    }
    assert(s@.take(j as int) == s@);
    c
}

/// `r` holds elements of `s`, taken at positions that rise strictly.
pub open spec fn is_selection<'a, T>(s: Seq<T>, r: Seq<&'a T>) -> bool {
    exists|at: Seq<int>| selects(s, r, at)
}

/// `r` holds the elements of `s` at the positions `at`, which rise strictly.
pub open spec fn selects<'a, T>(s: Seq<T>, r: Seq<&'a T>, at: Seq<int>) -> bool {
    &&& at.len() == r.len()
    &&& forall|k: int| 0 <= k < at.len() ==> 0 <= #[trigger] at[k] < s.len() && *r[k] == s[at[k]]
    &&& forall|k: int, l: int| 0 <= k < l < at.len() ==> #[trigger] at[k] < #[trigger] at[l]
}

/// The elements that occur exactly once in `elems`, in the order in which
/// they stand there.
pub fn unique_elements<'a, T: PartialEq>(elems: &'a [T]) -> (r: Vec<&'a T>)
    ensures
        is_selection(elems@, r@),
        T::obeys_eq_spec() ==> r@ == unique_among::<T>(elems@, elems@.len()),
{
    let mut r: Vec<&'a T> = Vec::new();
    let mut i: usize = 0;
    let ghost mut at: Seq<int> = Seq::empty();
    while i < elems.len()
        invariant
            i <= elems@.len(),
            selects(elems@, r@, at),
            forall|k: int| 0 <= k < at.len() ==> #[trigger] at[k] < i,
            T::obeys_eq_spec() ==> r@ == unique_among::<T>(elems@, i as nat),
        decreases elems@.len() - i,
    {
        let c: usize = count_occurrences(elems, &elems[i]);
        if c == 1 {
            r.push(&elems[i]);
            proof {
                at = at.push(i as int);
            }
        }
        i += 1;
    }
    r
}

} // verus!
