//! The common leading and trailing runs of two sequences.

use vstd::prelude::*;
use vstd::std_specs::cmp::PartialEqSpec;
use crate::component::{DiffComponent, unchanged_run};

verus! {

/// `n` is the length of the longest run at the start of `a` and `b` in which
/// each element of `a` equals the element of `b` at the same position.
pub open spec fn is_prefix_len<T: PartialEq>(a: Seq<T>, b: Seq<T>, n: int) -> bool {
    &&& 0 <= n <= a.len()
    &&& n <= b.len()
    &&& forall|k: int| 0 <= k < n ==> #[trigger] a[k].eq_spec(&b[k])
    &&& (n < a.len() && n < b.len() ==> !a[n].eq_spec(&b[n]))
}

/// `n` is the length of the longest run at the end of `a` and `b` in which
/// each element of `a` equals the element of `b` at the same distance from
/// the end.
pub open spec fn is_suffix_len<T: PartialEq>(a: Seq<T>, b: Seq<T>, n: int) -> bool {
    &&& 0 <= n <= a.len()
    &&& n <= b.len()
    &&& forall|k: int| 0 <= k < n ==> #[trigger] a[a.len() - n + k].eq_spec(&b[b.len() - n + k])
    &&& (n < a.len() && n < b.len() ==> !a[a.len() - n - 1].eq_spec(&b[b.len() - n - 1]))
}

/// The length of the common leading run of `a` and `b`.
pub open spec fn prefix_len<T: PartialEq>(a: Seq<T>, b: Seq<T>) -> int {
    choose|n: int| is_prefix_len(a, b, n)
}

/// The length of the common trailing run of `a` and `b`.
pub open spec fn suffix_len<T: PartialEq>(a: Seq<T>, b: Seq<T>) -> int {
    choose|n: int| is_suffix_len(a, b, n)
}

/// Two sequences have one length of common leading run only.
pub proof fn lemma_prefix_len_unique<T: PartialEq>(a: Seq<T>, b: Seq<T>, n: int, m: int)
    requires
        is_prefix_len(a, b, n),
        is_prefix_len(a, b, m),
    ensures
        n == m,
{
    if n < m {
        assert(a[n].eq_spec(&b[n]));
    }
    if m < n {
        assert(a[m].eq_spec(&b[m]));
    }
}

/// Two sequences have one length of common trailing run only.
pub proof fn lemma_suffix_len_unique<T: PartialEq>(a: Seq<T>, b: Seq<T>, n: int, m: int)
    requires
        is_suffix_len(a, b, n),
        is_suffix_len(a, b, m),
    ensures
        n == m,
{
    if n < m {
        assert(a[a.len() - m + (m - n - 1)].eq_spec(&b[b.len() - m + (m - n - 1)]));
    }
    if m < n {
        assert(a[a.len() - n + (n - m - 1)].eq_spec(&b[b.len() - n + (n - m - 1)]));
    }
}

/// The common leading run of `a` and `b`, as unchanged pairs in order.
pub fn common_prefix<'a, T: PartialEq>(a: &'a [T], b: &'a [T]) -> (r: Vec<DiffComponent<&'a T>>)
    ensures
        r@.len() <= a@.len(),
        r@.len() <= b@.len(),
        r@ == unchanged_run::<T>(a@, 0, b@, 0, r@.len()),
        T::obeys_eq_spec() ==> is_prefix_len(a@, b@, r@.len() as int),
        T::obeys_eq_spec() ==> r@.len() == prefix_len(a@, b@),
{
    let mut r: Vec<DiffComponent<&'a T>> = Vec::new();
    let mut i: usize = 0;
    while i < a.len() && i < b.len() && a[i] == b[i]
        invariant
            i == r@.len(),
            i <= a@.len(),
            i <= b@.len(),
            T::obeys_eq_spec() ==> forall|k: int| 0 <= k < i ==> #[trigger] a@[k].eq_spec(&b@[k]),
            r@ == unchanged_run::<T>(a@, 0, b@, 0, i as nat),
        decreases a@.len() - i,
    {
        r.push(DiffComponent::Unchanged(&a[i], &b[i]));
        i += 1;
        assert(r@ == unchanged_run::<T>(a@, 0, b@, 0, i as nat));
    }
    proof {
        if T::obeys_eq_spec() {
            assert(is_prefix_len(a@, b@, i as int));
            lemma_prefix_len_unique(a@, b@, i as int, prefix_len(a@, b@));
        }
    }
    r
}

/// The common trailing run of `a` and `b`, as unchanged pairs in the order
/// in which the elements stand in the sequences.
pub fn common_suffix<'a, T: PartialEq>(a: &'a [T], b: &'a [T]) -> (r: Vec<DiffComponent<&'a T>>)
    ensures
        r@.len() <= a@.len(),
        r@.len() <= b@.len(),
        T::obeys_eq_spec() ==> is_suffix_len(a@, b@, r@.len() as int),
        T::obeys_eq_spec() ==> r@.len() == suffix_len(a@, b@),
        r@ == unchanged_run::<T>(a@, a@.len() - r@.len(), b@, b@.len() - r@.len(), r@.len()),
{
    let mut n: usize = 0;
    while n < a.len() && n < b.len() && a[a.len() - 1 - n] == b[b.len() - 1 - n]
        invariant
            n <= a@.len(),
            n <= b@.len(),
            T::obeys_eq_spec() ==> forall|k: int|
                0 <= k < n ==> #[trigger] a@[a@.len() - n + k].eq_spec(&b@[b@.len() - n + k]),
        decreases a@.len() - n,
    {
        proof {
            let m = n + 1;
            if T::obeys_eq_spec() {
            assert forall|k: int| 0 <= k < m implies #[trigger] a@[a@.len() - m + k].eq_spec(&b@[b@.len() - m + k]) by {
                if k > 0 {
                    assert(a@[a@.len() - n + (k - 1)].eq_spec(&b@[b@.len() - n + (k - 1)]));
                }
            }
            }
        }
        n += 1;
    }
    let mut r: Vec<DiffComponent<&'a T>> = Vec::new();
    let a_from: usize = a.len() - n;
    let b_from: usize = b.len() - n;
    let mut k: usize = 0;
    while k < n
        invariant
            k <= n,
            n <= a@.len(),
            n <= b@.len(),
            a@.len() <= usize::MAX,
            b@.len() <= usize::MAX,
            a_from == a@.len() - n,
            b_from == b@.len() - n,
            r@ == unchanged_run::<T>(a@, a_from as int, b@, b_from as int, k as nat),
        decreases n - k,
    {
        r.push(DiffComponent::Unchanged(&a[a_from + k], &b[b_from + k]));
        k += 1;
        assert(r@ == unchanged_run::<T>(a@, a_from as int, b@, b_from as int, k as nat));
    }
    proof {
        if T::obeys_eq_spec() {
            assert(is_suffix_len(a@, b@, n as int));
            lemma_suffix_len_unique(a@, b@, n as int, suffix_len(a@, b@));
        }
    }
    r
}

} // verus!
