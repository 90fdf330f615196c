//! The components of a diff, and what a diff keeps of each of its two
//! sequences.

use vstd::prelude::*;
use vstd::std_specs::cmp::PartialEqSpec;

verus! {

/// One unit of a diff from a sequence `a` to a sequence `b`.
#[derive(Clone, Debug, PartialEq, Eq)]
pub enum DiffComponent<T> {
    /// An element of `b` that has no partner in `a`.
    Insertion(T),
    /// An element of `a` and the element of `b` that it is aligned with.
    Unchanged(T, T),
    /// An element of `a` that has no partner in `b`.
    Deletion(T),
}

/// The elements of `s`, each behind a shared reference.
pub open spec fn refs<'a, T>(s: Seq<T>) -> Seq<&'a T> {
    Seq::new(s.len(), |i: int| &s[i])
}

/// What a diff keeps of the first sequence: the deleted elements and the
/// left halves of the unchanged pairs, in order.
pub open spec fn left_side<T>(d: Seq<DiffComponent<T>>) -> Seq<T>
    decreases d.len(),
{
    if d.len() == 0 {
        Seq::empty()
    } else {
        let init = left_side(d.drop_last());
        match d.last() {
            DiffComponent::Insertion(_) => init,
            DiffComponent::Unchanged(x, _) => init.push(x),
            DiffComponent::Deletion(x) => init.push(x),
        }
    }
}

/// What a diff keeps of the second sequence: the inserted elements and the
/// right halves of the unchanged pairs, in order.
pub open spec fn right_side<T>(d: Seq<DiffComponent<T>>) -> Seq<T>
    decreases d.len(),
{
    if d.len() == 0 {
        Seq::empty()
    } else {
        let init = right_side(d.drop_last());
        match d.last() {
            DiffComponent::Insertion(y) => init.push(y),
            DiffComponent::Unchanged(_, y) => init.push(y),
            DiffComponent::Deletion(_) => init,
        }
    }
}

/// `n` unchanged pairs: the elements of `a` from `i` on, each with the
/// element of `b` at the same distance from `j`.
pub open spec fn unchanged_run<'a, T>(a: Seq<T>, i: int, b: Seq<T>, j: int, n: nat) -> Seq<DiffComponent<&'a T>> {
    Seq::new(n, |k: int| DiffComponent::Unchanged(&a[i + k], &b[j + k]))
}

/// Every element of `s` as an insertion.
pub open spec fn all_insertions<'a, T>(s: Seq<T>) -> Seq<DiffComponent<&'a T>> {
    Seq::new(s.len(), |k: int| DiffComponent::Insertion(&s[k]))
}

/// Every element of `s` as a deletion.
pub open spec fn all_deletions<'a, T>(s: Seq<T>) -> Seq<DiffComponent<&'a T>> {
    Seq::new(s.len(), |k: int| DiffComponent::Deletion(&s[k]))
}

/// The two elements of every unchanged pair of `d` are equal by value.
pub open spec fn pairs_equal<'a, T: PartialEq>(d: Seq<DiffComponent<&'a T>>) -> bool {
    forall|k: int| 0 <= k < d.len() ==> match #[trigger] d[k] {
        DiffComponent::Unchanged(x, y) => x.eq_spec(y),
        _ => true,
    }
}

/// Every element of `s` as an insertion, in order.
pub fn insertions<'a, T>(s: &'a [T]) -> (r: Vec<DiffComponent<&'a T>>)
    ensures
        r@ == all_insertions::<T>(s@),
{
    let mut r: Vec<DiffComponent<&'a T>> = Vec::new();
    let mut k: usize = 0;
    while k < s.len()
        invariant
            k <= s@.len(),
            r@ == all_insertions::<T>(s@.take(k as int)),
        decreases s@.len() - k,
    {
        r.push(DiffComponent::Insertion(&s[k]));
        k += 1;
        assert(r@ == all_insertions::<T>(s@.take(k as int)));
    }
    assert(s@.take(k as int) == s@);
    r
}

/// Every element of `s` as a deletion, in order.
pub fn deletions<'a, T>(s: &'a [T]) -> (r: Vec<DiffComponent<&'a T>>)
    ensures
        r@ == all_deletions::<T>(s@),
{
    let mut r: Vec<DiffComponent<&'a T>> = Vec::new();
    let mut k: usize = 0;
    while k < s.len()
        invariant
            k <= s@.len(),
            r@ == all_deletions::<T>(s@.take(k as int)),
        decreases s@.len() - k,
    {
        r.push(DiffComponent::Deletion(&s[k]));
        k += 1;
        assert(r@ == all_deletions::<T>(s@.take(k as int)));
    }
    assert(s@.take(k as int) == s@);
    r
}

/// The projections of a diff followed by one more component.
pub proof fn lemma_sides_push<T>(d: Seq<DiffComponent<T>>, c: DiffComponent<T>)
    ensures
        left_side(d.push(c)) == match c {
            DiffComponent::Insertion(_) => left_side(d),
            DiffComponent::Unchanged(x, _) => left_side(d).push(x),
            DiffComponent::Deletion(x) => left_side(d).push(x),
        },
        right_side(d.push(c)) == match c {
            DiffComponent::Insertion(y) => right_side(d).push(y),
            DiffComponent::Unchanged(_, y) => right_side(d).push(y),
            DiffComponent::Deletion(_) => right_side(d),
        },
{
    assert(d.push(c).drop_last() == d);
    assert(d.push(c).last() == c);
}

/// The projections of two diffs joined are the projections joined.
pub proof fn lemma_sides_concat<T>(d: Seq<DiffComponent<T>>, e: Seq<DiffComponent<T>>)
    ensures
        left_side(d + e) == left_side(d) + left_side(e),
        right_side(d + e) == right_side(d) + right_side(e),
    decreases e.len(),
{
    if e.len() == 0 {
        assert(d + e == d);
        assert(left_side(d) + left_side(e) == left_side(d));
        assert(right_side(d) + right_side(e) == right_side(d));
    } else {
        lemma_sides_concat(d, e.drop_last());
        assert(d + e == (d + e.drop_last()).push(e.last()));
        lemma_sides_push(d + e.drop_last(), e.last());
        assert(e == e.drop_last().push(e.last()));
        lemma_sides_push(e.drop_last(), e.last());
        let l = left_side(d);
        let r = right_side(d);
        let le = left_side(e.drop_last());
        let re = right_side(e.drop_last());
        match e.last() {
            DiffComponent::Insertion(y) => {
                assert((r + re).push(y) == r + re.push(y));
            },
            DiffComponent::Unchanged(x, y) => {
                assert((l + le).push(x) == l + le.push(x));
                assert((r + re).push(y) == r + re.push(y));
            },
            DiffComponent::Deletion(x) => {
                assert((l + le).push(x) == l + le.push(x));
            },
        }
    }
}

/// A run of unchanged pairs projects to the two ranges it was made from.
pub proof fn lemma_sides_unchanged_run<'a, T>(a: Seq<T>, i: int, b: Seq<T>, j: int, n: nat)
    requires
        0 <= i,
        i + n <= a.len(),
        0 <= j,
        j + n <= b.len(),
    ensures
        left_side(unchanged_run::<T>(a, i, b, j, n)) == refs::<T>(a.subrange(i, i + n)),
        right_side(unchanged_run::<T>(a, i, b, j, n)) == refs::<T>(b.subrange(j, j + n)),
    decreases n,
{
    let run = unchanged_run::<T>(a, i, b, j, n);
    if n > 0 {
        let m = (n - 1) as nat;
        lemma_sides_unchanged_run(a, i, b, j, m);
        assert(run.drop_last() == unchanged_run::<T>(a, i, b, j, m));
        assert(refs::<T>(a.subrange(i, i + n)) == refs::<T>(a.subrange(i, i + m)).push(&a[i + m]));
        assert(refs::<T>(b.subrange(j, j + n)) == refs::<T>(b.subrange(j, j + m)).push(&b[j + m]));
    } else {
        assert(refs::<T>(a.subrange(i, i + n)) == Seq::<&T>::empty());
        assert(refs::<T>(b.subrange(j, j + n)) == Seq::<&T>::empty());
    }
}

/// A diff of insertions alone keeps nothing of the first sequence and all of the second.
pub proof fn lemma_sides_all_insertions<'a, T>(s: Seq<T>)
    ensures
        left_side(all_insertions::<T>(s)) == Seq::<&T>::empty(),
        right_side(all_insertions::<T>(s)) == refs::<T>(s),
    decreases s.len(),
{
    if s.len() > 0 {
        lemma_sides_all_insertions(s.drop_last());
        assert(all_insertions::<T>(s).drop_last() == all_insertions::<T>(s.drop_last()));
        assert(refs::<T>(s) == refs::<T>(s.drop_last()).push(&s.last()));
    } else {
        assert(refs::<T>(s) == Seq::<&T>::empty());
    }
}

/// A diff of deletions alone keeps all of the first sequence and nothing of the second.
pub proof fn lemma_sides_all_deletions<'a, T>(s: Seq<T>)
    ensures
        left_side(all_deletions::<T>(s)) == refs::<T>(s),
        right_side(all_deletions::<T>(s)) == Seq::<&T>::empty(),
    decreases s.len(),
{
    if s.len() > 0 {
        lemma_sides_all_deletions(s.drop_last());
        assert(all_deletions::<T>(s).drop_last() == all_deletions::<T>(s.drop_last()));
        assert(refs::<T>(s) == refs::<T>(s.drop_last()).push(&s.last()));
    } else {
        assert(refs::<T>(s) == Seq::<&T>::empty());
    }
}

} // verus!
