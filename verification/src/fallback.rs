//! The plain diff by longest common subsequence, for sequences without
//! anchors.

use vstd::prelude::*;
use vstd::std_specs::cmp::PartialEqSpec;
use crate::component::{DiffComponent, left_side, right_side, refs, pairs_equal, lemma_sides_push};
use crate::anchors::eq_table;
use crate::indexed::{Indexed, is_indexing};

verus! {

/// The components of `lcs::LcsTable::diff`, in order, each with the positions
/// of its elements in place of the elements, for a first slice of `n`
/// elements and a second of `m` whose elements compare as `table` says.
pub uninterp spec fn plain_diff_steps(n: nat, m: nat, table: Seq<Seq<bool>>) -> Seq<DiffComponent<usize>>;

/// The positions that the elements of `s` carry, in order.
pub open spec fn positions<'a, T>(s: Seq<Indexed<'a, T>>) -> Seq<usize> {
    Seq::new(s.len(), |i: int| s[i].index)
}

/// The values of the elements of `s`, in order.
pub open spec fn values<'a, T>(s: Seq<Indexed<'a, T>>) -> Seq<T> {
    Seq::new(s.len(), |i: int| *s[i].value)
}

/// The positions from 0 up to `n`.
pub open spec fn counting(n: nat) -> Seq<usize> {
    Seq::new(n, |i: int| i as usize)
}

/// The component `c` with the positions that the elements at its positions
/// carry.
pub open spec fn carried<'a, T>(
    x: Seq<Indexed<'a, T>>,
    y: Seq<Indexed<'a, T>>,
    c: DiffComponent<usize>,
) -> DiffComponent<usize> {
    match c {
        DiffComponent::Insertion(j) => DiffComponent::Insertion(y[j as int].index),
        DiffComponent::Unchanged(i, j) => DiffComponent::Unchanged(x[i as int].index, y[j as int].index),
        DiffComponent::Deletion(i) => DiffComponent::Deletion(x[i as int].index),
    }
}

/// `steps` is a diff from `x` to `y` by positions: its deleted and unchanged
/// positions are all those of `x` in order, its inserted and unchanged ones
/// all those of `y` in order, and the two elements of an unchanged pair are
/// equal by value. `r` holds the same components with the positions that the
/// elements carry.
pub open spec fn is_plain_diff_of<'a, T: PartialEq>(
    x: Seq<Indexed<'a, T>>,
    y: Seq<Indexed<'a, T>>,
    steps: Seq<DiffComponent<usize>>,
    r: Seq<DiffComponent<usize>>,
) -> bool {
    &&& left_side(steps) == counting(x.len())
    &&& right_side(steps) == counting(y.len())
    &&& forall|k: int| 0 <= k < steps.len() ==> match #[trigger] steps[k] {
        DiffComponent::Unchanged(i, j) => i < x.len() && j < y.len() ==> x[i as int].value.eq_spec(y[j as int].value),
        _ => true,
    }
    &&& r.len() == steps.len()
    &&& forall|k: int| 0 <= k < steps.len() ==> #[trigger] r[k] == carried(x, y, steps[k])
}

/// Calls `lcs::LcsTable::new` on the two slices and then `diff` on the
/// table, and hands back each component with the positions that its elements
/// carry in place of the elements. Believed of the outside code: the deleted
/// and unchanged elements are all of `x` in order, the inserted and unchanged
/// ones all of `y` in order. And for a type whose `==` is its `eq_spec`:
/// which components come out depends only on the two lengths and on which
/// elements are equal, and the two elements of an unchanged pair are equal
/// by value.
#[verifier::external_body]
fn plain_diff<'a, T: Eq>(x: &[Indexed<'a, T>], y: &[Indexed<'a, T>]) -> (r: Vec<DiffComponent<usize>>)
    ensures
        left_side(r@) == positions(x@),
        right_side(r@) == positions(y@),
        T::obeys_eq_spec() ==> is_plain_diff_of(
            x@,
            y@,
            plain_diff_steps(x@.len(), y@.len(), eq_table(values(x@), values(y@))),
            r@,
        ),
{
    let table = lcs::LcsTable::new(x, y);
    table.diff().into_iter().map(|c| match c {
        lcs::DiffComponent::Insertion(e) => DiffComponent::Insertion(e.index),
        lcs::DiffComponent::Unchanged(e, f) => DiffComponent::Unchanged(e.index, f.index),
        lcs::DiffComponent::Deletion(e) => DiffComponent::Deletion(e.index),
    }).collect()
}

/// The positions that `c` names lie within a first sequence of length `n`
/// and a second of length `m`.
pub open spec fn in_range(c: DiffComponent<usize>, n: nat, m: nat) -> bool {
    match c {
        DiffComponent::Insertion(j) => j < m,
        DiffComponent::Unchanged(i, j) => i < n && j < m,
        DiffComponent::Deletion(i) => i < n,
    }
}

/// The component that `c` names by positions, over the elements of `a` and `b`.
pub open spec fn resolved<'a, T>(c: DiffComponent<usize>, a: Seq<T>, b: Seq<T>) -> DiffComponent<&'a T> {
    match c {
        DiffComponent::Insertion(j) => DiffComponent::Insertion(&b[j as int]),
        DiffComponent::Unchanged(i, j) => DiffComponent::Unchanged(&a[i as int], &b[j as int]),
        DiffComponent::Deletion(i) => DiffComponent::Deletion(&a[i as int]),
    }
}

/// Replaces the positions in a diff by the elements of `a` and `b` that
/// stand there.
pub fn resolve_components<'a, T>(a: &'a [T], b: &'a [T], d: &Vec<DiffComponent<usize>>) -> (r: Vec<
    DiffComponent<&'a T>,
>)
    requires
        forall|k: int| 0 <= k < d@.len() ==> in_range(#[trigger] d@[k], a@.len(), b@.len()),
    ensures
        r@.len() == d@.len(),
        forall|k: int| 0 <= k < d@.len() ==> #[trigger] r@[k] == resolved::<T>(d@[k], a@, b@),
{
    let mut r: Vec<DiffComponent<&'a T>> = Vec::new();
    let mut k: usize = 0;
    while k < d.len()
        invariant
            k <= d@.len(),
            r@.len() == k,
            forall|l: int| 0 <= l < d@.len() ==> in_range(#[trigger] d@[l], a@.len(), b@.len()),
            forall|l: int| 0 <= l < k ==> #[trigger] r@[l] == resolved::<T>(d@[l], a@, b@),
        decreases d@.len() - k,
    {
        assert(in_range(d@[k as int], a@.len(), b@.len()));
        let c = match &d[k] {
            DiffComponent::Insertion(j) => DiffComponent::Insertion(&b[*j]),
            DiffComponent::Unchanged(i, j) => DiffComponent::Unchanged(&a[*i], &b[*j]),
            DiffComponent::Deletion(i) => DiffComponent::Deletion(&a[*i]),
        };
        r.push(c);
        k += 1;
    }
    r
}

/// A counting sequence without its last position counts one less far.
pub proof fn lemma_counting_init(s: Seq<usize>, last: usize, n: nat)
    requires
        n <= usize::MAX,
        s.push(last) == counting(n),
    ensures
        n > 0,
        last == n - 1,
        s == counting((n - 1) as nat),
{
    assert(s.push(last).len() == n);
    assert(counting(n)[n - 1] == last);
    assert forall|t: int| 0 <= t < n - 1 implies s[t] == counting((n - 1) as nat)[t] by {
        assert(s.push(last)[t] == s[t]);
        assert(counting(n)[t] == t as usize);
    }
    assert(s =~= counting((n - 1) as nat));
}

/// A diff whose two sides count up from 0 names positions in range only, and
/// resolving it over `a` and `b` gives a diff whose sides are `a` and `b`.
pub proof fn lemma_resolved_sides<'a, T>(
    a: Seq<T>,
    b: Seq<T>,
    d: Seq<DiffComponent<usize>>,
    r: Seq<DiffComponent<&'a T>>,
    n: nat,
    m: nat,
)
    requires
        n <= a.len() <= usize::MAX,
        m <= b.len() <= usize::MAX,
        left_side(d) == counting(n),
        right_side(d) == counting(m),
        r.len() == d.len(),
        forall|k: int| 0 <= k < d.len() ==> #[trigger] r[k] == resolved::<T>(d[k], a, b),
    ensures
        forall|k: int| 0 <= k < d.len() ==> in_range(#[trigger] d[k], n, m),
        left_side(r) == refs::<T>(a.take(n as int)),
        right_side(r) == refs::<T>(b.take(m as int)),
    decreases d.len(),
{
    if d.len() == 0 {
        assert(left_side(d).len() == 0);
        assert(right_side(d).len() == 0);
        assert(refs::<T>(a.take(n as int)) == Seq::<&T>::empty());
        assert(refs::<T>(b.take(m as int)) == Seq::<&T>::empty());
    } else {
        let d0 = d.drop_last();
        let r0 = r.drop_last();
        let l0 = left_side(d0);
        let s0 = right_side(d0);
        assert(d == d0.push(d.last()));
        assert(r == r0.push(r.last()));
        lemma_sides_push(d0, d.last());
        lemma_sides_push(r0, r.last());
        assert(r.last() == resolved::<T>(d.last(), a, b));
        match d.last() {
            DiffComponent::Insertion(j) => {
                lemma_counting_init(s0, j, m);
                lemma_resolved_sides(a, b, d0, r0, n, (m - 1) as nat);
                assert(refs::<T>(b.take(m as int)) == refs::<T>(b.take(m - 1)).push(&b[m - 1]));
            },
            DiffComponent::Unchanged(i, j) => {
                lemma_counting_init(l0, i, n);
                lemma_counting_init(s0, j, m);
                lemma_resolved_sides(a, b, d0, r0, (n - 1) as nat, (m - 1) as nat);
                assert(refs::<T>(a.take(n as int)) == refs::<T>(a.take(n - 1)).push(&a[n - 1]));
                assert(refs::<T>(b.take(m as int)) == refs::<T>(b.take(m - 1)).push(&b[m - 1]));
            },
            DiffComponent::Deletion(i) => {
                lemma_counting_init(l0, i, n);
                lemma_resolved_sides(a, b, d0, r0, (n - 1) as nat, m);
                assert(refs::<T>(a.take(n as int)) == refs::<T>(a.take(n - 1)).push(&a[n - 1]));
            },
        }
        assert forall|k: int| 0 <= k < d.len() implies in_range(#[trigger] d[k], n, m) by {
            if k < d0.len() {
                assert(d[k] == d0[k]);
            }
        }
    }
}

/// The components of `d`, each resolved over `a` and `b`.
pub open spec fn resolved_all<'a, T>(d: Seq<DiffComponent<usize>>, a: Seq<T>, b: Seq<T>) -> Seq<
    DiffComponent<&'a T>,
> {
    Seq::new(d.len(), |k: int| resolved::<T>(d[k], a, b))
}

/// The plain diff from `a` to `b` by longest common subsequence, over their
/// elements.
pub open spec fn fallback_spec<'a, T: PartialEq>(a: Seq<T>, b: Seq<T>) -> Seq<DiffComponent<&'a T>> {
    resolved_all::<T>(plain_diff_steps(a.len(), b.len(), eq_table(a, b)), a, b)
}

/// A plain diff of `a` and `b` by longest common subsequence, with no regard
/// to which elements are unique. `ia` and `ib` hold the elements of `a` and
/// `b` with their positions.
pub fn fallback_diff<'a, T: Eq>(
    a: &'a [T],
    b: &'a [T],
    ia: &[Indexed<'a, T>],
    ib: &[Indexed<'a, T>],
) -> (r: Vec<DiffComponent<&'a T>>)
    requires
        is_indexing(ia@, a@),
        is_indexing(ib@, b@),
    ensures
        left_side(r@) == refs::<T>(a@),
        right_side(r@) == refs::<T>(b@),
        T::obeys_eq_spec() ==> r@ == fallback_spec::<T>(a@, b@),
        T::obeys_eq_spec() ==> pairs_equal(r@),
{
    let d = plain_diff(ia, ib);
    let n: usize = a.len();
    let m: usize = b.len();
    let ghost steps = plain_diff_steps(n as nat, m as nat, eq_table(a@, b@));
    proof {
        assert(positions(ia@) =~= counting(n as nat));
        assert(positions(ib@) =~= counting(m as nat));
        lemma_resolved_sides(a@, b@, d@, resolved_all::<T>(d@, a@, b@), n as nat, m as nat);
    }
    let r = resolve_components(a, b, &d);
    proof {
        assert(r@ =~= resolved_all::<T>(d@, a@, b@));
        assert(a@.take(n as int) == a@);
        assert(b@.take(m as int) == b@);
        if T::obeys_eq_spec() {
            assert(values(ia@) =~= a@);
            assert(values(ib@) =~= b@);
            lemma_resolved_sides(a@, b@, steps, resolved_all::<T>(steps, a@, b@), n as nat, m as nat);
            assert forall|k: int| 0 <= k < steps.len() implies d@[k] == steps[k] by {
                assert(in_range(steps[k], n as nat, m as nat));
                assert(d@[k] == carried(ia@, ib@, steps[k]));
            }
            assert(d@ =~= steps);
            assert forall|k: int| 0 <= k < r@.len() implies match #[trigger] r@[k] {
                DiffComponent::Unchanged(x, y) => x.eq_spec(y),
                _ => true,
            } by {
                assert(r@[k] == resolved::<T>(d@[k], a@, b@));
                assert(in_range(steps[k], n as nat, m as nat));
            }
        }
    }
    r
}

} // verus!
