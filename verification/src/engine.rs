//! The patience diff itself, what it computes, and what holds of it.

use vstd::prelude::*;
use vstd::slice::slice_subrange;
use vstd::std_specs::cmp::PartialEqSpec;
use crate::affix::{
    common_prefix, common_suffix, is_prefix_len, is_suffix_len, lemma_prefix_len_unique,
    lemma_suffix_len_unique, prefix_len, suffix_len,
};
use crate::anchors::{
    anchor_matches, anchors_of, is_anchor_list, is_rising_list, is_shared_unique,
};
use crate::component::{
    DiffComponent, all_deletions, all_insertions, deletions, insertions, left_side,
    lemma_sides_all_deletions, lemma_sides_all_insertions, lemma_sides_concat, lemma_sides_push,
    lemma_sides_unchanged_run, pairs_equal, refs, right_side, unchanged_run,
};
use crate::fallback::{fallback_diff, fallback_spec};
use crate::indexed::{index_elements, indexed_spec, is_indexing, Indexed};
use crate::unique::occurrences;

verus! {

/// `a` and `b` have the same length and equal values at every position.
pub open spec fn agree<T: PartialEq>(a: Seq<T>, b: Seq<T>) -> bool {
    &&& a.len() == b.len()
    &&& forall|k: int| 0 <= k < a.len() ==> #[trigger] a[k].eq_spec(&b[k])
}

/// The anchors between `a` and `b`, as pairs of positions.
pub open spec fn anchors_spec<T: PartialEq>(a: Seq<T>, b: Seq<T>) -> Seq<(usize, usize)> {
    anchors_of(indexed_spec::<T>(a), indexed_spec::<T>(b))
}

/// Where the walk along `anchors` stands after `k` of them: one past the
/// last anchor taken, in both sequences.
pub open spec fn cursor(anchors: Seq<(usize, usize)>, k: int) -> (int, int) {
    if 0 < k <= anchors.len() {
        (anchors[k - 1].0 + 1, anchors[k - 1].1 + 1)
    } else {
        (0, 0)
    }
}

/// The patience diff from `a` to `b`.
pub open spec fn diff_spec<'a, T: PartialEq>(a: Seq<T>, b: Seq<T>) -> Seq<DiffComponent<&'a T>>
    decreases a.len() + b.len(), anchors_spec(a, b).len() + 2,
{
    let p = prefix_len(a, b);
    let s = suffix_len(a, b);
    let anchors = anchors_spec(a, b);
    if a.len() == 0 {
        all_insertions::<T>(b)
    } else if b.len() == 0 {
        all_deletions::<T>(a)
    } else if 0 < p <= a.len() && p <= b.len() {
        unchanged_run::<T>(a, 0, b, 0, p as nat) + diff_spec::<T>(
            a.subrange(p, a.len() as int),
            b.subrange(p, b.len() as int),
        )
    } else if 0 < s <= a.len() && s <= b.len() {
        diff_spec::<T>(a.subrange(0, a.len() - s), b.subrange(0, b.len() - s)) + unchanged_run::<T>(
            a,
            a.len() - s,
            b,
            b.len() - s,
            s as nat,
        )
    } else if anchors.len() == 0 {
        fallback_spec::<T>(a, b)
    } else {
        along_spec::<T>(a, b, anchors)
    }
}

/// The diff from `a` to `b` along `anchors`: for each anchor in turn the
/// patience diff of the gap before it and then the anchor as an unchanged
/// pair, and at the end the patience diff of what follows the last anchor.
pub open spec fn along_spec<'a, T: PartialEq>(a: Seq<T>, b: Seq<T>, anchors: Seq<(usize, usize)>) -> Seq<
    DiffComponent<&'a T>,
>
    decreases a.len() + b.len(), anchors.len() + 1,
{
    let end = cursor(anchors, anchors.len() as int);
    if 0 < end.0 <= a.len() && 0 < end.1 <= b.len() {
        walk_spec::<T>(a, b, anchors, anchors.len()) + diff_spec::<T>(
            a.subrange(end.0, a.len() as int),
            b.subrange(end.1, b.len() as int),
        )
    } else {
        Seq::empty()
    }
}

/// The part of the diff from `a` to `b` along `anchors` that reaches up to
/// the `k`-th anchor and holds it.
pub open spec fn walk_spec<'a, T: PartialEq>(
    a: Seq<T>,
    b: Seq<T>,
    anchors: Seq<(usize, usize)>,
    k: nat,
) -> Seq<DiffComponent<&'a T>>
    decreases a.len() + b.len(), k,
{
    if k == 0 || k > anchors.len() {
        Seq::empty()
    } else {
        let from = cursor(anchors, k - 1);
        let to = anchors[k - 1];
        if from.0 <= to.0 < a.len() && from.1 <= to.1 < b.len() {
            (walk_spec::<T>(a, b, anchors, (k - 1) as nat) + diff_spec::<T>(
                a.subrange(from.0, to.0 as int),
                b.subrange(from.1, to.1 as int),
            )).push(DiffComponent::Unchanged(&a[to.0 as int], &b[to.1 as int]))
        } else {
            Seq::empty()
        }
    }
}

/// Every pair of `anchors` names an element of `a` and an element of `b`
/// that are equal.
pub open spec fn anchors_match<T: PartialEq>(a: Seq<T>, b: Seq<T>, anchors: Seq<(usize, usize)>) -> bool {
    forall|k: int|
        0 <= k < anchors.len() ==> (#[trigger] anchors[k]).0 < a.len() && anchors[k].1 < b.len()
            && a[anchors[k].0 as int].eq_spec(&b[anchors[k].1 as int])
}

/// The element of `a` at `i` and the element of `b` at `j` are equal, and
/// each occurs once only in its sequence.
pub open spec fn is_anchor<T: PartialEq>(a: Seq<T>, b: Seq<T>, i: int, j: int) -> bool {
    &&& 0 <= i < a.len()
    &&& 0 <= j < b.len()
    &&& a[i].eq_spec(&b[j])
    &&& occurrences(a, a[i]) == 1
    &&& occurrences(b, b[j]) == 1
}

/// The anchors between `a` and `b` are pairs of equal elements that occur
/// once only in their sequences, they rise strictly in both, and there is
/// one as soon as any such pair exists.
pub open spec fn anchors_are_sound<T: PartialEq>(a: Seq<T>, b: Seq<T>) -> bool {
    let anchors = anchors_spec(a, b);
    &&& forall|k: int| 0 <= k < anchors.len() ==> is_anchor(a, b, (#[trigger] anchors[k]).0 as int, anchors[k].1 as int)
    &&& forall|k: int, l: int| 0 <= k < l < anchors.len() ==> {
        &&& (#[trigger] anchors[k]).0 < (#[trigger] anchors[l]).0
        &&& anchors[k].1 < anchors[l].1
    }
    &&& forall|i: int, j: int| #[trigger] is_anchor(a, b, i, j) ==> anchors.len() > 0
}

/// An element occurs in a sequence as often as it does, with any position,
/// among the elements with their positions.
pub proof fn lemma_occurrences_indexed<'a, T: PartialEq>(s: Seq<T>, v: Indexed<'a, T>)
    ensures
        occurrences(indexed_spec::<T>(s), v) == occurrences(s, *v.value),
    decreases s.len(),
{
    if s.len() > 0 {
        lemma_occurrences_indexed(s.drop_last(), v);
        assert(indexed_spec::<T>(s).drop_last() == indexed_spec::<T>(s.drop_last()));
    }
}

/// Anchors between the elements with their positions are anchors between
/// the elements.
proof fn lemma_anchors_sound<T: PartialEq>(a: Seq<T>, b: Seq<T>)
    requires
        a.len() <= usize::MAX,
        b.len() <= usize::MAX,
        is_anchor_list(indexed_spec::<T>(a), indexed_spec::<T>(b), anchors_spec(a, b)),
        anchors_spec(a, b).len() > 0 <==> exists|i: int, j: int|
            is_shared_unique(indexed_spec::<T>(a), indexed_spec::<T>(b), i, j),
    ensures
        anchors_are_sound(a, b),
{
    let ia = indexed_spec::<T>(a);
    let ib = indexed_spec::<T>(b);
    let anchors = anchors_spec(a, b);
    assert forall|k: int| 0 <= k < anchors.len() implies is_anchor(
        a,
        b,
        (#[trigger] anchors[k]).0 as int,
        anchors[k].1 as int,
    ) by {
        lemma_occurrences_indexed(a, ia[anchors[k].0 as int]);
        lemma_occurrences_indexed(b, ib[anchors[k].1 as int]);
    }
    assert forall|i: int, j: int| #[trigger] is_anchor(a, b, i, j) implies anchors.len() > 0 by {
        lemma_occurrences_indexed(a, ia[i]);
        lemma_occurrences_indexed(b, ib[j]);
        assert(is_shared_unique(ia, ib, i, j));
    }
}

/// The first `k` of `anchors` each stand in `d` as an unchanged pair of the
/// elements of `a` and `b` that they name.
pub open spec fn keeps_anchors<'a, T>(
    a: Seq<T>,
    b: Seq<T>,
    anchors: Seq<(usize, usize)>,
    d: Seq<DiffComponent<&'a T>>,
    k: int,
) -> bool {
    forall|l: int|
        0 <= l < k && l < anchors.len() ==> d.contains(
            DiffComponent::Unchanged(&a[(#[trigger] anchors[l]).0 as int], &b[anchors[l].1 as int]),
        )
}

/// What `d` holds, `d + e` holds too, and so does `e + d`.
pub proof fn lemma_contains_concat<A>(d: Seq<A>, e: Seq<A>, x: A)
    requires
        d.contains(x),
    ensures
        (d + e).contains(x),
        (e + d).contains(x),
{
    let i = choose|i: int| 0 <= i < d.len() && d[i] == x;
    assert((d + e)[i] == x);
    assert((e + d)[e.len() + i] == x);
}

/// The patience diff from `a` to `b`: a common leading run, or else a common
/// trailing run, is kept as it is; the elements that occur once only in `a`
/// and once only in `b` are aligned as anchors, and the gaps between the
/// anchors are diffed in the same way. Where there is no anchor, the diff is
/// a plain one by longest common subsequence.
pub fn patience_diff<'a, T: Eq>(a: &'a [T], b: &'a [T]) -> (r: Vec<DiffComponent<&'a T>>)
    ensures
        left_side(r@) == refs::<T>(a@),
        right_side(r@) == refs::<T>(b@),
        T::obeys_eq_spec() ==> r@ == diff_spec::<T>(a@, b@),
        T::obeys_eq_spec() ==> pairs_equal(r@),
        T::obeys_eq_spec() && a@.len() > 0 && b@.len() > 0 && prefix_len(a@, b@) == 0 && suffix_len(a@, b@)
            == 0 ==> {
            &&& anchors_are_sound(a@, b@)
            &&& keeps_anchors(a@, b@, anchors_spec(a@, b@), r@, anchors_spec(a@, b@).len() as int)
        },
    decreases a@.len() + b@.len(), 1nat,
{
    if a.len() == 0 {
        let r = insertions(b);
        proof {
            lemma_sides_all_insertions::<T>(b@);
            assert(refs::<T>(a@) == Seq::<&T>::empty());
        }
        return r;
    }
    if b.len() == 0 {
        let r = deletions(a);
        proof {
            lemma_sides_all_deletions::<T>(a@);
            assert(refs::<T>(b@) == Seq::<&T>::empty());
        }
        return r;
    }
    let mut prefix = common_prefix(a, b);
    if prefix.len() > 0 {
        let p: usize = prefix.len();
        let rest_a = slice_subrange(a, p, a.len());
        let rest_b = slice_subrange(b, p, b.len());
        let mut rest = patience_diff(rest_a, rest_b);
        let ghost run = prefix@;
        let ghost tail = rest@;
        prefix.append(&mut rest);
        proof {
            assert(prefix@ == run + tail);
            lemma_sides_concat(run, tail);
            lemma_sides_unchanged_run::<T>(a@, 0, b@, 0, p as nat);
            assert(refs::<T>(a@.subrange(0, p as int)) + refs::<T>(rest_a@) == refs::<T>(a@));
            assert(refs::<T>(b@.subrange(0, p as int)) + refs::<T>(rest_b@) == refs::<T>(b@));
        }
        return prefix;
    }
    let mut suffix = common_suffix(a, b);
    if suffix.len() > 0 {
        let s: usize = suffix.len();
        let init_a = slice_subrange(a, 0, a.len() - s);
        let init_b = slice_subrange(b, 0, b.len() - s);
        let mut r = patience_diff(init_a, init_b);
        let ghost head = r@;
        let ghost run = suffix@;
        r.append(&mut suffix);
        proof {
            assert(r@ == head + run);
            lemma_sides_concat(head, run);
            lemma_sides_unchanged_run::<T>(a@, a@.len() - s, b@, b@.len() - s, s as nat);
            assert(refs::<T>(init_a@) + refs::<T>(a@.subrange(a@.len() - s, a@.len() as int)) == refs::<T>(a@));
            assert(refs::<T>(init_b@) + refs::<T>(b@.subrange(b@.len() - s, b@.len() as int)) == refs::<T>(b@));
        }
        return r;
    }
    let indexed_a = index_elements(a);
    let indexed_b = index_elements(b);
    let anchors = anchor_matches(indexed_a.as_slice(), indexed_b.as_slice());
    proof {
        if T::obeys_eq_spec() {
            lemma_anchors_sound(a@, b@);
        }
    }
    if anchors.len() == 0 {
        return fallback_diff(a, b, indexed_a.as_slice(), indexed_b.as_slice());
    }
    proof {
        if T::obeys_eq_spec() {
            assert forall|k: int| 0 <= k < anchors@.len() implies (#[trigger] anchors@[k]).0 < a@.len()
                && anchors@[k].1 < b@.len() && a@[anchors@[k].0 as int].eq_spec(
                &b@[anchors@[k].1 as int],
            ) by {
                assert(indexed_a@[anchors@[k].0 as int].value.eq_spec(indexed_b@[anchors@[k].1 as int].value));
            }
        }
    }
    diff_along_anchors(a, b, &anchors)
}

/// The diff from `a` to `b` along the given anchors: the gap before each
/// anchor is diffed by patience diff, the anchor follows as an unchanged
/// pair, and what is left after the last anchor is diffed in the same way.
pub fn diff_along_anchors<'a, T: Eq>(a: &'a [T], b: &'a [T], anchors: &Vec<(usize, usize)>) -> (r: Vec<
    DiffComponent<&'a T>,
>)
    requires
        anchors@.len() > 0,
        is_rising_list(anchors@, a@.len(), b@.len()),
    ensures
        left_side(r@) == refs::<T>(a@),
        right_side(r@) == refs::<T>(b@),
        T::obeys_eq_spec() ==> r@ == along_spec::<T>(a@, b@, anchors@),
        T::obeys_eq_spec() ==> keeps_anchors(a@, b@, anchors@, r@, anchors@.len() as int),
        T::obeys_eq_spec() && anchors_match(a@, b@, anchors@) ==> pairs_equal(r@),
    decreases a@.len() + b@.len(), 0nat,
{
    let len_a: usize = a.len();
    let len_b: usize = b.len();
    let mut ret: Vec<DiffComponent<&'a T>> = Vec::new();
    let mut last_a: usize = 0;
    let mut last_b: usize = 0;
    let mut k: usize = 0;
    proof {
        assert(refs::<T>(a@.take(0)) == Seq::<&T>::empty());
        assert(refs::<T>(b@.take(0)) == Seq::<&T>::empty());
    }
    while k < anchors.len()
        invariant
            k <= anchors@.len(),
            last_a <= a@.len() <= usize::MAX,
            last_b <= b@.len() <= usize::MAX,
            k == 0 ==> last_a == 0 && last_b == 0,
            k > 0 ==> last_a == anchors@[k - 1].0 + 1 && last_b == anchors@[k - 1].1 + 1,
            is_rising_list(anchors@, a@.len(), b@.len()),
            left_side(ret@) == refs::<T>(a@.take(last_a as int)),
            right_side(ret@) == refs::<T>(b@.take(last_b as int)),
            T::obeys_eq_spec() ==> ret@ == walk_spec::<T>(a@, b@, anchors@, k as nat),
            T::obeys_eq_spec() ==> keeps_anchors(a@, b@, anchors@, ret@, k as int),
            T::obeys_eq_spec() && anchors_match(a@, b@, anchors@) ==> pairs_equal(ret@),
        decreases anchors@.len() - k,
    {
        let (at_a, at_b) = anchors[k];
        proof {
            if k > 0 {
                assert(anchors@[k - 1].0 < anchors@[k as int].0);
                assert(anchors@[k - 1].1 < anchors@[k as int].1);
            }
            assert(anchors@[k as int].0 < a@.len());
        }
        let gap_a = slice_subrange(a, last_a, at_a);
        let gap_b = slice_subrange(b, last_b, at_b);
        let mut gap = patience_diff(gap_a, gap_b);
        let ghost before = ret@;
        let ghost between = gap@;
        ret.append(&mut gap);
        ret.push(DiffComponent::Unchanged(&a[at_a], &b[at_b]));
        proof {
            let pair = DiffComponent::Unchanged(&a@[at_a as int], &b@[at_b as int]);
            assert(ret@ == (before + between).push(pair));
            lemma_sides_concat(before, between);
            lemma_sides_push(before + between, pair);
            assert(refs::<T>(a@.take(last_a as int)) + refs::<T>(gap_a@) == refs::<T>(a@.take(at_a as int)));
            assert(refs::<T>(b@.take(last_b as int)) + refs::<T>(gap_b@) == refs::<T>(b@.take(at_b as int)));
            assert(refs::<T>(a@.take(at_a as int)).push(&a@[at_a as int]) == refs::<T>(a@.take(at_a + 1)));
            assert(refs::<T>(b@.take(at_b as int)).push(&b@[at_b as int]) == refs::<T>(b@.take(at_b + 1)));
            if anchors_match(a@, b@, anchors@) {
                assert(a@[anchors@[k as int].0 as int].eq_spec(&b@[anchors@[k as int].1 as int]));
            }
            assert forall|l: int| T::obeys_eq_spec() && 0 <= l < k + 1 && l < anchors@.len() implies ret@.contains(
                DiffComponent::Unchanged(&a@[(#[trigger] anchors@[l]).0 as int], &b@[anchors@[l].1 as int]),
            ) by {
                let x = DiffComponent::Unchanged(&a@[anchors@[l].0 as int], &b@[anchors@[l].1 as int]);
                if l < k {
                    lemma_contains_concat(before, between, x);
                    lemma_contains_concat(before + between, seq![pair], x);
                    assert((before + between) + seq![pair] == ret@);
                } else {
                    assert(ret@[ret@.len() - 1] == x);
                }
            }
        }
        last_a = at_a + 1;
        last_b = at_b + 1;
        k += 1;
    }
    let rest_a = slice_subrange(a, last_a, len_a);
    let rest_b = slice_subrange(b, last_b, len_b);
    let mut rest = patience_diff(rest_a, rest_b);
    let ghost before = ret@;
    let ghost tail = rest@;
    ret.append(&mut rest);
    proof {
        assert(ret@ == before + tail);
        lemma_sides_concat(before, tail);
        assert forall|l: int| T::obeys_eq_spec() && 0 <= l < anchors@.len() implies ret@.contains(
            DiffComponent::Unchanged(&a@[(#[trigger] anchors@[l]).0 as int], &b@[anchors@[l].1 as int]),
        ) by {
            lemma_contains_concat(
                before,
                tail,
                DiffComponent::Unchanged(&a@[anchors@[l].0 as int], &b@[anchors@[l].1 as int]),
            );
        }
        assert(refs::<T>(a@.take(last_a as int)) + refs::<T>(rest_a@) == refs::<T>(a@));
        assert(refs::<T>(b@.take(last_b as int)) + refs::<T>(rest_b@) == refs::<T>(b@));
    }
    ret
}

/// The diff from nothing inserts every element of `b`; the diff to nothing
/// deletes every element of `a`; the diff from nothing to nothing is empty.
pub proof fn lemma_diff_of_empty<T: PartialEq>(a: Seq<T>, b: Seq<T>)
    ensures
        a.len() == 0 ==> diff_spec::<T>(a, b) == all_insertions::<T>(b),
        b.len() == 0 ==> diff_spec::<T>(a, b) == all_deletions::<T>(a),
        a.len() == 0 && b.len() == 0 ==> diff_spec::<T>(a, b) == Seq::<DiffComponent<&T>>::empty(),
{
    if a.len() == 0 && b.len() == 0 {
        assert(all_insertions::<T>(b) == Seq::<DiffComponent<&T>>::empty());
        assert(all_deletions::<T>(a) == Seq::<DiffComponent<&T>>::empty());
    }
}

/// The diff between two sequences that agree at every position is one
/// unchanged pair for each position, and nothing else. So is the diff from
/// a sequence to itself, where every element equals itself.
pub proof fn lemma_diff_of_agreeing<T: PartialEq>(a: Seq<T>, b: Seq<T>)
    requires
        agree(a, b),
    ensures
        diff_spec::<T>(a, b) == unchanged_run::<T>(a, 0, b, 0, a.len()),
{
    let n = a.len() as int;
    if n == 0 {
        assert(all_insertions::<T>(b) == unchanged_run::<T>(a, 0, b, 0, 0));
    } else {
        assert(is_prefix_len(a, b, n));
        lemma_prefix_len_unique(a, b, n, prefix_len(a, b));
        let rest_a = a.subrange(n, n);
        let rest_b = b.subrange(n, n);
        assert(diff_spec::<T>(rest_a, rest_b) == all_insertions::<T>(rest_b));
        assert(all_insertions::<T>(rest_b) == Seq::<DiffComponent<&T>>::empty());
        let run = unchanged_run::<T>(a, 0, b, 0, n as nat);
        assert(run + Seq::<DiffComponent<&T>>::empty() == run);
    }
}

/// The diff from a sequence to itself, where every element equals itself,
/// is one unchanged pair for each position, and nothing else.
pub proof fn lemma_diff_of_itself<T: PartialEq>(a: Seq<T>)
    requires
        forall|k: int| 0 <= k < a.len() ==> #[trigger] a[k].eq_spec(&a[k]),
    ensures
        diff_spec::<T>(a, a) == unchanged_run::<T>(a, 0, a, 0, a.len()),
{
    lemma_diff_of_agreeing(a, a);
}

/// Taking the common leading run off both sequences changes nothing: the
/// diff of the whole is that run, as unchanged pairs, and then the diff of
/// what is left.
pub proof fn lemma_diff_trims_prefix<T: PartialEq>(a: Seq<T>, b: Seq<T>, p: int)
    requires
        is_prefix_len(a, b, p),
    ensures
        diff_spec::<T>(a, b) == unchanged_run::<T>(a, 0, b, 0, p as nat) + diff_spec::<T>(
            a.subrange(p, a.len() as int),
            b.subrange(p, b.len() as int),
        ),
{
    lemma_prefix_len_unique(a, b, p, prefix_len(a, b));
    if p == 0 {
        assert(a.subrange(0, a.len() as int) == a);
        assert(b.subrange(0, b.len() as int) == b);
        let d = diff_spec::<T>(a, b);
        assert(unchanged_run::<T>(a, 0, b, 0, 0) + d == d);
    }
}

/// Taking any part of the common leading run off both sequences changes
/// nothing: the diff of the whole is the `q` pairs taken off, unchanged, and
/// then the diff of what is left, whether or not more could be taken off.
pub proof fn lemma_diff_trims_any_prefix<T: PartialEq>(a: Seq<T>, b: Seq<T>, p: int, q: int)
    requires
        is_prefix_len(a, b, p),
        0 <= q <= p,
    ensures
        diff_spec::<T>(a, b) == unchanged_run::<T>(a, 0, b, 0, q as nat) + diff_spec::<T>(
            a.subrange(q, a.len() as int),
            b.subrange(q, b.len() as int),
        ),
{
    let rest_a = a.subrange(q, a.len() as int);
    let rest_b = b.subrange(q, b.len() as int);
    assert forall|k: int| 0 <= k < p - q implies #[trigger] rest_a[k].eq_spec(&rest_b[k]) by {
        assert(a[q + k].eq_spec(&b[q + k]));
    }
    assert(is_prefix_len(rest_a, rest_b, p - q));
    lemma_diff_trims_prefix(a, b, p);
    lemma_diff_trims_prefix(rest_a, rest_b, p - q);
    assert(rest_a.subrange(p - q, rest_a.len() as int) == a.subrange(p, a.len() as int));
    assert(rest_b.subrange(p - q, rest_b.len() as int) == b.subrange(p, b.len() as int));
    let tail = diff_spec::<T>(a.subrange(p, a.len() as int), b.subrange(p, b.len() as int));
    let first = unchanged_run::<T>(a, 0, b, 0, q as nat);
    let second = unchanged_run::<T>(rest_a, 0, rest_b, 0, (p - q) as nat);
    assert(unchanged_run::<T>(a, 0, b, 0, p as nat) == first + second);
    assert((first + second) + tail == first + (second + tail));
}

/// Where the two sequences have no common leading run, taking the common
/// trailing run off both changes nothing: the diff of the whole is the diff
/// of what is left and then that run, as unchanged pairs.
pub proof fn lemma_diff_trims_suffix<T: PartialEq>(a: Seq<T>, b: Seq<T>, s: int)
    requires
        is_prefix_len(a, b, 0),
        is_suffix_len(a, b, s),
    ensures
        diff_spec::<T>(a, b) == diff_spec::<T>(a.subrange(0, a.len() - s), b.subrange(0, b.len() - s))
            + unchanged_run::<T>(a, a.len() - s, b, b.len() - s, s as nat),
{
    lemma_prefix_len_unique(a, b, 0, prefix_len(a, b));
    lemma_suffix_len_unique(a, b, s, suffix_len(a, b));
    if s == 0 {
        assert(a.subrange(0, a.len() as int) == a);
        assert(b.subrange(0, b.len() as int) == b);
        let d = diff_spec::<T>(a, b);
        assert(d + unchanged_run::<T>(a, a.len() as int, b, b.len() as int, 0) == d);
    }
}

/// Where the two sequences have no common leading run, taking any part of
/// the common trailing run off both changes nothing: the diff of the whole
/// is the diff of what is left and then the `q` pairs taken off, unchanged,
/// whether or not more could be taken off.
pub proof fn lemma_diff_trims_any_suffix<T: PartialEq>(a: Seq<T>, b: Seq<T>, s: int, q: int)
    requires
        is_prefix_len(a, b, 0),
        is_suffix_len(a, b, s),
        0 <= q <= s,
    ensures
        diff_spec::<T>(a, b) == diff_spec::<T>(a.subrange(0, a.len() - q), b.subrange(0, b.len() - q))
            + unchanged_run::<T>(a, a.len() - q, b, b.len() - q, q as nat),
{
    let init_a = a.subrange(0, a.len() - q);
    let init_b = b.subrange(0, b.len() - q);
    assert forall|k: int| 0 <= k < s - q implies #[trigger] init_a[init_a.len() - (s - q) + k].eq_spec(
        &init_b[init_b.len() - (s - q) + k],
    ) by {
        assert(a[a.len() - s + k].eq_spec(&b[b.len() - s + k]));
    }
    assert(is_suffix_len(init_a, init_b, s - q));
    assert(is_prefix_len(init_a, init_b, 0));
    lemma_diff_trims_suffix(a, b, s);
    lemma_diff_trims_suffix(init_a, init_b, s - q);
    assert(init_a.subrange(0, init_a.len() - (s - q)) == a.subrange(0, a.len() - s));
    assert(init_b.subrange(0, init_b.len() - (s - q)) == b.subrange(0, b.len() - s));
    let head = diff_spec::<T>(a.subrange(0, a.len() - s), b.subrange(0, b.len() - s));
    let first = unchanged_run::<T>(init_a, init_a.len() - (s - q), init_b, init_b.len() - (s - q), (s - q) as nat);
    let second = unchanged_run::<T>(a, a.len() - q, b, b.len() - q, q as nat);
    assert(unchanged_run::<T>(a, a.len() - s, b, b.len() - s, s as nat) == first + second);
    assert(head + (first + second) == (head + first) + second);
}

} // verus!
