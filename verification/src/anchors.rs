//! Anchors: a longest common subsequence of the elements that occur once
//! only in each of two sequences.

use vstd::prelude::*;
use vstd::std_specs::cmp::PartialEqSpec;
use crate::indexed::Indexed;
use crate::unique::{occurrences, selects, unique_among, unique_elements};

verus! {

/// `m` pairs positions below `n` with positions below `k`, and rises
/// strictly in both coordinates.
pub open spec fn is_rising(m: Seq<(int, int)>, n: nat, k: nat) -> bool {
    &&& forall|i: int| 0 <= i < m.len() ==> 0 <= (#[trigger] m[i]).0 < n && 0 <= m[i].1 < k
    &&& forall|i: int, j: int| 0 <= i < j < m.len() ==> {
        &&& (#[trigger] m[i]).0 < (#[trigger] m[j]).0
        &&& m[i].1 < m[j].1
    }
}

/// `r` holds the positions carried by elements of `x` and `y` that stand at
/// pairs of positions rising strictly in both.
pub open spec fn is_rising_selection<'a, T>(
    x: Seq<&Indexed<'a, T>>,
    y: Seq<&Indexed<'a, T>>,
    r: Seq<(usize, usize)>,
) -> bool {
    exists|m: Seq<(int, int)>| #[trigger] is_rising(m, x.len(), y.len()) && r == carried_positions(x, y, m)
}

/// `anchors` pairs positions below `n` with positions below `k`, and rises
/// strictly in both coordinates.
pub open spec fn is_rising_list(anchors: Seq<(usize, usize)>, n: nat, k: nat) -> bool {
    &&& forall|i: int| 0 <= i < anchors.len() ==> (#[trigger] anchors[i]).0 < n && anchors[i].1 < k
    &&& forall|i: int, j: int| 0 <= i < j < anchors.len() ==> {
        &&& (#[trigger] anchors[i]).0 < (#[trigger] anchors[j]).0
        &&& anchors[i].1 < anchors[j].1
    }
}

/// `m` pairs positions of `x` with positions of `y` that hold equal values,
/// and rises strictly in both coordinates.
pub open spec fn is_common_subsequence<'a, T: PartialEq>(
    x: Seq<&Indexed<'a, T>>,
    y: Seq<&Indexed<'a, T>>,
    m: Seq<(int, int)>,
) -> bool {
    &&& forall|k: int| 0 <= k < m.len() ==> {
        &&& 0 <= (#[trigger] m[k]).0 < x.len()
        &&& 0 <= m[k].1 < y.len()
        &&& x[m[k].0].value.eq_spec(y[m[k].1].value)
    }
    &&& forall|k: int, l: int| 0 <= k < l < m.len() ==> {
        &&& (#[trigger] m[k]).0 < (#[trigger] m[l]).0
        &&& m[k].1 < m[l].1
    }
}

/// `m` is a common subsequence of `x` and `y`, and none is longer.
pub open spec fn is_longest_common_subsequence<'a, T: PartialEq>(
    x: Seq<&Indexed<'a, T>>,
    y: Seq<&Indexed<'a, T>>,
    m: Seq<(int, int)>,
) -> bool {
    &&& is_common_subsequence(x, y, m)
    &&& forall|o: Seq<(int, int)>| #[trigger] is_common_subsequence(x, y, o) ==> o.len() <= m.len()
}

/// The positions that the elements matched by `m` carry with them.
pub open spec fn carried_positions<'a, T>(
    x: Seq<&Indexed<'a, T>>,
    y: Seq<&Indexed<'a, T>>,
    m: Seq<(int, int)>,
) -> Seq<(usize, usize)> {
    Seq::new(m.len(), |k: int| (x[m[k].0].index, y[m[k].1].index))
}

/// For every position of `x` and every position of `y`, whether the two
/// elements there are equal.
pub open spec fn eq_table<T: PartialEq>(x: Seq<T>, y: Seq<T>) -> Seq<Seq<bool>> {
    Seq::new(x.len(), |i: int| Seq::new(y.len(), |j: int| x[i].eq_spec(&y[j])))
}

/// For every element of `x` and every element of `y`, whether their values
/// are equal.
pub open spec fn match_table<'a, T: PartialEq>(x: Seq<&Indexed<'a, T>>, y: Seq<&Indexed<'a, T>>) -> Seq<
    Seq<bool>,
> {
    Seq::new(x.len(), |i: int| Seq::new(y.len(), |j: int| x[i].value.eq_spec(y[j].value)))
}

/// The pairs of positions that `lcs::LcsTable::longest_common_subsequence`
/// matches, in order, for two slices whose elements compare as `table` says.
pub uninterp spec fn lcs_matching(table: Seq<Seq<bool>>) -> Seq<(int, int)>;

/// `m` is a longest common subsequence of `x` and `y`, and `r` holds the
/// positions carried by the elements that it matches.
pub open spec fn is_matching_of<'a, T: PartialEq>(
    x: Seq<&Indexed<'a, T>>,
    y: Seq<&Indexed<'a, T>>,
    m: Seq<(int, int)>,
    r: Seq<(usize, usize)>,
) -> bool {
    &&& is_longest_common_subsequence(x, y, m)
    &&& r == carried_positions(x, y, m)
}

/// The anchors between two sequences of elements with positions: the
/// positions carried by what a longest common subsequence matches of the
/// elements that occur once only in each.
pub open spec fn anchors_of<'a, T: PartialEq>(a: Seq<Indexed<'a, T>>, b: Seq<Indexed<'a, T>>) -> Seq<
    (usize, usize),
> {
    let x = unique_among::<Indexed<'a, T>>(a, a.len());
    let y = unique_among::<Indexed<'a, T>>(b, b.len());
    carried_positions(x, y, lcs_matching(match_table(x, y)))
}

/// `anchors` is a list of anchors between `a` and `b`: each pairs a position
/// of `a` with a position of `b` that holds an equal value, the value occurs
/// once only in `a` and once only in `b`, and the list rises strictly in
/// both coordinates.
pub open spec fn is_anchor_list<'a, T: PartialEq>(
    a: Seq<Indexed<'a, T>>,
    b: Seq<Indexed<'a, T>>,
    anchors: Seq<(usize, usize)>,
) -> bool {
    &&& forall|k: int| 0 <= k < anchors.len() ==> {
        &&& (#[trigger] anchors[k]).0 < a.len()
        &&& anchors[k].1 < b.len()
        &&& a[anchors[k].0 as int].value.eq_spec(b[anchors[k].1 as int].value)
        &&& occurrences(a, a[anchors[k].0 as int]) == 1
        &&& occurrences(b, b[anchors[k].1 as int]) == 1
    }
    &&& forall|k: int, l: int| 0 <= k < l < anchors.len() ==> {
        &&& (#[trigger] anchors[k]).0 < (#[trigger] anchors[l]).0
        &&& anchors[k].1 < anchors[l].1
    }
}

/// The element of `a` at `i` and the element of `b` at `j` are equal by
/// value, and each occurs once only in its sequence.
pub open spec fn is_shared_unique<'a, T: PartialEq>(
    a: Seq<Indexed<'a, T>>,
    b: Seq<Indexed<'a, T>>,
    i: int,
    j: int,
) -> bool {
    &&& 0 <= i < a.len()
    &&& 0 <= j < b.len()
    &&& a[i].value.eq_spec(b[j].value)
    &&& occurrences(a, a[i]) == 1
    &&& occurrences(b, b[j]) == 1
}

/// Every element of `s` stands at the position it carries.
pub open spec fn is_positioned<'a, T>(s: Seq<Indexed<'a, T>>) -> bool {
    forall|i: int| 0 <= i < s.len() ==> (#[trigger] s[i]).index == i
}

/// Calls `lcs::LcsTable::new` on the two slices and then
/// `longest_common_subsequence` on the table, and hands back, for each
/// matched pair, the positions that its two elements carry. Believed of the
/// outside code: the matched pairs stand at positions that rise strictly in
/// both slices. And for a type whose `==` is its `eq_spec`: which pairs it
/// matches depends only on which elements are equal; the matched pairs are a
/// common subsequence of `x` and `y` by value, and no common subsequence is
/// longer.
#[verifier::external_body]
fn longest_common_positions<'a, T: Eq>(x: &[&Indexed<'a, T>], y: &[&Indexed<'a, T>]) -> (r: Vec<(usize, usize)>)
    ensures
        is_rising_selection(x@, y@, r@),
        T::obeys_eq_spec() ==> is_matching_of(x@, y@, lcs_matching(match_table(x@, y@)), r@),
{
    let table = lcs::LcsTable::new(x, y);
    table.longest_common_subsequence().into_iter().map(|(p, q)| (p.index, q.index)).collect()
}

/// Every element of `u` carries a position below `n` and is the element of
/// `s` that stands there, occurs once only in `s`, and the positions rise
/// strictly along `u`.
pub open spec fn keeps_positions<'a, T: PartialEq>(
    s: Seq<Indexed<'a, T>>,
    u: Seq<&Indexed<'a, T>>,
    n: nat,
) -> bool {
    &&& forall|k: int| 0 <= k < u.len() ==> {
        &&& (#[trigger] u[k]).index < n
        &&& *u[k] == s[u[k].index as int]
        &&& occurrences(s, *u[k]) == 1
    }
    &&& forall|k: int, l: int| 0 <= k < l < u.len() ==> (#[trigger] u[k]).index < (#[trigger] u[l]).index
}

/// The elements that occur once only in a positioned sequence keep their
/// positions, which rise strictly, and each is the element that stands there.
pub proof fn lemma_unique_among_positions<'a, T: PartialEq>(s: Seq<Indexed<'a, T>>, n: nat)
    requires
        is_positioned(s),
        n <= s.len(),
    ensures
        keeps_positions(s, unique_among::<Indexed<'a, T>>(s, n), n),
    decreases n,
{
    if n > 0 {
        let m = (n - 1) as nat;
        let init = unique_among::<Indexed<'a, T>>(s, m);
        let u = unique_among::<Indexed<'a, T>>(s, n);
        lemma_unique_among_positions(s, m);
        if occurrences(s, s[n - 1]) == 1 {
            assert(u == init.push(&s[n - 1]));
            assert forall|k: int| 0 <= k < u.len() implies {
                &&& (#[trigger] u[k]).index < n
                &&& *u[k] == s[u[k].index as int]
                &&& occurrences(s, *u[k]) == 1
            } by {
                if k < init.len() {
                    assert(u[k] == init[k]);
                } else {
                    assert(*u[k] == s[n - 1]);
                }
            }
            assert forall|k: int, l: int| 0 <= k < l < u.len() implies (#[trigger] u[k]).index < (
            #[trigger] u[l]).index by {
                assert(u[k] == init[k]);
                if l < init.len() {
                    assert(u[l] == init[l]);
                } else {
                    assert(*u[l] == s[n - 1]);
                }
            }
        } else {
            assert(u == init);
        }
    }
}

/// An element that occurs once only in `s` is among those that
/// `unique_among` keeps, once its position is below `n`.
pub proof fn lemma_unique_among_complete<'a, T: PartialEq>(s: Seq<Indexed<'a, T>>, n: nat, i: int) -> (k: int)
    requires
        0 <= i < n <= s.len(),
        occurrences(s, s[i]) == 1,
    ensures
        0 <= k < unique_among::<Indexed<'a, T>>(s, n).len(),
        *unique_among::<Indexed<'a, T>>(s, n)[k] == s[i],
    decreases n,
{
    let init = unique_among::<Indexed<'a, T>>(s, (n - 1) as nat);
    if i == n - 1 {
        init.len() as int
    } else {
        let k = lemma_unique_among_complete(s, (n - 1) as nat, i);
        k
    }
}

/// The anchors between two positioned sequences: a longest common
/// subsequence of the elements that occur once only in each of them.
pub fn anchor_matches<'a, T: Eq>(a: &[Indexed<'a, T>], b: &[Indexed<'a, T>]) -> (r: Vec<(usize, usize)>)
    requires
        is_positioned(a@),
        is_positioned(b@),
    ensures
        is_rising_list(r@, a@.len(), b@.len()),
        T::obeys_eq_spec() ==> r@ == anchors_of(a@, b@),
        T::obeys_eq_spec() ==> is_anchor_list(a@, b@, r@),
        T::obeys_eq_spec() ==> (r@.len() > 0 <==> exists|i: int, j: int| is_shared_unique(a@, b@, i, j)),
{
    let unique_a = unique_elements(a);
    let unique_b = unique_elements(b);
    let r = longest_common_positions(unique_a.as_slice(), unique_b.as_slice());
    proof {
        let at_a = choose|at: Seq<int>| selects(a@, unique_a@, at);
        let at_b = choose|at: Seq<int>| selects(b@, unique_b@, at);
        let rising = choose|m: Seq<(int, int)>| #[trigger]
            is_rising(m, unique_a@.len(), unique_b@.len()) && r@ == carried_positions(unique_a@, unique_b@, m);
        assert forall|k: int| 0 <= k < r@.len() implies (#[trigger] r@[k]).0 < a@.len() && r@[k].1
            < b@.len() by {
            let p = rising[k];
            assert(r@[k] == (unique_a@[p.0].index, unique_b@[p.1].index));
            assert(*unique_a@[p.0] == a@[at_a[p.0]]);
            assert(*unique_b@[p.1] == b@[at_b[p.1]]);
        }
        assert forall|k: int, l: int| 0 <= k < l < r@.len() implies {
            &&& (#[trigger] r@[k]).0 < (#[trigger] r@[l]).0
            &&& r@[k].1 < r@[l].1
        } by {
            let p = rising[k];
            let q = rising[l];
            assert(r@[k] == (unique_a@[p.0].index, unique_b@[p.1].index));
            assert(r@[l] == (unique_a@[q.0].index, unique_b@[q.1].index));
            assert(*unique_a@[p.0] == a@[at_a[p.0]]);
            assert(*unique_b@[p.1] == b@[at_b[p.1]]);
            assert(*unique_a@[q.0] == a@[at_a[q.0]]);
            assert(*unique_b@[q.1] == b@[at_b[q.1]]);
        }
        if T::obeys_eq_spec() {
            lemma_unique_among_positions(a@, a@.len());
            lemma_unique_among_positions(b@, b@.len());
            let m = lcs_matching(match_table(unique_a@, unique_b@));
            assert forall|k: int| 0 <= k < r@.len() implies {
                &&& (#[trigger] r@[k]).0 < a@.len()
                &&& r@[k].1 < b@.len()
                &&& a@[r@[k].0 as int].value.eq_spec(b@[r@[k].1 as int].value)
                &&& occurrences(a@, a@[r@[k].0 as int]) == 1
                &&& occurrences(b@, b@[r@[k].1 as int]) == 1
            } by {
                let p = m[k];
                let ea = unique_a@[p.0];
                let eb = unique_b@[p.1];
                assert(r@[k] == (ea.index, eb.index));
            }
            if r@.len() > 0 {
                assert(is_shared_unique(a@, b@, r@[0].0 as int, r@[0].1 as int));
            }
            if exists|i: int, j: int| is_shared_unique(a@, b@, i, j) {
                let (i, j) = choose|i: int, j: int| is_shared_unique(a@, b@, i, j);
                let ka = lemma_unique_among_complete(a@, a@.len(), i);
                let kb = lemma_unique_among_complete(b@, b@.len(), j);
                let one = seq![(ka, kb)];
                assert(is_common_subsequence(unique_a@, unique_b@, one));
                assert(one.len() <= m.len());
            }
        }
    }
    r
}

} // verus!
