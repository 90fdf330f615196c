use patience_diff::{common_prefix, common_suffix, patience_diff, unique_elements, DiffComponent};
use patience_diff::component::{deletions, insertions};
use patience_diff::fallback::{fallback_diff, resolve_components};
use patience_diff::indexed::{index_elements, Indexed};
use patience_diff::anchors::anchor_matches;
use patience_diff::unique::count_occurrences;
use patience_diff::engine::diff_along_anchors;

fn left<'a, T>(d: &[DiffComponent<&'a T>]) -> Vec<&'a T> {
    let mut out = Vec::new();
    for c in d {
        match c {
            DiffComponent::Insertion(_) => {}
            DiffComponent::Unchanged(x, _) => out.push(*x),
            DiffComponent::Deletion(x) => out.push(*x),
        }
    }
    out
}

fn right<'a, T>(d: &[DiffComponent<&'a T>]) -> Vec<&'a T> {
    let mut out = Vec::new();
    for c in d {
        match c {
            DiffComponent::Insertion(y) => out.push(*y),
            DiffComponent::Unchanged(_, y) => out.push(*y),
            DiffComponent::Deletion(_) => {}
        }
    }
    out
}

#[test]
fn test_patience_diff() {
    let a: Vec<_> = "aax".chars().collect();
    let b: Vec<_> = "xaa".chars().collect();

    let diff = patience_diff(&a, &b);
    assert_eq!(diff, vec![
        DiffComponent::Deletion(&'a'),
        DiffComponent::Deletion(&'a'),
        DiffComponent::Unchanged(&'x', &'x'),
        DiffComponent::Insertion(&'a'),
        DiffComponent::Insertion(&'a'),
    ]);

    let a = vec![1, 10, 11, 4];
    let b = vec![1, 10, 11, 2, 3, 10, 11, 4];

    let diff = patience_diff(&a, &b);
    assert_eq!(diff, vec![
        DiffComponent::Unchanged(&1, &1),
        DiffComponent::Unchanged(&10, &10),
        DiffComponent::Unchanged(&11, &11),
        DiffComponent::Insertion(&2),
        DiffComponent::Insertion(&3),
        DiffComponent::Insertion(&10),
        DiffComponent::Insertion(&11),
        DiffComponent::Unchanged(&4, &4)
    ]);
}

#[test]
fn test_unique_elements() {
    assert_eq!(vec![&2, &4, &5], unique_elements(&[1, 2, 3, 3, 4, 5, 1]));
}

#[test]
fn unique_elements_of_nothing() {
    let empty: [u8; 0] = [];
    assert_eq!(unique_elements(&empty), Vec::<&u8>::new());
}

#[test]
fn unique_elements_all_repeated() {
    assert_eq!(unique_elements(&[7, 7, 8, 8, 7]), Vec::<&i32>::new());
}

#[test]
fn unique_elements_ignore_positions() {
    let (x, y, z) = (5u8, 6u8, 5u8);
    let s = [
        Indexed { index: 0, value: &x },
        Indexed { index: 1, value: &y },
        Indexed { index: 2, value: &z },
    ];
    let u = unique_elements(&s);
    assert_eq!(u.len(), 1);
    assert_eq!(u[0].index, 1);
    assert_eq!(*u[0].value, 6);
}

#[test]
fn count_occurrences_counts_equal_values() {
    assert_eq!(count_occurrences(&[1, 2, 1, 3, 1], &1), 3);
    assert_eq!(count_occurrences(&[1, 2, 1, 3, 1], &2), 1);
    assert_eq!(count_occurrences(&[1, 2, 1, 3, 1], &9), 0);
}

#[test]
fn indexed_equality_is_by_value() {
    let (x, y) = (3u32, 3u32);
    assert!(Indexed { index: 0, value: &x } == Indexed { index: 9, value: &y });
    let z = 4u32;
    assert!(Indexed { index: 0, value: &x } != Indexed { index: 0, value: &z });
}

#[test]
fn index_elements_numbers_from_zero() {
    let s = ['p', 'q', 'r'];
    let v = index_elements(&s);
    assert_eq!(v.len(), 3);
    for (i, e) in v.iter().enumerate() {
        assert_eq!(e.index, i);
        assert_eq!(*e.value, s[i]);
    }
}

#[test]
fn common_prefix_stops_at_first_mismatch() {
    let a = [1, 2, 3, 9, 5];
    let b = [1, 2, 3, 4, 5];
    assert_eq!(common_prefix(&a, &b), vec![
        DiffComponent::Unchanged(&1, &1),
        DiffComponent::Unchanged(&2, &2),
        DiffComponent::Unchanged(&3, &3),
    ]);
    assert_eq!(common_prefix(&[1, 2], &[1, 2, 3]).len(), 2);
    assert!(common_prefix(&[1, 2], &[2, 1]).is_empty());
    let empty: [i32; 0] = [];
    assert!(common_prefix(&empty, &[1]).is_empty());
}

#[test]
fn common_suffix_keeps_sequence_order() {
    let a = [9, 1, 2, 3];
    let b = [8, 8, 2, 3];
    assert_eq!(common_suffix(&a, &b), vec![
        DiffComponent::Unchanged(&2, &2),
        DiffComponent::Unchanged(&3, &3),
    ]);
    assert!(common_suffix(&[1, 2], &[2, 1]).is_empty());
    assert_eq!(common_suffix(&[2, 1], &[1]).len(), 1);
}

#[test]
fn insertions_and_deletions_keep_order() {
    let s = [4, 5];
    assert_eq!(insertions(&s), vec![DiffComponent::Insertion(&4), DiffComponent::Insertion(&5)]);
    assert_eq!(deletions(&s), vec![DiffComponent::Deletion(&4), DiffComponent::Deletion(&5)]);
}

#[test]
fn diff_of_empty_inputs() {
    let empty: [i32; 0] = [];
    let b = [1, 2, 2];
    assert_eq!(patience_diff(&empty, &empty), vec![]);
    assert_eq!(patience_diff(&empty, &b), vec![
        DiffComponent::Insertion(&1),
        DiffComponent::Insertion(&2),
        DiffComponent::Insertion(&2),
    ]);
    assert_eq!(patience_diff(&b, &empty), vec![
        DiffComponent::Deletion(&1),
        DiffComponent::Deletion(&2),
        DiffComponent::Deletion(&2),
    ]);
}

#[test]
fn diff_of_a_sequence_with_itself() {
    let a = [3, 1, 3, 3, 2, 1];
    let d = patience_diff(&a, &a);
    assert_eq!(d.len(), a.len());
    for (i, c) in d.iter().enumerate() {
        assert_eq!(*c, DiffComponent::Unchanged(&a[i], &a[i]));
    }
}

#[test]
fn diff_with_trailing_run() {
    let a = [7, 1, 2];
    let b = [8, 1, 2];
    assert_eq!(patience_diff(&a, &b), vec![
        DiffComponent::Insertion(&8),
        DiffComponent::Deletion(&7),
        DiffComponent::Unchanged(&1, &1),
        DiffComponent::Unchanged(&2, &2),
    ]);
}

#[test]
fn diff_without_unique_elements_falls_back() {
    let a = [1, 1];
    let b = [1, 1, 1];
    let d = patience_diff(&a, &b);
    let unchanged = d.iter().filter(|c| **c == DiffComponent::Unchanged(&1, &1)).count();
    let inserted = d.iter().filter(|c| **c == DiffComponent::Insertion(&1)).count();
    assert_eq!(d.len(), 3);
    assert_eq!(unchanged, 2);
    assert_eq!(inserted, 1);
    assert_eq!(left(&d), vec![&1, &1]);
    assert_eq!(right(&d), vec![&1, &1, &1]);
}

#[test]
fn fallback_diff_is_a_plain_diff() {
    let a: Vec<char> = "axb".chars().collect();
    let b: Vec<char> = "abc".chars().collect();
    let ia = index_elements(&a);
    let ib = index_elements(&b);
    assert_eq!(fallback_diff(&a, &b, &ia, &ib), vec![
        DiffComponent::Unchanged(&'a', &'a'),
        DiffComponent::Deletion(&'x'),
        DiffComponent::Unchanged(&'b', &'b'),
        DiffComponent::Insertion(&'c'),
    ]);
}

#[test]
fn fallback_diff_of_repeats() {
    let a = [2, 1, 1, 2];
    let b = [1, 2, 2, 1];
    let ia = index_elements(&a);
    let ib = index_elements(&b);
    let d = fallback_diff(&a, &b, &ia, &ib);
    assert_eq!(left(&d), vec![&2, &1, &1, &2]);
    assert_eq!(right(&d), vec![&1, &2, &2, &1]);
    for c in &d {
        if let DiffComponent::Unchanged(x, y) = c {
            assert_eq!(x, y);
        }
    }
}

#[test]
fn resolve_components_looks_positions_up() {
    let a = ['p', 'q'];
    let b = ['r', 's', 't'];
    let d = vec![
        DiffComponent::Insertion(2),
        DiffComponent::Unchanged(1, 0),
        DiffComponent::Deletion(0),
    ];
    assert_eq!(resolve_components(&a, &b, &d), vec![
        DiffComponent::Insertion(&'t'),
        DiffComponent::Unchanged(&'q', &'r'),
        DiffComponent::Deletion(&'p'),
    ]);
}

#[test]
fn anchor_matches_align_unique_values_only() {
    let a: Vec<char> = "aax".chars().collect();
    let b: Vec<char> = "xaa".chars().collect();
    let ia = index_elements(&a);
    let ib = index_elements(&b);
    assert_eq!(anchor_matches(&ia, &ib), vec![(2, 0)]);

    let a = [5, 1, 5, 2, 9, 3];
    let b = [1, 7, 7, 2, 3, 8];
    let ia = index_elements(&a);
    let ib = index_elements(&b);
    assert_eq!(anchor_matches(&ia, &ib), vec![(1, 0), (3, 3), (5, 4)]);
}

#[test]
fn anchor_matches_without_unique_values() {
    let a = [1, 1];
    let b = [1, 1, 1];
    let ia = index_elements(&a);
    let ib = index_elements(&b);
    assert_eq!(anchor_matches(&ia, &ib), Vec::<(usize, usize)>::new());
}

#[test]
fn anchors_that_cross_keep_one() {
    let a = [1, 2];
    let b = [2, 1];
    let ia = index_elements(&a);
    let ib = index_elements(&b);
    assert_eq!(anchor_matches(&ia, &ib).len(), 1);
    let d = patience_diff(&a, &b);
    assert_eq!(left(&d), vec![&1, &2]);
    assert_eq!(right(&d), vec![&2, &1]);
}

#[test]
fn unique_shared_values_stay_unchanged() {
    let a = [0, 0, 10, 0, 20, 0, 0, 30, 0];
    let b = [0, 10, 0, 0, 0, 20, 30, 0, 0, 0];
    let d = patience_diff(&a[1..], &b[..]);
    for v in [10, 20, 30] {
        assert!(d.contains(&DiffComponent::Unchanged(&v, &v)));
        assert!(!d.contains(&DiffComponent::Deletion(&v)));
        assert!(!d.contains(&DiffComponent::Insertion(&v)));
    }
}

#[test]
fn diff_reconstructs_both_inputs() {
    let samples: Vec<(Vec<u8>, Vec<u8>)> = vec![
        (vec![1, 2, 3, 4, 5], vec![5, 4, 3, 2, 1]),
        (vec![1, 1, 2, 1, 1], vec![2, 1, 1, 2]),
        (vec![9, 3, 3, 7, 3, 8], vec![3, 9, 3, 8, 7, 3, 3]),
        (vec![0, 1, 0, 2, 0, 3], vec![4, 0, 1, 0, 3, 0, 2]),
        (vec![6], vec![6, 6, 6]),
    ];
    for (a, b) in &samples {
        let d = patience_diff(a, b);
        assert_eq!(left(&d), a.iter().collect::<Vec<_>>());
        assert_eq!(right(&d), b.iter().collect::<Vec<_>>());
        for c in &d {
            if let DiffComponent::Unchanged(x, y) = c {
                assert_eq!(x, y);
            }
        }
    }
}

#[test]
fn diff_begins_with_the_common_leading_run() {
    let a = [1, 2, 3, 7, 7, 4];
    let b = [1, 2, 3, 8, 4, 4];
    let d = patience_diff(&a, &b);
    let rest = patience_diff(&a[3..], &b[3..]);
    assert_eq!(d[..3], common_prefix(&a, &b)[..]);
    assert_eq!(d[3..], rest[..]);
}

#[test]
fn diff_ends_with_the_common_trailing_run() {
    let a = [7, 7, 5, 1, 2, 3];
    let b = [8, 5, 8, 1, 2, 3];
    let d = patience_diff(&a, &b);
    let init = patience_diff(&a[..3], &b[..3]);
    let n = d.len();
    assert_eq!(d[n - 3..], common_suffix(&a, &b)[..]);
    assert_eq!(d[..n - 3], init[..]);
    assert_eq!(d[n - 3..], [
        DiffComponent::Unchanged(&1, &1),
        DiffComponent::Unchanged(&2, &2),
        DiffComponent::Unchanged(&3, &3),
    ]);
}

#[test]
fn every_anchor_is_an_unchanged_pair() {
    let a = [5, 1, 5, 2, 9, 3, 5];
    let b = [6, 1, 7, 7, 2, 3, 8];
    let ia = index_elements(&a);
    let ib = index_elements(&b);
    let anchors = anchor_matches(&ia, &ib);
    assert_eq!(anchors, vec![(1, 1), (3, 4), (5, 5)]);
    let d = patience_diff(&a, &b);
    for (i, j) in anchors {
        assert!(d.contains(&DiffComponent::Unchanged(&a[i], &b[j])));
    }
    assert_eq!(d, vec![
        DiffComponent::Insertion(&6),
        DiffComponent::Deletion(&5),
        DiffComponent::Unchanged(&1, &1),
        DiffComponent::Insertion(&7),
        DiffComponent::Insertion(&7),
        DiffComponent::Deletion(&5),
        DiffComponent::Unchanged(&2, &2),
        DiffComponent::Deletion(&9),
        DiffComponent::Unchanged(&3, &3),
        DiffComponent::Insertion(&8),
        DiffComponent::Deletion(&5),
    ]);
}

#[test]
fn diff_is_the_same_on_every_call() {
    let a = [1, 1, 2, 1, 3, 3];
    let b = [3, 1, 1, 2, 2, 1];
    assert_eq!(patience_diff(&a, &b), patience_diff(&a, &b));
}

#[test]
fn diff_of_strings() {
    let a = vec![String::from("fn main() {"), String::from("}"), String::from("")];
    let b = vec![String::from("fn main() {"), String::from("    run();"), String::from("}"), String::from("")];
    let d = patience_diff(&a, &b);
    assert_eq!(d, vec![
        DiffComponent::Unchanged(&a[0], &b[0]),
        DiffComponent::Insertion(&b[1]),
        DiffComponent::Unchanged(&a[1], &b[2]),
        DiffComponent::Unchanged(&a[2], &b[3]),
    ]);
}

#[test]
fn diff_is_the_same_after_taking_part_of_a_common_run_off() {
    let a = [1, 2, 3, 7, 7, 4, 9];
    let b = [1, 2, 3, 8, 4, 4, 9];
    let d = patience_diff(&a, &b);
    for q in 0..=3 {
        let mut expected: Vec<DiffComponent<&i32>> = Vec::new();
        for i in 0..q {
            expected.push(DiffComponent::Unchanged(&a[i], &b[i]));
        }
        expected.extend(patience_diff(&a[q..], &b[q..]));
        assert_eq!(d, expected);
    }
    let a = [5, 2, 2, 6, 1, 1];
    let b = [7, 2, 8, 2, 1, 1];
    let d = patience_diff(&a, &b);
    for q in 0..=2 {
        let mut expected = patience_diff(&a[..a.len() - q], &b[..b.len() - q]);
        for i in 0..q {
            expected.push(DiffComponent::Unchanged(&a[a.len() - q + i], &b[b.len() - q + i]));
        }
        assert_eq!(d, expected);
    }
}

#[test]
fn anchors_are_chosen_after_the_common_run_is_taken_off() {
    let a = [1, 1, 2];
    let b = [1, 2, 1];
    let d = patience_diff(&a, &b);
    assert_eq!(d, vec![
        DiffComponent::Unchanged(&1, &1),
        DiffComponent::Insertion(&2),
        DiffComponent::Unchanged(&1, &1),
        DiffComponent::Deletion(&2),
    ]);
    assert_eq!(left(&d), vec![&1, &1, &2]);
    assert_eq!(right(&d), vec![&1, &2, &1]);
}

#[test]
fn diff_along_given_anchors() {
    let a = [1, 1, 9];
    let b = [9, 1, 1];
    assert_eq!(diff_along_anchors(&a, &b, &vec![(2, 0)]), vec![
        DiffComponent::Deletion(&1),
        DiffComponent::Deletion(&1),
        DiffComponent::Unchanged(&9, &9),
        DiffComponent::Insertion(&1),
        DiffComponent::Insertion(&1),
    ]);
    let a = [4, 5, 6];
    let b = [4, 7, 6, 8];
    assert_eq!(diff_along_anchors(&a, &b, &vec![(0, 0), (2, 2)]), vec![
        DiffComponent::Unchanged(&4, &4),
        DiffComponent::Insertion(&7),
        DiffComponent::Deletion(&5),
        DiffComponent::Unchanged(&6, &6),
        DiffComponent::Insertion(&8),
    ]);
}
