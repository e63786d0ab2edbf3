use std::collections::HashSet;

use relations::relation_matrix::{scalar_multiplication, RelationMatrix};
use relations::relations::Relation;

fn set_to(n: u64) -> HashSet<u64> {
    (0..n).collect()
}

fn relation(n: u64, rel: Vec<(u64, u64)>) -> Relation {
    Relation { a: set_to(n), b: set_to(n), rel }
}

fn sorted(mut v: Vec<(u64, u64)>) -> Vec<(u64, u64)> {
    v.sort();
    v.dedup();
    v
}

fn matrix(rows: &[&[u8]]) -> RelationMatrix {
    let cols = if rows.is_empty() { 0 } else { rows[0].len() };
    let data: Vec<Vec<u8>> = rows.iter().map(|r| r.to_vec()).collect();
    RelationMatrix::from_rows(cols, &data)
}

#[test]
fn exercize_9_4_1() {
    let set_a: HashSet<u64> = (0..=3u64).into_iter().collect();
    let set_b: HashSet<u64> = (0..=3u64).into_iter().collect();
    let relation_vec = vec![(0, 1), (1, 1), (1, 2), (2, 0), (2, 2), (3, 0)];
    let relation = Relation { a: set_a, b: set_b, rel: relation_vec };
    let ref_cl = relation.reflexive_closure();
    let sym_cl = relation.symmetric_closure();

    let expected_reflexive = vec![(0, 0), (0, 1), (1, 1), (1, 2), (2, 0), (2, 2), (3, 0), (3, 3)];
    let expected_sym =
        vec![(0, 1), (0, 2), (0, 3), (1, 0), (1, 1), (1, 2), (2, 0), (2, 1), (2, 2), (3, 0)];
    assert_eq!(expected_reflexive, ref_cl.rel);
    assert_eq!(expected_sym, sym_cl.rel);
}

#[test]
fn closures_are_reflexive_and_symmetric() {
    let r = relation(6, vec![(2, 0), (0, 1), (4, 5), (1, 3), (5, 5), (3, 1), (0, 4), (2, 2)]);
    let cl_ref = r.reflexive_closure();
    assert!(cl_ref.is_reflexive());
    let cl_sym = r.symmetric_closure();
    assert!(cl_sym.is_symmetric());
    assert!(!r.is_reflexive());
    assert!(!r.is_symmetric());
}

#[test]
fn transitive_closures_agree_on_example() {
    let r = relation(4, vec![(0, 1), (1, 0), (1, 2), (2, 3)]);
    let cl = r.transitive_closure();
    let cl_w = r.transitive_closure_warshall();
    assert!(cl.is_transitive());
    assert!(cl_w.is_transitive());
    let expected = vec![
        (0, 0), (0, 1), (0, 2), (0, 3),
        (1, 0), (1, 1), (1, 2), (1, 3),
        (2, 3),
    ];
    assert_eq!(cl.rel, expected);
    assert_eq!(cl_w.rel, expected);
    assert_eq!(cl, cl_w);
    assert_eq!(cl.zero_one_matrix(), cl_w.zero_one_matrix());
    assert_eq!(cl.a, r.a);
}

#[test]
fn transitive_closures_agree_on_larger_example() {
    let r = relation(6, vec![(2, 0), (0, 1), (4, 5), (1, 3), (5, 5), (3, 1), (0, 4), (2, 2)]);
    let cl = r.transitive_closure();
    let cl_w = r.transitive_closure_warshall();
    assert_eq!(cl.rel, cl_w.rel);
    assert!(cl.is_transitive());
}

#[test]
fn transitive_closure_of_one_element_keeps_pairs() {
    let r = relation(1, vec![(0, 0)]);
    assert_eq!(r.transitive_closure().rel, vec![(0, 0)]);
}

#[test]
fn transitive_closure_keeps_a_closed_list_as_given() {
    let r = relation(3, vec![(1, 2), (0, 1), (0, 2)]);
    assert_eq!(r.transitive_closure().rel, vec![(1, 2), (0, 1), (0, 2)]);
}

#[test]
fn transitive_closure_needs_every_round() {
    let r = relation(5, vec![(3, 4), (2, 3), (1, 2), (0, 1)]);
    let cl = r.transitive_closure();
    assert_eq!(
        cl.rel,
        vec![(0, 1), (0, 2), (0, 3), (0, 4), (1, 2), (1, 3), (1, 4), (2, 3), (2, 4), (3, 4)]
    );
    assert_eq!(cl.rel, r.transitive_closure_warshall().rel);
}

#[test]
fn round_trip_through_matrix() {
    let pairs = vec![(2, 1), (0, 0), (1, 2), (2, 1)];
    let r = relation(3, pairs.clone());
    let back = r.zero_one_matrix().into_relation();
    assert_eq!(back.rel, sorted(pairs));
}

#[test]
fn is_transitive_example() {
    let a: HashSet<u64> = (1..=3).collect();
    let rel = vec![(1, 1), (1, 2), (2, 2), (2, 3), (1, 3)];
    let trans_rel = Relation { a: a.clone(), b: a, rel };
    assert!(trans_rel.is_transitive());
    let not_trans = relation(3, vec![(0, 1), (1, 2)]);
    assert!(!not_trans.is_transitive());
}

#[test]
fn is_equivalence_example() {
    let a: HashSet<u64> = [0, 1, 2].into_iter().collect();
    let rel: Vec<(u64, u64)> =
        vec![(0, 0), (1, 1), (2, 2), (0, 1), (1, 0), (1, 2), (2, 1), (0, 2), (2, 0)];
    let r = Relation { a: a.clone(), b: a, rel };
    assert!(r.is_equivalence());
    let s = relation(3, vec![(0, 0), (1, 1), (2, 2), (0, 1)]);
    assert!(!s.is_equivalence());
}

#[test]
fn classes_and_quotient() {
    let r = relation(
        5,
        vec![(0, 0), (1, 1), (2, 2), (3, 3), (4, 4), (0, 3), (3, 0), (1, 4), (4, 1)],
    );
    assert!(r.is_equivalence());
    assert_eq!(r.get_class(&3), (0, vec![0, 3]));
    assert_eq!(r.get_class(&4), (1, vec![1, 4]));
    assert_eq!(r.get_class(&2), (2, vec![2]));
    let q = r.quotient_set();
    assert_eq!(q, vec![(0, vec![0, 3]), (1, vec![1, 4]), (2, vec![2])]);
    let mut all: Vec<u64> = q.iter().flat_map(|(_, c)| c.clone()).collect();
    all.sort();
    assert_eq!(all, vec![0, 1, 2, 3, 4]);
}

#[test]
fn quotient_of_sparse_domain() {
    let a: HashSet<u64> = [3, 7, 9].into_iter().collect();
    let r = Relation {
        a: a.clone(),
        b: a,
        rel: vec![(3, 3), (7, 7), (9, 9), (7, 9), (9, 7)],
    };
    assert_eq!(r.quotient_set(), vec![(3, vec![3]), (7, vec![7, 9])]);
}

#[test]
fn are_in_relations_and_diagonal() {
    let r = relation(3, vec![(0, 2)]);
    assert!(r.are_in_relations(&0, &2));
    assert!(!r.are_in_relations(&2, &0));
    assert_eq!(sorted(r.diagonal().rel), vec![(0, 0), (1, 1), (2, 2)]);
}

#[test]
fn zero_one_matrix_and_back() {
    let r = relation(4, vec![(0, 1), (0, 2), (1, 0), (1, 3), (2, 1), (2, 3), (0, 1)]);
    let m = r.zero_one_matrix();
    assert_eq!(
        m.to_rows(),
        vec![vec![0, 1, 1, 0], vec![1, 0, 0, 1], vec![0, 1, 0, 1], vec![0, 0, 0, 0]]
    );
    let back = m.into_relation();
    assert_eq!(back.rel, vec![(0, 1), (0, 2), (1, 0), (1, 3), (2, 1), (2, 3)]);
    assert_eq!(back.a, set_to(4));
    assert_eq!(back.b, set_to(4));
}

#[test]
fn entrywise_operations() {
    let x = matrix(&[&[1, 0], &[1, 1]]);
    let y = matrix(&[&[0, 0], &[1, 0]]);
    assert_eq!(x.bitand(&y).to_rows(), vec![vec![0, 0], vec![1, 0]]);
    assert_eq!(x.bitor(&y).to_rows(), vec![vec![1, 0], vec![1, 1]]);
    assert_eq!(x.transpose().to_rows(), vec![vec![1, 1], vec![0, 1]]);
}

#[test]
fn multiplication_of_rectangular_matrices() {
    let a = matrix(&[&[1, 0], &[0, 1], &[1, 0]]);
    let b = matrix(&[&[1, 1, 0], &[0, 1, 1]]);
    let t = a.mul(&b);
    assert_eq!(t.to_rows(), vec![vec![1, 1, 0], vec![0, 1, 1], vec![1, 1, 0]]);
    assert!(scalar_multiplication(&vec![true, false], &vec![true, true]));
    assert!(!scalar_multiplication(&vec![true, false], &vec![false, true]));
}

#[test]
fn composition_and_square() {
    let r = matrix(&[&[1, 0, 1], &[1, 1, 0], &[0, 0, 0]]);
    let s = matrix(&[&[0, 1, 0], &[0, 0, 1], &[1, 0, 1]]);
    assert_eq!(r.mul(&s).to_rows(), vec![vec![1, 1, 1], vec![0, 1, 1], vec![0, 0, 0]]);
    assert_eq!(r.fast_pow(2).to_rows(), vec![vec![1, 0, 1], vec![1, 1, 1], vec![0, 0, 0]]);
}

#[test]
fn power_scenario() {
    let a = matrix(&[&[0, 0, 1], &[1, 0, 0], &[1, 1, 0]]);
    assert_eq!(a.fast_pow(0), RelationMatrix::identity(3));
    assert_eq!(a.fast_pow(1), a);
    let mut direct = RelationMatrix::identity(3);
    for k in 0..=6u64 {
        assert_eq!(a.fast_pow(k), direct);
        assert_eq!(a.fast_pow(k + 1), a.fast_pow(k).mul(&a));
        direct = direct.mul(&a);
    }
    assert_eq!(a.fast_pow(6).to_rows(), vec![vec![1, 1, 1], vec![1, 1, 1], vec![1, 1, 1]]);
}

#[test]
fn power_zero_of_empty_matrix() {
    let e = matrix(&[]);
    assert_eq!(e.fast_pow(0).nrows(), 0);
    assert_eq!(e.fast_pow(5).ncols(), 0);
}

#[test]
fn transitive_closures_agree_as_relations() {
    let r = relation(6, vec![(2, 0), (0, 1), (4, 5), (1, 3), (5, 5), (3, 1), (0, 4), (2, 2)]);
    let cl = r.transitive_closure();
    let cl_w = r.transitive_closure_warshall();
    let expected = vec![
        (0, 1), (0, 3), (0, 4), (0, 5), (1, 1), (1, 3), (2, 0), (2, 1), (2, 2), (2, 3), (2, 4),
        (2, 5), (3, 1), (3, 3), (4, 5), (5, 5),
    ];
    assert_eq!(cl_w.rel, expected);
    assert_eq!(cl, cl_w);
    assert_eq!(cl.zero_one_matrix(), cl_w.zero_one_matrix());
}

#[test]
fn transitive_closure_keeps_duplicates_once_each() {
    let r = relation(3, vec![(0, 1), (0, 1), (1, 2)]);
    assert_eq!(r.transitive_closure().rel, vec![(0, 1), (0, 1), (0, 2), (1, 2)]);
}

#[test]
fn transitive_closure_on_one_element_returns_list_unchanged() {
    let r = relation(1, vec![(0, 0), (0, 0)]);
    assert_eq!(r.transitive_closure().rel, vec![(0, 0), (0, 0)]);
}

#[test]
fn diagonal_lists_each_pair_once_in_order() {
    let a: HashSet<u64> = [9, 2, 5].into_iter().collect();
    let r = Relation { a: a.clone(), b: a, rel: vec![] };
    assert_eq!(r.diagonal().rel, vec![(2, 2), (5, 5), (9, 9)]);
}

#[test]
fn relation_clone_is_equal() {
    let r = relation(3, vec![(0, 1), (2, 2)]);
    let c = r.clone();
    assert_eq!(c, r);
}
