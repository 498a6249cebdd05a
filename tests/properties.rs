use relation_matrix::{Matrix, MatrixError};

fn mat(rows: Vec<Vec<u8>>) -> Matrix {
    Matrix::new(rows).unwrap()
}

fn cells(m: &Matrix) -> Vec<Vec<bool>> {
    let n = m.size();
    (0..n).map(|i| (0..n).map(|j| m.get(i, j).unwrap()).collect()).collect()
}

fn bits(rows: Vec<Vec<u8>>) -> Vec<Vec<bool>> {
    rows.into_iter().map(|r| r.into_iter().map(|x| x != 0).collect()).collect()
}

fn samples() -> Vec<Matrix> {
    let mut out = vec![
        mat(vec![]),
        mat(vec![vec![0]]),
        mat(vec![vec![1]]),
        mat(vec![vec![0, 1], vec![1, 0]]),
        mat(vec![vec![0, 1, 0], vec![0, 0, 1], vec![0, 0, 0]]),
        mat(vec![vec![1, 1, 0], vec![0, 1, 0], vec![0, 0, 1]]),
        mat(vec![vec![0, 0, 1], vec![1, 0, 0], vec![0, 1, 0]]),
        mat(vec![vec![0, 1, 0, 0], vec![0, 0, 0, 1], vec![1, 0, 0, 0], vec![0, 0, 1, 0]]),
    ];
    let mut rng = fastrand::Rng::with_seed(11);
    for size in 1..9 {
        out.push(Matrix::new_random(size, &mut rng));
    }
    out
}

#[test]
fn scenario_reflexive_and_transitive() {
    let m = mat(vec![vec![1, 1, 0], vec![0, 1, 0], vec![0, 0, 1]]);
    assert!(m.is_reflexive());
    assert!(m.is_transitive());
    assert!(m.is_transitive_sequential());
}

#[test]
fn scenario_chain_closure() {
    let m = mat(vec![vec![0, 1, 0], vec![0, 0, 1], vec![0, 0, 0]]);
    assert!(!m.is_transitive());
    assert!(!m.is_transitive_sequential());
    let expected = bits(vec![vec![0, 1, 1], vec![0, 0, 1], vec![0, 0, 0]]);
    assert_eq!(cells(&m.make_transitive()), expected);
    assert_eq!(cells(&m.make_transitive_sequential()), expected);
}

#[test]
fn scenario_swap_pair() {
    let m = mat(vec![vec![0, 1], vec![1, 0]]);
    assert!(m.is_symmetric());
    assert!(!m.is_antisymmetric());
    assert!(!m.is_asymmetric());
}

#[test]
fn scenario_single_unrelated_element() {
    let m = mat(vec![vec![0]]);
    assert!(!m.is_reflexive());
    assert!(m.is_symmetric());
    assert!(m.is_transitive());
    assert!(!m.is_equivalence());
}

#[test]
fn empty_relation_has_every_property_but_none_fails() {
    let m = mat(vec![]);
    assert_eq!(m.size(), 0);
    assert!(m.is_reflexive());
    assert!(m.is_irreflexive());
    assert!(m.is_symmetric());
    assert!(m.is_antisymmetric());
    assert!(m.is_asymmetric());
    assert!(m.is_transitive());
    assert!(m.is_equivalence());
    assert_eq!(cells(&m.make_transitive()), Vec::<Vec<bool>>::new());
}

#[test]
fn cycle_closes_to_all_ones() {
    let m = mat(vec![vec![0, 0, 1], vec![1, 0, 0], vec![0, 1, 0]]);
    assert_eq!(cells(&m.make_transitive()), vec![vec![true; 3]; 3]);
}

#[test]
fn reflexive_closure_sets_the_diagonal() {
    let m = mat(vec![vec![0, 1, 0], vec![0, 0, 0], vec![1, 0, 1]]);
    let r = m.make_reflexive();
    assert_eq!(cells(&r), bits(vec![vec![1, 1, 0], vec![0, 1, 0], vec![1, 0, 1]]));
    assert!(r.is_reflexive());
}

#[test]
fn symmetric_closure_mirrors_pairs() {
    let m = mat(vec![vec![0, 1, 0], vec![0, 0, 0], vec![1, 0, 1]]);
    let s = m.make_symmetric();
    assert_eq!(cells(&s), bits(vec![vec![0, 1, 1], vec![1, 0, 0], vec![1, 0, 1]]));
    assert!(s.is_symmetric());
}

#[test]
fn nonzero_entries_relate() {
    let m = mat(vec![vec![2, 0], vec![0, 255]]);
    assert_eq!(cells(&m), bits(vec![vec![1, 0], vec![0, 1]]));
    assert!(m.is_reflexive());
}

#[test]
fn too_few_columns_is_dimension_error() {
    let r = Matrix::new(vec![vec![1, 0], vec![0]]);
    assert!(matches!(r, Err(MatrixError::DimensionError)));
}

#[test]
fn too_many_rows_is_dimension_error() {
    let r = Matrix::new(vec![vec![1, 0], vec![0, 1], vec![1, 1]]);
    assert!(matches!(r, Err(MatrixError::DimensionError)));
}

#[test]
fn get_out_of_range_is_index_error() {
    let m = mat(vec![vec![1, 0], vec![0, 1]]);
    assert_eq!(m.get(1, 0), Ok(false));
    assert_eq!(m.get(1, 1), Ok(true));
    assert_eq!(m.get(2, 0), Err(MatrixError::IndexOutOfBounds));
    assert_eq!(m.get(0, 2), Err(MatrixError::IndexOutOfBounds));
}

#[test]
fn set_changes_one_cell_or_nothing() {
    let mut m = mat(vec![vec![0, 0], vec![0, 0]]);
    assert_eq!(m.set(0, 1, true), Ok(()));
    assert_eq!(cells(&m), bits(vec![vec![0, 1], vec![0, 0]]));
    assert_eq!(m.set(0, 2, true), Err(MatrixError::IndexOutOfBounds));
    assert_eq!(m.set(5, 0, true), Err(MatrixError::IndexOutOfBounds));
    assert_eq!(cells(&m), bits(vec![vec![0, 1], vec![0, 0]]));
    assert_eq!(m.set(0, 1, false), Ok(()));
    assert_eq!(cells(&m), bits(vec![vec![0, 0], vec![0, 0]]));
}

#[test]
fn close_transitive_matches_make_transitive() {
    let m = mat(vec![vec![0, 1, 0, 0], vec![0, 0, 0, 1], vec![1, 0, 0, 0], vec![0, 0, 1, 0]]);
    let copy = m.make_transitive();
    let mut in_place = mat(vec![vec![0, 1, 0, 0], vec![0, 0, 0, 1], vec![1, 0, 0, 0], vec![0, 0, 1, 0]]);
    in_place.close_transitive();
    assert_eq!(cells(&in_place), cells(&copy));
    assert_eq!(cells(&copy), vec![vec![true; 4]; 4]);
}

#[test]
fn asymmetric_is_antisymmetric_and_irreflexive() {
    for m in samples() {
        assert_eq!(m.is_asymmetric(), m.is_antisymmetric() && m.is_irreflexive());
    }
}

#[test]
fn equivalence_is_reflexive_symmetric_transitive() {
    let mut all = samples();
    all.push(mat(vec![vec![1, 0, 0, 0], vec![0, 1, 1, 0], vec![0, 1, 1, 0], vec![0, 0, 0, 1]]));
    for m in all {
        assert_eq!(m.is_equivalence(), m.is_reflexive() && m.is_symmetric() && m.is_transitive());
    }
}

#[test]
fn closures_are_idempotent() {
    for m in samples() {
        let r = m.make_reflexive();
        assert_eq!(cells(&r.make_reflexive()), cells(&r));
        let s = m.make_symmetric();
        assert_eq!(cells(&s.make_symmetric()), cells(&s));
        let t = m.make_transitive();
        assert_eq!(cells(&t.make_transitive()), cells(&t));
    }
}

#[test]
fn transitive_closure_is_transitive_and_keeps_pairs() {
    for m in samples() {
        let t = m.make_transitive();
        assert!(t.is_transitive());
        let (before, after) = (cells(&m), cells(&t));
        for i in 0..m.size() {
            for j in 0..m.size() {
                assert!(!before[i][j] || after[i][j]);
            }
        }
    }
}

#[test]
fn transitive_exactly_when_equal_to_closure() {
    let mut all = samples();
    all.push(mat(vec![vec![1, 1, 1, 1], vec![0, 1, 0, 0], vec![0, 1, 1, 1], vec![0, 0, 0, 0]]));
    for m in all {
        assert_eq!(m.is_transitive(), cells(&m) == cells(&m.make_transitive()));
    }
}

#[test]
fn random_matrix_has_requested_size_and_is_reproducible() {
    let a = Matrix::new_random(40, &mut fastrand::Rng::with_seed(3));
    let b = Matrix::new_random(40, &mut fastrand::Rng::with_seed(3));
    assert_eq!(a.size(), 40);
    assert_eq!(cells(&a), cells(&b));
    let ones = cells(&a).iter().flatten().filter(|x| **x).count();
    assert!(ones > 0 && ones < 40 * 40);
}

#[test]
fn parallel_and_sequential_agree_on_large_random_matrices() {
    let mut rng = fastrand::Rng::with_seed(2024);
    let big = Matrix::new_random(2000, &mut rng);
    assert_eq!(big.is_transitive(), big.is_transitive_sequential());

    let n = 200;
    let mut sparse = Matrix::new(vec![vec![0; n]; n]).unwrap();
    for i in 0..n {
        let j = rng.usize(0..n);
        sparse.set(i, j, true).unwrap();
    }
    let par = sparse.make_transitive();
    let seq = sparse.make_transitive_sequential();
    assert_eq!(cells(&par), cells(&seq));
    assert!(par.is_transitive());
    assert!(par.is_transitive_sequential());
}
