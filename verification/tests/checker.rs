use npuzzle_lib::checker::is_solvable;
use npuzzle_lib::types::Puzzle;

#[test]
fn inversions() {
    let v: Puzzle = vec![4, 3, 2, 1];

    assert_eq!(npuzzle_lib::checker::inversions(&v), 6);
}

#[test]
fn inversions_ignore_zero() {
    let v: Puzzle = vec![3, 2, 1, 0];

    assert_eq!(npuzzle_lib::checker::inversions(&v), 3);
}

#[test]
fn inversions_none() {
    let v: Puzzle = vec![1, 2, 3, 4];

    assert_eq!(npuzzle_lib::checker::inversions(&v), 0);
}

#[test]
fn inversions_single_cell() {
    let v: Puzzle = vec![0];

    assert_eq!(npuzzle_lib::checker::inversions(&v), 0);
}

#[test]
fn is_solvable_inverted() {
    let a: Puzzle = vec![1, 2, 3, 4, 5, 6, 7, 8, 0];
    let b: Puzzle = vec![1, 3, 2, 4, 5, 6, 7, 8, 0];

    assert!(!is_solvable(&a, &b, 3));
    assert!(!is_solvable(&b, &a, 3));
}

#[test]
fn is_solvable_identity() {
    let a: Puzzle = vec![1, 2, 3, 4, 5, 6, 7, 8, 0];
    let b: Puzzle = vec![1, 2, 3, 4, 5, 6, 7, 8, 0];

    assert!(is_solvable(&a, &b, 3));
    assert!(is_solvable(&b, &a, 3));
}

#[test]
fn is_solvable_4x4() {
    let a: Puzzle = vec![1, 2, 3, 4, 5, 6, 7, 8, 9, 10, 11, 12, 13, 14, 15, 0];
    let b: Puzzle = vec![1, 2, 3, 4, 5, 6, 7, 8, 9, 10, 11, 12, 13, 14, 0, 15];

    assert!(is_solvable(&a, &b, 3));
    assert!(is_solvable(&b, &a, 3));
}

#[test]
fn is_solvable_4x4_identity() {
    let a: Puzzle = vec![1, 2, 3, 4, 5, 6, 7, 8, 9, 10, 11, 12, 13, 14, 15, 0];
    let b: Puzzle = vec![1, 2, 3, 4, 5, 6, 7, 8, 9, 10, 11, 12, 13, 14, 15, 0];

    assert!(is_solvable(&a, &b, 3));
    assert!(is_solvable(&b, &a, 3));
}

#[test]
fn is_solvable_even_size_uses_blank_row() {
    let a: Puzzle = vec![1, 2, 3, 4, 5, 6, 7, 8, 9, 10, 11, 0, 13, 14, 15, 12];
    let b: Puzzle = vec![1, 2, 3, 4, 5, 6, 7, 8, 9, 10, 11, 12, 13, 14, 15, 0];

    assert!(is_solvable(&a, &b, 4));
    assert!(is_solvable(&b, &a, 4));
}

#[test]
fn classic_and_snail_goals_disagree_in_parity() {
    let a = npuzzle_lib::generator::classic(3);
    let b = npuzzle_lib::generator::snail(3);

    assert!(!is_solvable(&a, &b, 3));
}
