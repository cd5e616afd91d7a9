use npuzzle_lib::heuristics::evaluate;
use npuzzle_lib::types::{Atom, HeuristicKind};

#[test]
fn dist() {
    assert_eq!(npuzzle_lib::heuristics::dist((3, 3), (5, 5)), 4);
    assert_eq!(npuzzle_lib::heuristics::dist((5, 5), (3, 3)), 4);
    assert_eq!(npuzzle_lib::heuristics::dist((1, 1), (1, 1)), 0);
}

#[test]
fn hamming() {
    let a: Vec<Atom> = vec![1, 2, 3, 4, 5, 6, 7, 8, 0];
    let b: Vec<Atom> = vec![8, 3, 1, 4, 7, 2, 5, 0, 6];

    let expected = 8;

    assert_eq!(npuzzle_lib::heuristics::hamming(&a, &b, 3), expected);
    assert_eq!(npuzzle_lib::heuristics::hamming(&b, &a, 3), expected);
}

#[test]
fn hamming_identity() {
    let a: Vec<Atom> = vec![1, 2, 3, 4, 5, 6, 7, 8, 0];
    let b: Vec<Atom> = vec![1, 2, 3, 4, 5, 6, 7, 8, 0];

    let expected = 0;

    assert_eq!(npuzzle_lib::heuristics::hamming(&a, &b, 3), expected);
    assert_eq!(npuzzle_lib::heuristics::hamming(&b, &a, 3), expected);
}

#[test]
fn manhattan() {
    let a: Vec<Atom> = vec![1, 2, 3, 4, 5, 6, 7, 8, 0];
    let b: Vec<Atom> = vec![8, 3, 1, 4, 7, 2, 5, 0, 6];

    let expected = 14;

    assert_eq!(npuzzle_lib::heuristics::manhattan(&a, &b, 3), expected);
    assert_eq!(npuzzle_lib::heuristics::manhattan(&b, &a, 3), expected);
}

#[test]
fn manhattan_identity() {
    let a: Vec<Atom> = vec![1, 2, 3, 4, 5, 6, 7, 8, 0];
    let b: Vec<Atom> = vec![1, 2, 3, 4, 5, 6, 7, 8, 0];

    let expected = 0;

    assert_eq!(npuzzle_lib::heuristics::manhattan(&a, &b, 3), expected);
    assert_eq!(npuzzle_lib::heuristics::manhattan(&b, &a, 3), expected);
}

#[test]
fn linear_conflicts() {
    let a: Vec<Atom> = vec![1, 2, 3, 4, 5, 6, 7, 8, 0];
    let b: Vec<Atom> = vec![8, 3, 1, 4, 7, 2, 5, 0, 6];

    let expected = 15;

    assert_eq!(npuzzle_lib::heuristics::linear_conflicts(&a, &b, 3), expected);
    assert_eq!(npuzzle_lib::heuristics::linear_conflicts(&b, &a, 3), expected);
}

#[test]
fn linear_conflicts_x() {
    let a: Vec<Atom> = vec![1, 2, 3, 4, 5, 6, 7, 8, 0];
    let b: Vec<Atom> = vec![3, 2, 1, 4, 5, 6, 7, 8, 0];

    let expected = 7;

    assert_eq!(npuzzle_lib::heuristics::linear_conflicts(&a, &b, 3), expected);
    assert_eq!(npuzzle_lib::heuristics::linear_conflicts(&b, &a, 3), expected);
}

#[test]
fn linear_conflicts_y() {
    let a: Vec<Atom> = vec![1, 2, 3, 4, 5, 6, 7, 8, 0];
    let b: Vec<Atom> = vec![7, 2, 3, 4, 5, 6, 1, 8, 0];

    let expected = 7;

    assert_eq!(npuzzle_lib::heuristics::linear_conflicts(&a, &b, 3), expected);
    assert_eq!(npuzzle_lib::heuristics::linear_conflicts(&b, &a, 3), expected);
}

#[test]
fn linear_conflicts_identity() {
    let a: Vec<Atom> = vec![1, 2, 3, 4, 5, 6, 7, 8, 0];
    let b: Vec<Atom> = vec![1, 2, 3, 4, 5, 6, 7, 8, 0];

    let expected = 0;

    assert_eq!(npuzzle_lib::heuristics::linear_conflicts(&a, &b, 3), expected);
    assert_eq!(npuzzle_lib::heuristics::linear_conflicts(&b, &a, 3), expected);
}

#[test]
fn manhattan_never_exceeds_linear_conflicts() {
    let a: Vec<Atom> = vec![1, 2, 3, 4, 5, 6, 7, 8, 0];
    let cases: Vec<Vec<Atom>> = vec![
        vec![8, 3, 1, 4, 7, 2, 5, 0, 6],
        vec![3, 2, 1, 4, 5, 6, 7, 8, 0],
        vec![7, 2, 3, 4, 5, 6, 1, 8, 0],
        vec![1, 2, 3, 4, 5, 6, 7, 8, 0],
    ];
    for b in &cases {
        assert!(
            npuzzle_lib::heuristics::manhattan(&a, b, 3)
                <= npuzzle_lib::heuristics::linear_conflicts(&a, b, 3)
        );
    }
}

#[test]
fn every_heuristic_scores_zero_only_on_itself() {
    let a: Vec<Atom> = vec![2, 1, 3, 4, 5, 6, 7, 8, 0];
    let b: Vec<Atom> = vec![1, 2, 3, 4, 5, 6, 7, 8, 0];
    for kind in [
        HeuristicKind::Hamming,
        HeuristicKind::Manhattan,
        HeuristicKind::LinearConflicts,
    ] {
        assert_eq!(evaluate(kind, &a, &a, 3), 0);
        assert!(evaluate(kind, &a, &b, 3) > 0);
    }
}

#[test]
fn evaluate_matches_each_heuristic() {
    let a: Vec<Atom> = vec![1, 2, 3, 4, 5, 6, 7, 8, 0];
    let b: Vec<Atom> = vec![8, 3, 1, 4, 7, 2, 5, 0, 6];

    assert_eq!(
        evaluate(HeuristicKind::Hamming, &a, &b, 3),
        npuzzle_lib::heuristics::hamming(&a, &b, 3)
    );
    assert_eq!(
        evaluate(HeuristicKind::Manhattan, &a, &b, 3),
        npuzzle_lib::heuristics::manhattan(&a, &b, 3)
    );
    assert_eq!(
        evaluate(HeuristicKind::LinearConflicts, &a, &b, 3),
        npuzzle_lib::heuristics::linear_conflicts(&a, &b, 3)
    );
}
