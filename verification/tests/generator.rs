use npuzzle_lib::generator::{classic, generate_valid_puzzle, snail};
use npuzzle_lib::types::ParsedPuzzle;

#[test]
fn classic_3x3() {
    let v = classic(3);
    let expected = vec![1, 2, 3, 4, 5, 6, 7, 8, 0];

    assert_eq!(v, expected);
}

#[test]
fn classic_4x4() {
    let v = classic(4);
    let expected = vec![1, 2, 3, 4, 5, 6, 7, 8, 9, 10, 11, 12, 13, 14, 15, 0];

    assert_eq!(v, expected);
}

#[test]
fn snail_3x3() {
    let v = snail(3);
    let expected = vec![1, 2, 3, 8, 0, 4, 7, 6, 5];

    assert_eq!(v, expected);
}

#[test]
fn snail_4x4() {
    let v = snail(4);
    let expected = vec![1, 2, 3, 4, 12, 13, 14, 5, 11, 0, 15, 6, 10, 9, 8, 7];

    assert_eq!(v, expected);
}

#[test]
fn snail_1x1() {
    assert_eq!(snail(1), vec![0]);
}

#[test]
fn scrambling_keeps_the_grid_a_reachable_permutation() {
    let goal = snail(3);
    let seed = ParsedPuzzle {
        container: goal.clone(),
        size: 3,
    };
    let shuffled = generate_valid_puzzle(&seed, 40);

    assert_eq!(shuffled.size, 3);
    assert_eq!(shuffled.container.len(), 9);
    let mut values = shuffled.container.clone();
    values.sort();
    assert_eq!(values, vec![0, 1, 2, 3, 4, 5, 6, 7, 8]);
    assert!(npuzzle_lib::checker::is_solvable(
        &shuffled.container,
        &goal,
        3
    ));
}

#[test]
fn scrambling_zero_iterations_changes_nothing() {
    let seed = ParsedPuzzle {
        container: classic(4),
        size: 4,
    };
    let out = generate_valid_puzzle(&seed, 0);

    assert_eq!(out.container, classic(4));
    assert_eq!(out.size, 4);
}
