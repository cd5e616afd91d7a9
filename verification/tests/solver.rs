use npuzzle_lib::generator::snail;
use npuzzle_lib::solver::{astar, neighbors};
use npuzzle_lib::types::{Atom, HeuristicKind, Problem, Puzzle};

fn differing_positions(a: &Puzzle, b: &Puzzle) -> usize {
    a.iter().zip(b.iter()).filter(|(x, y)| x != y).count()
}

#[test]
fn neighbors_of_the_center() {
    let grid: Puzzle = vec![1, 2, 3, 4, 0, 5, 6, 7, 8];
    let result = neighbors(&grid, 4, 3);

    assert_eq!(result.len(), 4);
    for (nbr, pos) in &result {
        assert_eq!(differing_positions(&grid, nbr), 2);
        assert_eq!(nbr[*pos as usize], 0);
    }
}

#[test]
fn neighbors_of_a_corner() {
    let grid: Puzzle = vec![0, 1, 2, 3, 4, 5, 6, 7, 8];
    let result = neighbors(&grid, 0, 3);

    assert_eq!(result.len(), 2);
    let moved: Vec<Atom> = result.iter().map(|(_, p)| *p).collect();
    assert_eq!(moved, vec![1, 3]);
    for (nbr, _) in &result {
        assert_eq!(differing_positions(&grid, nbr), 2);
    }
}

#[test]
fn neighbors_of_an_edge() {
    let grid: Puzzle = vec![1, 0, 2, 3, 4, 5, 6, 7, 8];
    let result = neighbors(&grid, 1, 3);

    assert_eq!(result.len(), 3);
}

fn problem(start: Puzzle, end: Puzzle, heuristic: HeuristicKind) -> Problem {
    Problem {
        start,
        end,
        size: 3,
        heuristic,
        g_weight: 1,
        h_weight: 1,
    }
}

#[test]
fn astar_solves_a_single_slide() {
    for kind in [HeuristicKind::Manhattan, HeuristicKind::LinearConflicts] {
        let p = problem(
            vec![1, 2, 3, 4, 5, 6, 7, 0, 8],
            vec![1, 2, 3, 4, 5, 6, 7, 8, 0],
            kind,
        );
        let s = astar(&p);
        assert_eq!(s.path.len(), 2);
        assert_eq!(s.path[0], p.start);
        assert_eq!(s.path[1], p.end);
        assert!(s.closed_states <= s.opened_states);
    }
}

#[test]
fn astar_on_a_trivial_instance() {
    let p = problem(
        vec![1, 2, 3, 4, 5, 6, 7, 8, 0],
        vec![1, 2, 3, 4, 5, 6, 7, 8, 0],
        HeuristicKind::Hamming,
    );
    let s = astar(&p);
    assert_eq!(s.path.len(), 1);
    assert_eq!(s.path[0], p.start);
}

#[test]
fn astar_finds_the_known_optimal_path() {
    // eight slides separate this start from the spiral goal
    let start: Puzzle = vec![1, 2, 3, 4, 5, 6, 8, 7, 0];
    let goal = snail(3);
    assert!(npuzzle_lib::checker::is_solvable(&start, &goal, 3));

    for kind in [HeuristicKind::Manhattan, HeuristicKind::LinearConflicts] {
        let p = problem(start.clone(), goal.clone(), kind);
        let s = astar(&p);
        assert!(!s.path.is_empty());
        assert_eq!(s.path.len() - 1, 8);
        assert_eq!(s.path[0], start);
        assert_eq!(s.path[s.path.len() - 1], goal);
        assert!(s.closed_states <= s.opened_states);
        for w in s.path.windows(2) {
            assert_eq!(differing_positions(&w[0], &w[1]), 2);
        }
    }
}

#[test]
fn astar_longer_scramble_stays_optimal() {
    // eighteen slides separate this start from the spiral goal
    let start: Puzzle = vec![2, 1, 3, 4, 5, 6, 7, 8, 0];
    let goal = snail(3);
    let p = problem(start, goal, HeuristicKind::LinearConflicts);
    let s = astar(&p);
    assert_eq!(s.path.len() - 1, 18);
}

#[test]
fn astar_is_deterministic() {
    let p = problem(
        vec![1, 2, 3, 4, 5, 6, 8, 7, 0],
        snail(3),
        HeuristicKind::Manhattan,
    );
    let s1 = astar(&p);
    let s2 = astar(&p);
    assert_eq!(s1.path, s2.path);
    assert_eq!(s1.max_states, s2.max_states);
    assert_eq!(s1.opened_states, s2.opened_states);
    assert_eq!(s1.current_open_states, s2.current_open_states);
    assert_eq!(s1.closed_states, s2.closed_states);
}

#[test]
fn astar_weight_regimes_still_reach_the_goal() {
    let start: Puzzle = vec![1, 2, 3, 4, 5, 6, 8, 7, 0];
    let goal = snail(3);
    // greedy: ignore path cost
    let mut p = problem(start.clone(), goal.clone(), HeuristicKind::Manhattan);
    p.g_weight = 0;
    let s = astar(&p);
    assert!(!s.path.is_empty());
    assert_eq!(s.path[s.path.len() - 1], goal);
    // uniform: ignore the heuristic
    let mut q = problem(start, goal.clone(), HeuristicKind::Manhattan);
    q.h_weight = 0;
    let t = astar(&q);
    assert!(!t.path.is_empty());
    assert_eq!(t.path.len() - 1, 8);
}

#[test]
fn astar_exhausts_on_an_unreachable_instance() {
    let p = Problem {
        start: vec![1, 2, 3, 0],
        end: vec![2, 1, 3, 0],
        size: 2,
        heuristic: HeuristicKind::Manhattan,
        g_weight: 1,
        h_weight: 1,
    };
    assert!(!npuzzle_lib::checker::is_solvable(&p.start, &p.end, 2));
    let s = astar(&p);
    assert!(s.path.is_empty());
    assert!(s.closed_states >= 1);
    assert_eq!(s.opened_states, s.max_states);
}

#[test]
fn astar_statistics_are_consistent() {
    let p = problem(
        vec![1, 2, 3, 4, 5, 6, 8, 7, 0],
        snail(3),
        HeuristicKind::Hamming,
    );
    let s = astar(&p);
    assert_eq!(s.max_states, s.closed_states + s.current_open_states);
    assert_eq!(s.opened_states, s.max_states);
    assert!(s.closed_states >= 1);
}
