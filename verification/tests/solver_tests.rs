use color_sort_solver::container::{Container, ContainerConstraint};
use color_sort_solver::solver::SolveOutcome;
use color_sort_solver::state::State;
use color_sort_solver::with_score::{score_less, Score, WithScore};

fn stack(content: Vec<usize>, capacity: usize) -> Container {
    Container::new(content, ContainerConstraint::Unconstrained, capacity).unwrap()
}

#[test]
fn already_sorted_puzzle_is_solved_with_zero_moves() {
    // One container [R,R] of capacity 2, plus the two scratch empties
    // appended by construction: solved from the start.
    let s = State::new(vec![stack(vec![1, 1], 2)], 2).unwrap();
    assert!(s.is_solved());
    let solved = s.solve(true).unwrap();
    assert_eq!(solved.transitions().len(), 0);
}

#[test]
fn two_mixed_containers_are_solved_within_four_moves() {
    // Containers [R,G] and [G,R] of capacity 2 plus two scratch empties.
    let s = State::new(vec![stack(vec![1, 2], 2), stack(vec![2, 1], 2)], 2).unwrap();
    assert!(!s.is_solved());
    let solved = s.solve(true).unwrap();
    let moves = solved.transitions().len();
    assert!(moves >= 1);
    assert!(moves <= 4);
    assert!(solved.is_solved());
    // The result holds one [R,R] container, one [G,G], the rest empty.
    let mut reds = 0;
    let mut greens = 0;
    let mut empties = 0;
    for c in solved.containers.iter() {
        if c.content == vec![1, 1] {
            reds += 1;
        } else if c.content == vec![2, 2] {
            greens += 1;
        } else if c.content.is_empty() {
            empties += 1;
        }
    }
    assert_eq!(reds, 1);
    assert_eq!(greens, 1);
    assert_eq!(empties, solved.containers.len() - 2);
}

#[test]
fn replaying_the_returned_moves_reaches_the_solved_state() {
    let s = State::new(vec![stack(vec![1, 2], 2), stack(vec![2, 1], 2)], 2).unwrap();
    let solved = s.solve(true).unwrap();
    let mut replayed = s;
    for t in solved.transitions().iter() {
        replayed = replayed.apply_transition(*t);
    }
    for (a, b) in replayed.containers.iter().zip(solved.containers.iter()) {
        assert_eq!(a.content, b.content);
    }
    assert!(replayed.is_solved());
}

#[test]
fn unsatisfiable_must_empty_yields_no_solution() {
    // A must-empty container holding a sorted full stack can never pour
    // (a sorted container is no legal source), so it never empties and no
    // legal move sequence solves the puzzle.
    let c = Container::new(vec![1, 1], ContainerConstraint::MustEmpty, 2).unwrap();
    let s = State::new(vec![c], 2).unwrap();
    assert!(s.solve(true).is_none());
    let c2 = Container::new(vec![1, 1], ContainerConstraint::MustEmpty, 2).unwrap();
    let s2 = State::new(vec![c2], 2).unwrap();
    assert!(s2.solve(false).is_none());
}

#[test]
fn optimal_mode_needs_no_more_moves_than_fast_mode() {
    let a = State::new(vec![stack(vec![1, 2], 2), stack(vec![2, 1], 2)], 2).unwrap();
    let optimal = a.solve(true).unwrap().transitions().len();
    let b = State::new(vec![stack(vec![1, 2], 2), stack(vec![2, 1], 2)], 2).unwrap();
    let fast = b.solve(false).unwrap().transitions().len();
    assert!(optimal <= fast);
}

#[test]
fn must_fill_constraint_directs_the_solution() {
    // A must-fill container must end sorted: pouring the second red unit
    // into it is the only way to solve.  The solved state and its
    // content-identical twin with the full stack elsewhere carry
    // different canonical keys, so deduplication cannot confuse them.
    let tagged = Container::new(vec![1], ContainerConstraint::MustFill, 2).unwrap();
    let s = State::new(vec![tagged, stack(vec![1], 2)], 2).unwrap();
    let solved = s.solve(true).unwrap();
    assert!(solved.is_solved());
    assert_eq!(solved.containers[0].content, vec![1, 1]);
}

#[test]
fn constraint_twins_are_not_conflated() {
    // Pouring (0, 1) first reaches a dead state whose contents match the
    // solved sibling reached by pouring (1, 0); only the must-empty tag
    // tells them apart, and the search still finds the solution.
    let plain = Container::new(vec![1], ContainerConstraint::Unconstrained, 2).unwrap();
    let tagged = Container::new(vec![1], ContainerConstraint::MustEmpty, 2).unwrap();
    let s = State::new(vec![plain, tagged], 2).unwrap();
    let solved = s.solve(true).unwrap();
    assert!(solved.is_solved());
    assert_eq!(solved.containers[0].content, vec![1, 1]);
    assert!(solved.containers[1].content.is_empty());
}

#[test]
fn empty_must_fill_container_blocks_the_solution() {
    // A must-fill container that stays empty can never be part of a
    // solved state, and with no units to pour there is no legal move.
    let tagged = Container::new(vec![], ContainerConstraint::MustFill, 2).unwrap();
    let s = State::new(vec![tagged], 2).unwrap();
    assert!(!s.is_solved());
    assert!(s.solve(true).is_none());
}

#[test]
fn satisfied_must_fill_container_is_accepted() {
    let tagged = Container::new(vec![1, 1], ContainerConstraint::MustFill, 2).unwrap();
    let s = State::new(vec![tagged], 2).unwrap();
    assert!(s.is_solved());
    assert!(s.solve(true).is_some());
}

#[test]
fn zero_step_limit_is_reported_as_limit_reached() {
    let s = State::new(vec![stack(vec![1, 2], 2), stack(vec![2, 1], 2)], 2).unwrap();
    assert!(matches!(s.solve_bounded(true, 0), SolveOutcome::LimitReached));
}

#[test]
fn exhausted_search_is_distinguished_from_limit() {
    let c = Container::new(vec![1, 1], ContainerConstraint::MustEmpty, 2).unwrap();
    let s = State::new(vec![c], 2).unwrap();
    assert!(matches!(s.solve_bounded(true, 1000), SolveOutcome::Exhausted));
}

#[test]
fn scores_compare_lexicographically() {
    let low = Score { primary: -3, secondary: 9, tertiary: 9, quaternary: 9 };
    let high = Score { primary: -2, secondary: 0, tertiary: 0, quaternary: 0 };
    assert!(score_less(&low, &high));
    assert!(!score_less(&high, &low));
    let tie_a = Score { primary: 1, secondary: 2, tertiary: 3, quaternary: 4 };
    let tie_b = Score { primary: 1, secondary: 2, tertiary: 3, quaternary: 5 };
    assert!(score_less(&tie_a, &tie_b));
    assert!(!score_less(&tie_a, &tie_a));
}

#[test]
fn with_score_wraps_a_value_and_its_key() {
    let e = WithScore::new(7usize, Score { primary: 1, secondary: 0, tertiary: 0, quaternary: 0 });
    assert_eq!(*e.value(), 7);
    assert_eq!(e.score.primary, 1);
}
