use color_sort_solver::container::{Container, ContainerConstraint};
use color_sort_solver::errors::PuzzleError;
use color_sort_solver::state::State;
use color_sort_solver::transition::Transition;

fn plain(content: Vec<usize>, capacity: usize) -> Container {
    Container::new(content, ContainerConstraint::Unconstrained, capacity).unwrap()
}

fn tagged(content: Vec<usize>, constraint: ContainerConstraint, capacity: usize) -> Container {
    Container::new(content, constraint, capacity).unwrap()
}

#[test]
fn new_appends_two_scratch_containers() {
    let s = State::new(vec![plain(vec![1, 1], 2)], 2).unwrap();
    assert_eq!(s.containers.len(), 3);
    assert!(s.containers[1].is_empty());
    assert!(s.containers[2].is_empty());
    assert!(!s.containers[1].must_fill());
    assert!(!s.containers[1].must_empty());
    assert_eq!(s.transitions().len(), 0);
}

#[test]
fn new_rejects_three_must_empty_containers() {
    let r = State::new(
        vec![
            tagged(vec![1], ContainerConstraint::MustEmpty, 2),
            tagged(vec![1], ContainerConstraint::MustEmpty, 2),
            tagged(vec![], ContainerConstraint::MustEmpty, 2),
        ],
        2,
    );
    assert!(matches!(r, Err(PuzzleError::TooManyMustEmpty)));
}

#[test]
fn new_accepts_two_must_empty_containers() {
    let r = State::new(
        vec![
            tagged(vec![1, 1], ContainerConstraint::MustEmpty, 2),
            tagged(vec![], ContainerConstraint::MustEmpty, 2),
        ],
        2,
    );
    assert!(r.is_ok());
}

#[test]
fn counts_on_a_mixed_state() {
    let s = State::new(
        vec![
            plain(vec![1, 1], 2),   // sorted
            plain(vec![1, 2], 2),   // mixed
            plain(vec![], 2),       // empty
        ],
        2,
    )
    .unwrap();
    // Two scratch containers are appended, so three containers are empty.
    assert_eq!(s.sorted_count(), 1);
    assert_eq!(s.empty_count(), 3);
    assert_eq!(s.must_fill_count(), 0);
    assert_eq!(s.must_empty_count(), 0);
}

#[test]
fn solved_iff_counts_and_constraints_agree() {
    // Every container empty or sorted, no constraints: solved, and the
    // counts cover all containers.
    let a = State::new(vec![plain(vec![1, 1], 2)], 2).unwrap();
    assert!(a.is_solved());
    assert_eq!(
        a.empty_count() + a.sorted_count(),
        a.containers.len()
    );

    // One container neither empty nor sorted: not solved.
    let b = State::new(vec![plain(vec![1, 2], 2), plain(vec![2, 1], 2)], 2).unwrap();
    assert!(!b.is_solved());
    assert!(b.empty_count() + b.sorted_count() < b.containers.len());

    // A must-fill container that is empty blocks solved status.
    let c = State::new(vec![tagged(vec![], ContainerConstraint::MustFill, 2)], 2).unwrap();
    assert_eq!(c.empty_count() + c.sorted_count(), c.containers.len());
    assert!(!c.is_solved());

    // A must-empty container that is non-empty blocks solved status.
    let d = State::new(vec![tagged(vec![1, 1], ContainerConstraint::MustEmpty, 2)], 2).unwrap();
    assert_eq!(d.empty_count() + d.sorted_count(), d.containers.len());
    assert!(!d.is_solved());
}

#[test]
fn score_of_initial_state() {
    // One sorted, one mixed container plus two scratch empties: one
    // container is neither empty nor sorted and no moves were taken, so
    // the heuristic distance is 1.
    let s = State::new(vec![plain(vec![1, 1], 2), plain(vec![1, 2], 2)], 2).unwrap();
    let optimal = s.get_score(true);
    assert_eq!(optimal.primary, -1);
    assert_eq!(optimal.secondary, 0);
    assert_eq!(optimal.tertiary, 0);
    assert_eq!(optimal.quaternary, 0);
    let fast = s.get_score(false);
    assert_eq!(fast.primary, 1);
    assert_eq!(fast.secondary, -1);
    assert_eq!(fast.tertiary, 0);
    assert_eq!(fast.quaternary, 0);
}

#[test]
fn possible_transitions_are_exactly_the_legal_pours() {
    let s = State::new(vec![plain(vec![1, 2], 2), plain(vec![2, 1], 2)], 2).unwrap();
    let moves = s.get_possible_transitions();
    let pairs: Vec<(usize, usize)> = moves.iter().map(|t| (t.pour_from(), t.pour_into())).collect();
    // Mixed containers can pour onto the two scratch empties only: the
    // tops (2 and 1) do not match each other.
    assert_eq!(pairs, vec![(0, 2), (0, 3), (1, 2), (1, 3)]);
}

#[test]
fn apply_transition_pours_and_records_history() {
    let s = State::new(vec![plain(vec![1, 2], 2), plain(vec![2, 1], 2)], 2).unwrap();
    let next = s.apply_transition(Transition::new(0, 2));
    assert_eq!(next.containers[0].content, vec![1]);
    assert_eq!(next.containers[2].content, vec![2]);
    assert_eq!(next.transitions().len(), 1);
    assert_eq!(next.transitions()[0].pour_from(), 0);
    assert_eq!(next.transitions()[0].pour_into(), 2);
    // The state the move was applied to is untouched.
    assert_eq!(s.containers[0].content, vec![1, 2]);
    assert_eq!(s.transitions().len(), 0);
}

#[test]
fn possible_states_match_possible_transitions() {
    let s = State::new(vec![plain(vec![1, 2], 2), plain(vec![2, 1], 2)], 2).unwrap();
    let moves = s.get_possible_transitions();
    let states = s.get_possible_states();
    assert_eq!(moves.len(), states.len());
    for st in states.iter() {
        assert_eq!(st.transitions().len(), 1);
    }
}

#[test]
fn canonical_key_ignores_container_order() {
    let a = State::new(vec![plain(vec![1, 2], 2), plain(vec![2, 1], 2)], 2).unwrap();
    let b = State::new(vec![plain(vec![2, 1], 2), plain(vec![1, 2], 2)], 2).unwrap();
    assert_eq!(a.canonical_key(), b.canonical_key());
}

#[test]
fn canonical_key_changes_with_content() {
    let a = State::new(vec![plain(vec![1, 2], 2), plain(vec![2, 1], 2)], 2).unwrap();
    let c = State::new(vec![plain(vec![1, 1], 2), plain(vec![2, 1], 2)], 2).unwrap();
    assert_ne!(a.canonical_key(), c.canonical_key());
}

#[test]
fn canonical_key_is_sorted() {
    // Each container is encoded as capacity, constraint tag (2 stands
    // for unconstrained), then content; the key sorts the encodings.
    let s = State::new(vec![plain(vec![2, 1], 2), plain(vec![1], 2)], 2).unwrap();
    let key = s.canonical_key();
    assert_eq!(
        key,
        vec![vec![2, 2], vec![2, 2], vec![2, 2, 1], vec![2, 2, 2, 1]]
    );
}

#[test]
fn canonical_key_distinguishes_constraints() {
    let a = State::new(vec![plain(vec![1, 1], 2)], 2).unwrap();
    let b = State::new(vec![tagged(vec![1, 1], ContainerConstraint::MustEmpty, 2)], 2).unwrap();
    assert_ne!(a.canonical_key(), b.canonical_key());
}
