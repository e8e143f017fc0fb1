use color_sort_solver::container::{Container, ContainerConstraint};
use color_sort_solver::errors::PuzzleError;

fn unconstrained(content: Vec<usize>, capacity: usize) -> Container {
    Container::new(content, ContainerConstraint::Unconstrained, capacity).unwrap()
}

#[test]
fn new_rejects_oversized_content() {
    let r = Container::new(vec![1, 1, 1], ContainerConstraint::Unconstrained, 2);
    assert!(matches!(r, Err(PuzzleError::ContentExceedsCapacity)));
}

#[test]
fn new_accepts_content_at_capacity() {
    let c = unconstrained(vec![1, 2], 2);
    assert!(c.is_full());
    assert!(!c.is_empty());
}

#[test]
fn error_messages_are_descriptive() {
    assert_eq!(
        PuzzleError::ContentExceedsCapacity.message(),
        "content size exceeds capacity"
    );
    assert_eq!(
        PuzzleError::TooManyMustEmpty.message(),
        "more than two containers are tagged must-empty"
    );
}

#[test]
fn peek_returns_top_color() {
    let c = unconstrained(vec![1, 2], 3);
    assert_eq!(c.peek(), Some(2));
    let e = unconstrained(vec![], 3);
    assert_eq!(e.peek(), None);
}

#[test]
fn same_color_and_sorted() {
    let mono = unconstrained(vec![3, 3], 2);
    assert!(mono.is_same_color());
    assert!(mono.is_sorted());
    let mixed = unconstrained(vec![3, 4], 2);
    assert!(!mixed.is_same_color());
    assert!(!mixed.is_sorted());
    let partial = unconstrained(vec![3], 2);
    assert!(partial.is_same_color());
    assert!(!partial.is_sorted());
}

#[test]
fn constraint_predicates() {
    let f = Container::new(vec![], ContainerConstraint::MustFill, 2).unwrap();
    assert!(f.must_fill());
    assert!(!f.must_empty());
    let e = Container::new(vec![], ContainerConstraint::MustEmpty, 2).unwrap();
    assert!(e.must_empty());
    assert!(!e.must_fill());
    let u = unconstrained(vec![], 2);
    assert!(!u.must_fill());
    assert!(!u.must_empty());
}

#[test]
fn can_pour_rules() {
    let empty = unconstrained(vec![], 2);
    let mixed = unconstrained(vec![1, 2], 2);
    let sorted = unconstrained(vec![1, 1], 2);
    let top_two = unconstrained(vec![2], 2);
    let top_one = unconstrained(vec![1], 2);

    // An empty source never pours.
    assert!(!empty.can_pour_into(&top_one));
    // A sorted source never pours.
    assert!(!sorted.can_pour_into(&empty));
    // A full destination never receives.
    assert!(!top_one.can_pour_into(&mixed));
    // An empty destination always receives.
    assert!(mixed.can_pour_into(&empty));
    // Otherwise the top colors must match.
    assert!(mixed.can_pour_into(&top_two));
    assert!(!mixed.can_pour_into(&top_one));
}

#[test]
fn pour_moves_entire_top_run() {
    // Source [R,G,G] (top = G) into an empty destination of capacity 3:
    // the whole top run of G moves in one call.
    let mut src = unconstrained(vec![1, 2, 2], 3);
    let mut dst = unconstrained(vec![], 3);
    assert!(src.can_pour_into(&dst));
    src.pour_into(&mut dst);
    assert_eq!(src.content, vec![1]);
    assert_eq!(dst.content, vec![2, 2]);
    // Pouring again is illegal: the tops no longer match.
    assert!(!src.can_pour_into(&dst));
}

#[test]
fn pour_is_bounded_by_destination_room() {
    // Source [R,G,G] into [G,G] of capacity 3: only one unit fits.
    let mut src = unconstrained(vec![1, 2, 2], 3);
    let mut dst = unconstrained(vec![2, 2], 3);
    assert!(src.can_pour_into(&dst));
    src.pour_into(&mut dst);
    assert_eq!(src.content, vec![1, 2]);
    assert_eq!(dst.content, vec![2, 2, 2]);
}

#[test]
fn pour_into_empty_can_drain_source() {
    let mut src = unconstrained(vec![2, 2], 3);
    let mut dst = unconstrained(vec![], 3);
    assert!(src.can_pour_into(&dst));
    src.pour_into(&mut dst);
    assert_eq!(src.content, Vec::<usize>::new());
    assert_eq!(dst.content, vec![2, 2]);
}
