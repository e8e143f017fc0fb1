use color_sort_solver::transition::Transition;
use color_sort_solver::validate::{
    capacities_uniform, color_count, distinct_color_count, miscounted_colors,
};

#[test]
fn uniform_capacities_accepted() {
    assert!(capacities_uniform(&vec![3, 3, 3]));
    assert!(capacities_uniform(&vec![2]));
    assert!(capacities_uniform(&vec![]));
}

#[test]
fn mixed_capacities_rejected() {
    assert!(!capacities_uniform(&vec![3, 2, 3]));
}

#[test]
fn distinct_colors_are_counted_once_each() {
    assert_eq!(distinct_color_count(&vec![]), 0);
    assert_eq!(distinct_color_count(&vec![5, 5, 5]), 1);
    assert_eq!(distinct_color_count(&vec![1, 2, 1, 3, 2]), 3);
}

#[test]
fn color_occurrences_are_counted() {
    assert_eq!(color_count(&vec![1, 2, 1, 3, 1], 1), 3);
    assert_eq!(color_count(&vec![1, 2, 1, 3, 1], 4), 0);
}

#[test]
fn miscounted_colors_are_reported_in_first_occurrence_order() {
    // Capacity 2: color 1 occurs twice (fine), color 2 once, color 3
    // three times.
    let bad = miscounted_colors(&vec![2, 1, 3, 3, 1, 3], 2);
    assert_eq!(bad, vec![(2, 1), (3, 3)]);
}

#[test]
fn well_counted_colors_yield_no_report() {
    let bad = miscounted_colors(&vec![1, 2, 2, 1], 2);
    assert_eq!(bad, Vec::<(usize, usize)>::new());
}

#[test]
fn transition_records_its_positions() {
    let t = Transition::new(3, 5);
    assert_eq!(t.pour_from(), 3);
    assert_eq!(t.pour_into(), 5);
}
