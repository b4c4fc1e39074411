use keybindings::helpers::{cycle_index, Direction};

#[test]
fn forward_steps_and_wraps() {
    assert_eq!(cycle_index(0, 3, Direction::Forward), 1);
    assert_eq!(cycle_index(2, 3, Direction::Forward), 3);
    assert_eq!(cycle_index(3, 3, Direction::Forward), 0);
    assert_eq!(cycle_index(0, 0, Direction::Forward), 0);
}

#[test]
fn backward_steps_and_wraps() {
    assert_eq!(cycle_index(3, 3, Direction::Backward), 2);
    assert_eq!(cycle_index(1, 3, Direction::Backward), 0);
    assert_eq!(cycle_index(0, 3, Direction::Backward), 3);
    assert_eq!(cycle_index(0, 0, Direction::Backward), 0);
}

#[test]
fn forward_undoes_backward() {
    for max in 0..5usize {
        for ix in 0..=max {
            let back = cycle_index(ix, max, Direction::Backward);
            assert_eq!(cycle_index(back, max, Direction::Forward), ix);
            let forth = cycle_index(ix, max, Direction::Forward);
            assert_eq!(cycle_index(forth, max, Direction::Backward), ix);
        }
    }
}

#[test]
fn wraps_at_the_largest_index() {
    assert_eq!(cycle_index(usize::MAX, usize::MAX, Direction::Forward), 0);
    assert_eq!(cycle_index(0, usize::MAX, Direction::Backward), usize::MAX);
}
