//! Small index helpers shared by callers that walk lists of bindings.

use vstd::prelude::*;

verus! {

/// The direction in which an index moves through a list.
#[derive(Clone, Copy, Debug, PartialEq, Eq, Structural)]
pub enum Direction {
    /// Towards larger indices.
    Forward,
    /// Towards smaller indices.
    Backward,
}

/// The index that follows `ix` in a list whose last index is `max`, as a
/// mathematical integer.
pub open spec fn cycled(ix: int, max: int, direction: Direction) -> int {
    match direction {
        Direction::Forward => if ix == max { 0 } else { ix + 1 },
        Direction::Backward => if ix == 0 { max } else { ix - 1 },
    }
}

/// Cycle through a set of indices, wrapping at either end.
pub fn cycle_index(ix: usize, max: usize, direction: Direction) -> (next: usize)
    requires
        direction == Direction::Forward && ix != max ==> ix < usize::MAX,
    ensures
        next == cycled(ix as int, max as int, direction),
        ix <= max ==> next <= max,
{
    match direction {
        Direction::Forward => if ix == max { 0 } else { ix + 1 },
        Direction::Backward => if ix == 0 { max } else { ix - 1 },
    }
}

/// Within `0..=max`, a step forward undoes a step backward and the other
/// way round.
pub proof fn lemma_cycle_round_trip(ix: int, max: int)
    requires
        0 <= ix <= max,
    ensures
        cycled(cycled(ix, max, Direction::Forward), max, Direction::Backward) == ix,
        cycled(cycled(ix, max, Direction::Backward), max, Direction::Forward) == ix,
{
}

} // verus!
