//! The three towers of the puzzle.

use vstd::prelude::*;

verus! {

/// One of the three towers on which rings are stacked.
#[derive(Debug, Clone, Copy, PartialEq, Eq, Structural)]
pub enum Tower {
    First,
    Second,
    Third,
}

impl Tower {
    /// The position of the tower on the board: 0, 1 or 2.
    pub open spec fn index(self) -> int {
        match self {
            Tower::First => 0,
            Tower::Second => 1,
            Tower::Third => 2,
        }
    }

    /// The tower that stands at position `i` (the third for any `i` past 1).
    pub open spec fn at(i: int) -> Tower {
        if i == 0 {
            Tower::First
        } else if i == 1 {
            Tower::Second
        } else {
            Tower::Third
        }
    }

    /// Towers and the positions 0, 1, 2 correspond one to one.
    pub proof fn lemma_index_bijective()
        ensures
            forall|t: Tower| 0 <= #[trigger] t.index() < 3 && Tower::at(t.index()) == t,
            forall|i: int| 0 <= i < 3 ==> (#[trigger] Tower::at(i)).index() == i,
    {
    }
}

} // verus!
