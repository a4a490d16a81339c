//! The whole puzzle, from the first board to the last.

use vstd::prelude::*;
use crate::board::stacked_on;
use crate::game::Game;
use crate::laws::lemma_solution_solves;
use crate::moves::moves_of;
use crate::solver::{solution, Solver};
use crate::tower::Tower;

verus! {

/// Sets up a game of `num_rings` rings, generates the solution and makes
/// every move of it on the board. No move is refused, and the game ends with
/// all the rings on the third tower.
pub fn play(num_rings: usize) -> (game: Game)
    ensures
        game.wf(),
        game.rings() == num_rings,
        game@ == stacked_on(num_rings as nat, Tower::Third),
{
    let mut game = Game::new(num_rings);
    let mut solver = Solver::new(num_rings);
    solver.solve();
    proof {
        lemma_solution_solves(num_rings as nat, Tower::First, Tower::Third, Tower::Second);
        assert(moves_of(solver.moves@) =~= solution(
            num_rings as nat,
            Tower::First,
            Tower::Third,
            Tower::Second,
        ));
    }
    game.replay(&solver.moves);
    game
}

} // verus!
