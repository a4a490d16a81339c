//! The board in play: three stacks of rings on which moves are made, each
//! move checked against the rule of the puzzle.

use vstd::prelude::*;
use crate::board::{
    all_legal, apply, descending, initial_board, legal, legal_at, lemma_stacked_well_formed,
    lemma_step_well_formed, move_legal, replay, step, well_formed, Board,
};
use crate::moves::{moves_of, HanoiMove};
use crate::tower::Tower;

verus! {

/// The rings of one tower as mathematical sizes, from the bottom up.
pub open spec fn stack_of(tower: Seq<usize>) -> Seq<nat> {
    tower.map_values(|r: usize| r as nat)
}

/// The board that a list of towers stands for.
pub open spec fn board_of(towers: Seq<Vec<usize>>) -> Board {
    towers.map_values(|t: Vec<usize>| stack_of(t@))
}

/// What is reported when a move cannot be made: the two towers of the
/// attempted move and the board as it stood.
#[derive(Debug, PartialEq, Eq)]
pub struct IllegalMove {
    pub from: Tower,
    pub to: Tower,
    pub towers: Vec<Vec<usize>>,
}

/// Three towers holding the rings `1..=num_rings`. A game made by [`Game::new`]
/// is well formed and stays so under every move: each tower is stacked with
/// sizes falling from bottom to top, and each ring is on the board exactly once.
#[derive(Debug)]
pub struct Game {
    num_rings: usize,
    towers: Vec<Vec<usize>>,
}

impl View for Game {
    type V = Board;

    closed spec fn view(&self) -> Board {
        board_of(self.towers@)
    }
}

impl Game {
    /// The number of rings in the game.
    pub closed spec fn rings(&self) -> nat {
        self.num_rings as nat
    }

    /// The board is well formed for the game's number of rings.
    pub open spec fn wf(&self) -> bool {
        well_formed(self@, self.rings())
    }

    /// A game with the rings `num_rings, ..., 1` stacked on the first tower,
    /// the largest at the bottom, and the other two towers empty.
    pub fn new(num_rings: usize) -> (game: Game)
        ensures
            game.wf(),
            game@ == initial_board(num_rings as nat),
            game.rings() == num_rings,
    {
        let mut towers: Vec<Vec<usize>> = Vec::new();
        for k in 0..3
            invariant
                towers.len() == k,
                forall|t: int| 0 <= t < k ==> (#[trigger] towers[t])@.len() == 0,
        {
            towers.push(Vec::new());
        }

        let mut r: usize = num_rings;
        while r > 0
            invariant
                r <= num_rings,
                towers.len() == 3,
                towers[1]@.len() == 0,
                towers[2]@.len() == 0,
                stack_of(towers[0]@) == descending(num_rings as nat).take(num_rings - r),
            decreases r,
        {
            let ghost below = towers[0]@;
            towers[0].push(r);
            r = r - 1;
            assert(towers[0]@ == below.push((r + 1) as usize));
            assert(stack_of(below).len() == num_rings - r - 1);
            assert forall|i: int| 0 <= i < num_rings - r implies stack_of(towers[0]@)[i]
                == descending(num_rings as nat)[i] by {
                if i < num_rings - r - 1 {
                    assert(stack_of(below)[i] == descending(num_rings as nat).take(
                        num_rings - r - 1,
                    )[i]);
                }
            }
            assert(stack_of(towers[0]@) =~= descending(num_rings as nat).take(num_rings - r));
        }

        proof {
            lemma_stacked_well_formed(num_rings as nat, Tower::First);
            assert(descending(num_rings as nat).take(num_rings as int) =~= descending(
                num_rings as nat,
            ));
            assert(board_of(towers@) =~~= initial_board(num_rings as nat));
        }
        Game { num_rings, towers }
    }

    /// The number of rings in the game.
    pub fn num_rings(&self) -> (n: usize)
        ensures
            n == self.rings(),
    {
        self.num_rings
    }

    /// The three towers, each listed from its bottom ring to its top ring.
    pub fn towers(&self) -> (towers: &Vec<Vec<usize>>)
        ensures
            board_of(towers@) == self@,
    {
        &self.towers
    }

    /// Makes the move, which must be legal: the top ring of the move's source
    /// tower goes on top of its destination tower. The ring size recorded in
    /// the move is not consulted.
    pub fn move_ring(&mut self, mv: &HanoiMove)
        requires
            old(self).wf(),
            move_legal(old(self)@, mv@),
        ensures
            final(self).wf(),
            final(self)@ == apply(old(self)@, mv@),
            final(self).rings() == old(self).rings(),
    {
        proof {
            lemma_step_well_formed(self@, self.rings(), mv@.from.index(), mv@.to.index());
        }
        transfer(&mut self.towers, mv.index_of_from(), mv.index_of_to());
    }

    /// Makes the move if it is legal. If it is not, the board stays as it is
    /// and the attempt is reported with a copy of the board.
    pub fn try_move_ring(&mut self, mv: &HanoiMove) -> (outcome: Result<(), IllegalMove>)
        requires
            old(self).wf(),
        ensures
            final(self).wf(),
            outcome is Ok <==> move_legal(old(self)@, mv@),
            final(self)@ == apply(old(self)@, mv@),
            final(self).rings() == old(self).rings(),
            outcome matches Err(e) ==> e.from == mv@.from && e.to == mv@.to && board_of(e.towers@)
                == old(self)@,
    {
        if !self.can_move(mv.index_of_from(), mv.index_of_to()) {
            return Err(
                IllegalMove { from: mv.from(), to: mv.to(), towers: copy_towers(&self.towers) },
            );
        }
        self.move_ring(mv);
        Ok(())
    }

    /// Makes the moves in order. Each must be legal when its turn comes.
    pub fn replay(&mut self, moves: &Vec<HanoiMove>)
        requires
            old(self).wf(),
            all_legal(old(self)@, moves_of(moves@)),
        ensures
            final(self).wf(),
            final(self)@ == replay(old(self)@, moves_of(moves@)),
            final(self).rings() == old(self).rings(),
    {
        let ghost all = moves_of(moves@);
        for k in 0..moves.len()
            invariant
                all == moves_of(moves@),
                all_legal(old(self)@, all),
                self.wf(),
                self@ == replay(old(self)@, all.take(k as int)),
                self.rings() == old(self).rings(),
        {
            proof {
                assert(legal_at(old(self)@, all, k as int));
                assert(all.take(k + 1).drop_last() =~= all.take(k as int));
            }
            self.move_ring(&moves[k]);
        }
        assert(all.take(moves.len() as int) =~= all);
    }

    /// Whether a ring may be moved from the tower at position `from` to the
    /// one at position `to`: `from` must hold a ring, and `to` must be empty
    /// or have a strictly larger ring on top.
    pub fn can_move(&self, from: usize, to: usize) -> (ok: bool)
        requires
            self.wf(),
            from < 3,
            to < 3,
        ensures
            ok == legal(self@, from as int, to as int),
    {
        let from_tower = &self.towers[from];
        if from_tower.is_empty() {
            return false;
        }
        let ring_to_move = from_tower[from_tower.len() - 1];

        let to_tower = &self.towers[to];
        if !to_tower.is_empty() && to_tower[to_tower.len() - 1] <= ring_to_move {
            return false;
        }
        true
    }
}

/// Takes the top ring of the tower at `from` and puts it on the tower at `to`.
fn transfer(towers: &mut Vec<Vec<usize>>, from: usize, to: usize)
    requires
        legal(board_of(old(towers)@), from as int, to as int),
    ensures
        board_of(final(towers)@) == step(board_of(old(towers)@), from as int, to as int),
{
    let ring = towers[from].pop().unwrap();
    towers[to].push(ring);
    assert(board_of(towers@) =~~= step(board_of(old(towers)@), from as int, to as int));
}

/// A copy of the towers, ring by ring.
fn copy_towers(towers: &Vec<Vec<usize>>) -> (copy: Vec<Vec<usize>>)
    ensures
        board_of(copy@) == board_of(towers@),
{
    let mut copy: Vec<Vec<usize>> = Vec::new();
    for t in 0..towers.len()
        invariant
            copy.len() == t,
            forall|i: int| 0 <= i < t ==> (#[trigger] copy[i])@ == towers[i]@,
    {
        let tower = &towers[t];
        let mut rings: Vec<usize> = Vec::new();
        for i in 0..tower.len()
            invariant
                rings@ == tower@.take(i as int),
        {
            rings.push(tower[i]);
            assert(rings@ =~= tower@.take(i + 1));
        }
        assert(tower@.take(tower.len() as int) =~= tower@);
        copy.push(rings);
    }
    assert(board_of(copy@) =~~= board_of(towers@));
    copy
}

} // verus!
