//! The optimal move sequence, by the classic three-tower recursion.

use vstd::prelude::*;
use vstd::arithmetic::power2::{lemma2_to64, lemma_pow2_unfold, pow2};
use crate::moves::{lemma_moves_of_push, moves_of, HanoiMove, Move};
use crate::tower::Tower;

verus! {

/// The moves that carry the `n` smallest rings from `from` to `to`, with `aux`
/// as the spare tower: the `n - 1` smaller rings go to `aux`, ring `n` goes to
/// `to`, and the smaller rings follow it.
pub open spec fn solution(n: nat, from: Tower, to: Tower, aux: Tower) -> Seq<Move>
    decreases n,
{
    if n == 0 {
        Seq::empty()
    } else {
        solution((n - 1) as nat, from, aux, to).push(Move { ring: n, from, to }) + solution(
            (n - 1) as nat,
            aux,
            to,
            from,
        )
    }
}

/// Carrying `n` rings takes `2^n - 1` moves.
pub proof fn lemma_solution_len(n: nat, from: Tower, to: Tower, aux: Tower)
    ensures
        solution(n, from, to, aux).len() == pow2(n) - 1,
    decreases n,
{
    if n == 0 {
        lemma2_to64();
    } else {
        lemma_solution_len((n - 1) as nat, from, aux, to);
        lemma_solution_len((n - 1) as nat, aux, to, from);
        lemma_pow2_unfold(n);
    }
}

/// Generates the moves that solve the puzzle, collecting them in `moves`.
pub struct Solver {
    pub num_rings: usize,
    pub moves: Vec<HanoiMove>,
}

impl Solver {
    /// `after` is this solver once the moves that carry `n` rings from `from`
    /// to `to` have been appended to its list.
    pub open spec fn extended_by(
        &self,
        after: &Solver,
        n: nat,
        from: Tower,
        to: Tower,
        aux: Tower,
    ) -> bool {
        &&& after.num_rings == self.num_rings
        &&& moves_of(after.moves@) == moves_of(self.moves@) + solution(n, from, to, aux)
    }

    /// A solver for `num_rings` rings, with no moves generated yet.
    pub fn new(num_rings: usize) -> (s: Solver)
        ensures
            s.num_rings == num_rings,
            s.moves@ == Seq::<HanoiMove>::empty(),
    {
        Solver { num_rings, moves: Vec::new() }
    }

    /// Appends the moves that carry all the rings from the first tower to the
    /// third, with the second as the spare.
    pub fn solve(&mut self)
        ensures
            old(self).extended_by(
                final(self),
                old(self).num_rings as nat,
                Tower::First,
                Tower::Third,
                Tower::Second,
            ),
            final(self).moves@.len() == old(self).moves@.len() + pow2(old(self).num_rings as nat)
                - 1,
    {
        proof {
            lemma_solution_len(self.num_rings as nat, Tower::First, Tower::Third, Tower::Second);
        }
        let n = self.num_rings;
        self.move_ring(n, &Tower::First, &Tower::Third, &Tower::Second);
        assert(moves_of(self.moves@).len() == self.moves@.len());
        assert(moves_of(old(self).moves@).len() == old(self).moves@.len());
    }

    /// Appends the moves that carry the `ring_number` smallest rings from
    /// `from` to `to`, with `aux` as the spare: none for no rings.
    pub fn move_ring(&mut self, ring_number: usize, from: &Tower, to: &Tower, aux: &Tower)
        ensures
            old(self).extended_by(final(self), ring_number as nat, *from, *to, *aux),
        decreases ring_number,
    {
        if ring_number == 0 {
            assert(moves_of(self.moves@) + solution(0, *from, *to, *aux) =~= moves_of(
                self.moves@,
            ));
            return;
        }
        let current_move = HanoiMove::new(ring_number, *from, *to);

        self.move_ring(ring_number - 1, from, aux, to);
        let ghost carried = self.moves@;
        self.moves.push(current_move);
        proof {
            lemma_moves_of_push(carried, current_move);
        }
        self.move_ring(ring_number - 1, aux, to, from);
        assert(moves_of(self.moves@) =~= moves_of(old(self).moves@) + solution(
            ring_number as nat,
            *from,
            *to,
            *aux,
        ));
    }
}

} // verus!
