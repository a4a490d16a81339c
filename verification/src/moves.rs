//! A single ring transfer, as a record and as its mathematical model.

use vstd::prelude::*;
use crate::tower::Tower;

verus! {

/// The mathematical model of a move: the size of the ring and the two towers.
pub struct Move {
    pub ring: nat,
    pub from: Tower,
    pub to: Tower,
}

/// The record of one ring transfer. The ring size is an annotation: whether
/// the move can be made depends on the board alone.
#[derive(Debug, Clone, Copy, PartialEq, Eq, Structural)]
pub struct HanoiMove {
    ring: usize,
    from: Tower,
    to: Tower,
}

impl View for HanoiMove {
    type V = Move;

    closed spec fn view(&self) -> Move {
        Move { ring: self.ring as nat, from: self.from, to: self.to }
    }
}

impl HanoiMove {
    /// The move of the ring of size `ring` from `from` to `to`.
    pub fn new(ring: usize, from: Tower, to: Tower) -> (m: HanoiMove)
        ensures
            m@ == (Move { ring: ring as nat, from, to }),
    {
        HanoiMove { ring, from, to }
    }

    /// The recorded ring size.
    pub fn ring(&self) -> (r: usize)
        ensures
            r == self@.ring,
    {
        self.ring
    }

    /// The tower the ring is taken from.
    pub fn from(&self) -> (t: Tower)
        ensures
            t == self@.from,
    {
        self.from
    }

    /// The tower the ring is put on.
    pub fn to(&self) -> (t: Tower)
        ensures
            t == self@.to,
    {
        self.to
    }

    /// The board position of the tower the ring is taken from.
    pub fn index_of_from(&self) -> (i: usize)
        ensures
            i == self@.from.index(),
    {
        HanoiMove::map_tower_to_index(&self.from)
    }

    /// The board position of the tower the ring is put on.
    pub fn index_of_to(&self) -> (i: usize)
        ensures
            i == self@.to.index(),
    {
        HanoiMove::map_tower_to_index(&self.to)
    }

    fn map_tower_to_index(tower: &Tower) -> (i: usize)
        ensures
            i == tower.index(),
    {
        match tower {
            Tower::First => 0,
            Tower::Second => 1,
            Tower::Third => 2,
        }
    }

    /// A record is determined by its model.
    pub proof fn lemma_view_injective(a: HanoiMove, b: HanoiMove)
        requires
            a@ == b@,
        ensures
            a == b,
    {
    }
}

/// The models of a sequence of records, in the same order.
pub open spec fn moves_of(records: Seq<HanoiMove>) -> Seq<Move> {
    records.map_values(|m: HanoiMove| m@)
}

/// Appending a record appends its model.
pub proof fn lemma_moves_of_push(records: Seq<HanoiMove>, m: HanoiMove)
    ensures
        moves_of(records.push(m)) == moves_of(records).push(m@),
{
    assert(moves_of(records.push(m)) =~= moves_of(records).push(m@));
}

} // verus!
