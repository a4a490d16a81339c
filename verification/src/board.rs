//! The board as a mathematical object: three stacks of ring sizes, the rule
//! that decides whether a ring may be moved, and what a sequence of moves
//! does to a board.

use vstd::prelude::*;
use vstd::multiset::Multiset;
use crate::moves::Move;
use crate::tower::Tower;

verus! {

/// A board: one stack of ring sizes per tower, each listed from the bottom up.
pub type Board = Seq<Seq<nat>>;

/// The ring that can be taken from a stack: its last one, if it has any.
pub open spec fn top(stack: Seq<nat>) -> Option<nat> {
    if stack.len() == 0 {
        None
    } else {
        Some(stack.last())
    }
}

/// A ring may be moved from position `from` to position `to` when `from` has a
/// ring and `to` is empty or has a strictly larger ring on top.
pub open spec fn legal(b: Board, from: int, to: int) -> bool {
    &&& 0 <= from < b.len()
    &&& 0 <= to < b.len()
    &&& match top(b[from]) {
        None => false,
        Some(ring) => match top(b[to]) {
            None => true,
            Some(under) => ring < under,
        },
    }
}

/// The board after an attempt to move a ring from `from` to `to`: the top ring
/// changes towers if the move is legal, and nothing happens if it is not.
pub open spec fn step(b: Board, from: int, to: int) -> Board {
    if legal(b, from, to) {
        b.update(from, b[from].drop_last()).update(to, b[to].push(b[from].last()))
    } else {
        b
    }
}

/// Whether two moves are between the same towers, whatever rings they record.
pub open spec fn same_towers(m1: Move, m2: Move) -> bool {
    m1.from == m2.from && m1.to == m2.to
}

/// Whether `m` can be made on `b`. The recorded ring size plays no part.
pub open spec fn move_legal(b: Board, m: Move) -> bool {
    legal(b, m.from.index(), m.to.index())
}

/// The board after an attempt to make `m` on `b`.
pub open spec fn apply(b: Board, m: Move) -> Board {
    step(b, m.from.index(), m.to.index())
}

/// The board after the moves have been attempted in order.
pub open spec fn replay(b: Board, moves: Seq<Move>) -> Board
    decreases moves.len(),
{
    if moves.len() == 0 {
        b
    } else {
        apply(replay(b, moves.drop_last()), moves.last())
    }
}

/// Whether move number `k` is legal on the board that the moves before it leave.
pub open spec fn legal_at(b: Board, moves: Seq<Move>, k: int) -> bool {
    move_legal(replay(b, moves.take(k)), moves[k])
}

/// Whether every one of the moves is legal when its turn comes.
pub open spec fn all_legal(b: Board, moves: Seq<Move>) -> bool {
    forall|k: int| 0 <= k < moves.len() ==> #[trigger] legal_at(b, moves, k)
}

/// Whether move number `k` records the ring that it takes: the top ring of
/// its source tower on the board that the moves before it leave.
pub open spec fn names_ring_at(b: Board, moves: Seq<Move>, k: int) -> bool {
    top(replay(b, moves.take(k))[moves[k].from.index()]) == Some(moves[k].ring)
}

/// The rings `n, n - 1, ..., 1`, the largest at the bottom.
pub open spec fn descending(n: nat) -> Seq<nat> {
    Seq::new(n, |i: int| (n - i) as nat)
}

/// The board with the rings `1..=n` stacked in order on `t` and nothing elsewhere.
pub open spec fn stacked_on(n: nat, t: Tower) -> Board {
    Seq::new(
        3,
        |i: int|
            if i == t.index() {
                descending(n)
            } else {
                Seq::empty()
            },
    )
}

/// The board at the start of a game: all rings on the first tower.
pub open spec fn initial_board(n: nat) -> Board {
    stacked_on(n, Tower::First)
}

/// Sizes fall strictly from the bottom of the stack to its top, so every ring
/// lies on a larger one.
pub open spec fn strictly_decreasing(stack: Seq<nat>) -> bool {
    forall|i: int, j: int| 0 <= i < j < stack.len() ==> stack[i] > stack[j]
}

/// All the rings on the board, each counted as often as it occurs.
pub open spec fn rings_on(b: Board) -> Multiset<nat> {
    b[0].to_multiset().add(b[1].to_multiset()).add(b[2].to_multiset())
}

/// A board for `n` rings is well formed when it has three towers, each
/// stacked with sizes falling from bottom to top, and the rings `1..=n` occur
/// exactly once each over the whole board, and no other ring occurs.
pub open spec fn well_formed(b: Board, n: nat) -> bool {
    &&& b.len() == 3
    &&& forall|t: int| 0 <= t < 3 ==> strictly_decreasing(#[trigger] b[t])
    &&& forall|r: nat| #[trigger]
        rings_on(b).count(r) == if 1 <= r <= n {
            1nat
        } else {
            0nat
        }
}

/// The rings `1..=n` occur once each in `descending(n)`, and nothing else does.
pub proof fn lemma_descending_rings(n: nat)
    ensures
        strictly_decreasing(descending(n)),
        forall|r: nat| #[trigger]
            descending(n).to_multiset().count(r) == if 1 <= r <= n {
                1nat
            } else {
                0nat
            },
{
    let s = descending(n);
    s.to_multiset_ensures();
    s.lemma_multiset_has_no_duplicates();
    assert forall|r: nat| #[trigger]
        s.to_multiset().count(r) == if 1 <= r <= n {
            1nat
        } else {
            0nat
        } by {
        if 1 <= r <= n {
            assert(s[n - r] == r);
        }
    }
}

/// A board with all rings stacked on one tower is well formed.
pub proof fn lemma_stacked_well_formed(n: nat, t: Tower)
    ensures
        well_formed(stacked_on(n, t), n),
{
    let b = stacked_on(n, t);
    lemma_descending_rings(n);
    Seq::<nat>::empty().to_multiset_ensures();
    assert forall|r: nat| #[trigger]
        rings_on(b).count(r) == if 1 <= r <= n {
            1nat
        } else {
            0nat
        } by {
        assert(descending(n).to_multiset().count(r) == if 1 <= r <= n {
            1nat
        } else {
            0nat
        });
    }
}

/// A move, legal or not, leaves a well-formed board well formed.
pub proof fn lemma_step_well_formed(b: Board, n: nat, from: int, to: int)
    requires
        well_formed(b, n),
    ensures
        well_formed(step(b, from, to), n),
{
    if legal(b, from, to) {
        let after = step(b, from, to);
        let ring = b[from].last();
        let lower = b[from].drop_last();
        let higher = b[to].push(ring);
        // The ring that arrives is smaller than every ring below it.
        assert(strictly_decreasing(higher)) by {
            assert forall|i: int, j: int| 0 <= i < j < higher.len() implies higher[i]
                > higher[j] by {
                if j == b[to].len() && i < b[to].len() - 1 {
                    assert(b[to][i] > b[to].last());
                }
            }
        }
        assert forall|t: int| 0 <= t < 3 implies strictly_decreasing(#[trigger] after[t]) by {}
        // It leaves one tower and joins another, so the rings are the same.
        assert(lower.push(ring) =~= b[from]);
        lower.to_multiset_ensures();
        b[to].to_multiset_ensures();
        assert forall|r: nat| #[trigger] rings_on(after).count(r) == rings_on(b).count(r) by {}
    }
}

/// Replaying two sequences one after the other is replaying their concatenation.
pub proof fn lemma_replay_concat(b: Board, first: Seq<Move>, second: Seq<Move>)
    ensures
        replay(b, first + second) == replay(replay(b, first), second),
    decreases second.len(),
{
    if second.len() == 0 {
        assert(first + second =~= first);
    } else {
        assert((first + second).drop_last() =~= first + second.drop_last());
        lemma_replay_concat(b, first, second.drop_last());
    }
}

/// A concatenation is legal throughout exactly when its first part is, and its
/// second part is on the board that the first part leaves.
pub proof fn lemma_all_legal_concat(b: Board, first: Seq<Move>, second: Seq<Move>)
    ensures
        all_legal(b, first + second) <==> all_legal(b, first) && all_legal(
            replay(b, first),
            second,
        ),
{
    let whole = first + second;
    let mid = replay(b, first);
    assert forall|k: int| 0 <= k < first.len() implies legal_at(b, whole, k) == legal_at(
        b,
        first,
        k,
    ) by {
        assert(whole.take(k) =~= first.take(k));
    }
    assert forall|k: int| 0 <= k < second.len() implies legal_at(b, whole, first.len() + k)
        == legal_at(mid, second, k) by {
        assert(whole.take(first.len() + k) =~= first + second.take(k));
        lemma_replay_concat(b, first, second.take(k));
    }
    if all_legal(b, whole) {
        assert forall|k: int| 0 <= k < first.len() implies #[trigger] legal_at(b, first, k) by {
            assert(legal_at(b, whole, k));
        }
        assert forall|k: int| 0 <= k < second.len() implies #[trigger] legal_at(
            mid,
            second,
            k,
        ) by {
            assert(legal_at(b, whole, first.len() + k));
        }
    }
    if all_legal(b, first) && all_legal(mid, second) {
        assert forall|k: int| 0 <= k < whole.len() implies #[trigger] legal_at(b, whole, k) by {
            if k < first.len() {
                assert(legal_at(b, first, k));
            } else {
                assert(legal_at(mid, second, k - first.len()));
            }
        }
    }
}

/// A single move is legal throughout exactly when it is legal.
pub proof fn lemma_all_legal_single(b: Board, m: Move)
    ensures
        all_legal(b, seq![m]) <==> move_legal(b, m),
        replay(b, seq![m]) == apply(b, m),
{
    let one = seq![m];
    assert(one.take(0) =~= Seq::<Move>::empty());
    assert(one.drop_last() =~= Seq::<Move>::empty());
    assert(legal_at(b, one, 0) == move_legal(b, m));
}

} // verus!
