//! No sequence of moves does the job of the solution in fewer moves, and no
//! other sequence does it in as few.
//!
//! The proof measures how far a board is from having its smallest rings
//! gathered on a tower. One move brings a board closer by one at most, and on
//! any board at most one move brings it closer at all.

use vstd::prelude::*;
use vstd::arithmetic::power2::{lemma2_to64, lemma_pow2_unfold, pow2};
use crate::board::{
    all_legal, legal, legal_at, lemma_replay_concat, lemma_stacked_well_formed,
    lemma_step_well_formed, replay, rings_on, same_towers, stacked_on, step, strictly_decreasing,
    well_formed, Board,
};
use crate::laws::lemma_solution_solves;
use crate::moves::Move;
use crate::solver::{lemma_solution_len, solution};
use crate::tower::Tower;

verus! {

/// The position of the tower that holds ring `r`. On a well-formed board each
/// ring is on one tower only.
pub open spec fn tower_of(b: Board, r: nat) -> int {
    if b[0].contains(r) {
        0
    } else if b[1].contains(r) {
        1
    } else {
        2
    }
}

/// The position that is neither `p` nor `q`, for two different positions.
pub open spec fn third(p: int, q: int) -> int {
    3 - p - q
}

/// The number of moves it takes at least to gather the rings `1..=k` on the
/// tower at `target`: if ring `k` is there already, what the smaller rings
/// need; if not, the smaller rings must make way on the third tower, ring `k`
/// must cross, and the smaller rings must follow it.
pub open spec fn distance(b: Board, k: nat, target: int) -> nat
    decreases k,
{
    if k == 0 {
        0
    } else {
        let at = tower_of(b, k);
        if at == target {
            distance(b, (k - 1) as nat, target)
        } else {
            distance(b, (k - 1) as nat, third(at, target)) + pow2((k - 1) as nat)
        }
    }
}

/// On a well-formed board each ring is on exactly one tower.
pub proof fn lemma_ring_on_one_tower(b: Board, n: nat, r: nat)
    requires
        well_formed(b, n),
        1 <= r <= n,
    ensures
        0 <= tower_of(b, r) < 3,
        forall|t: int| 0 <= t < 3 ==> (#[trigger] b[t].contains(r) <==> t == tower_of(b, r)),
{
    b[0].to_multiset_ensures();
    b[1].to_multiset_ensures();
    b[2].to_multiset_ensures();
    assert(rings_on(b).count(r) == 1);
}

/// Every ring that lies on a well-formed board is one of `1..=n`.
pub proof fn lemma_ring_in_range(b: Board, n: nat, t: int, r: nat)
    requires
        well_formed(b, n),
        0 <= t < 3,
        b[t].contains(r),
    ensures
        1 <= r <= n,
{
    b[t].to_multiset_ensures();
    assert(rings_on(b).count(r) > 0);
}

/// With the rings `1..=k` all on the tower at `place`, nothing is left to do
/// if that is the target, and `2^k - 1` moves are needed if it is not.
pub proof fn lemma_distance_gathered(b: Board, k: nat, place: int, target: int)
    requires
        0 <= place < 3,
        0 <= target < 3,
        forall|j: nat| 1 <= j <= k ==> tower_of(b, j) == place,
    ensures
        distance(b, k, target) == if target == place {
            0
        } else {
            pow2(k) - 1
        },
    decreases k,
{
    if k == 0 {
        lemma2_to64();
    } else {
        assert(tower_of(b, k) == place);
        lemma_pow2_unfold(k);
        if target == place {
            lemma_distance_gathered(b, (k - 1) as nat, place, target);
        } else {
            lemma_distance_gathered(b, (k - 1) as nat, place, third(place, target));
        }
    }
}

/// The distance depends on nothing but the places of the rings `1..=k`.
pub proof fn lemma_distance_same_places(b1: Board, b2: Board, k: nat, target: int)
    requires
        forall|j: nat| 1 <= j <= k ==> tower_of(b1, j) == tower_of(b2, j),
    ensures
        distance(b1, k, target) == distance(b2, k, target),
    decreases k,
{
    if k > 0 {
        assert(tower_of(b1, k) == tower_of(b2, k));
        lemma_distance_same_places(b1, b2, (k - 1) as nat, target);
        lemma_distance_same_places(b1, b2, (k - 1) as nat, third(tower_of(b1, k), target));
    }
}

/// What a legal move does to the places of the rings: the top ring of `from`
/// goes to `to`, every smaller ring is on the third tower, and no other ring
/// changes its place.
pub proof fn lemma_step_places(b: Board, n: nat, from: int, to: int)
    requires
        well_formed(b, n),
        legal(b, from, to),
    ensures
        from != to,
        1 <= b[from].last() <= n,
        tower_of(b, b[from].last()) == from,
        tower_of(step(b, from, to), b[from].last()) == to,
        forall|j: nat| 1 <= j < b[from].last() ==> #[trigger] tower_of(b, j) == third(from, to),
        forall|j: nat|
            1 <= j <= n && j != b[from].last() ==> #[trigger] tower_of(step(b, from, to), j)
                == tower_of(b, j),
{
    let after = step(b, from, to);
    let ring = b[from].last();
    let spare = third(from, to);
    lemma_step_well_formed(b, n, from, to);
    assert(b[from].contains(ring)) by {
        assert(b[from][b[from].len() - 1] == ring);
    }
    lemma_ring_in_range(b, n, from, ring);
    lemma_ring_on_one_tower(b, n, ring);
    assert(after[to].contains(ring)) by {
        assert(after[to][after[to].len() - 1] == ring);
    }
    lemma_ring_on_one_tower(after, n, ring);
    assert(strictly_decreasing(b[from]));
    assert(strictly_decreasing(b[to]));
    assert(after[spare] == b[spare]);
    assert forall|j: nat| 1 <= j <= n && j != ring implies tower_of(after, j) == tower_of(
        b,
        j,
    ) by {
        lemma_ring_on_one_tower(b, n, j);
        lemma_ring_on_one_tower(after, n, j);
        let at = tower_of(b, j);
        assert(b[at].contains(j));
        let i = choose|i: int| 0 <= i < b[at].len() && b[at][i] == j;
        if at == from {
            assert(i < b[from].len() - 1);
            assert(after[from][i] == j);
            assert(after[from].contains(j));
        } else if at == to {
            assert(after[to][i] == j);
            assert(after[to].contains(j));
        } else {
            assert(after[at] == b[at]);
        }
    }
    assert forall|j: nat| 1 <= j < ring implies #[trigger] tower_of(b, j) == spare by {
        lemma_ring_on_one_tower(b, n, j);
        let at = tower_of(b, j);
        assert(b[at].contains(j));
        let i = choose|i: int| 0 <= i < b[at].len() && b[at][i] == j;
        if at == from {
            if i < b[from].len() - 1 {
                assert(b[from][i] > b[from][b[from].len() - 1]);
            }
        } else if at == to {
            if i < b[to].len() - 1 {
                assert(b[to][i] > b[to][b[to].len() - 1]);
            }
        }
    }
}

/// What the move of ring `k` does to the distance of the rings `1..=k`: it
/// grows by one if ring `k` leaves the target, falls by one if ring `k` reaches
/// the target, and stays as it is if the move passes the target by.
pub proof fn lemma_largest_crossing(b: Board, n: nat, target: int, from: int, to: int)
    requires
        well_formed(b, n),
        0 <= target < 3,
        legal(b, from, to),
    ensures
        ({
            let k = b[from].last();
            let before = distance(b, k, target);
            let after = distance(step(b, from, to), k, target);
            let half = pow2((k - 1) as nat);
            if target == from {
                before == half - 1 && after == half
            } else if target == to {
                before == half && after == half - 1
            } else {
                before == after
            }
        }),
{
    let after = step(b, from, to);
    let k = b[from].last();
    let spare = third(from, to);
    let less = (k - 1) as nat;
    lemma_step_places(b, n, from, to);
    // The smaller rings wait on the third tower while ring `k` crosses.
    assert forall|j: nat| 1 <= j <= less implies tower_of(after, j) == spare by {
        assert(tower_of(b, j) == spare);
    }
    if target == from {
        lemma_distance_gathered(b, less, spare, from);
        lemma_distance_gathered(after, less, spare, spare);
    } else if target == to {
        lemma_distance_gathered(b, less, spare, spare);
        lemma_distance_gathered(after, less, spare, to);
    } else {
        lemma_distance_gathered(b, less, spare, to);
        lemma_distance_gathered(after, less, spare, from);
    }
}

/// One move, legal or not, brings the rings `1..=k` closer to being gathered
/// on the target by one at most.
pub proof fn lemma_step_distance(b: Board, n: nat, k: nat, target: int, from: int, to: int)
    requires
        well_formed(b, n),
        k <= n,
        0 <= target < 3,
    ensures
        distance(b, k, target) <= distance(step(b, from, to), k, target) + 1,
    decreases k,
{
    if legal(b, from, to) && k > 0 {
        let after = step(b, from, to);
        let ring = b[from].last();
        lemma_step_places(b, n, from, to);
        if k < ring {
            lemma_distance_same_places(b, after, k, target);
        } else if k == ring {
            lemma_largest_crossing(b, n, target, from, to);
        } else {
            let at = tower_of(b, k);
            lemma_ring_on_one_tower(b, n, k);
            assert(tower_of(after, k) == at);
            if at == target {
                lemma_step_distance(b, n, (k - 1) as nat, target, from, to);
            } else {
                lemma_step_distance(b, n, (k - 1) as nat, third(at, target), from, to);
            }
        }
    }
}

/// However the moves are chosen, each of them brings the rings `1..=k`
/// closer to being gathered on the target by one at most, and the board stays
/// well formed.
pub proof fn lemma_replay_distance(b: Board, n: nat, k: nat, target: int, moves: Seq<Move>)
    requires
        well_formed(b, n),
        k <= n,
        0 <= target < 3,
    ensures
        well_formed(replay(b, moves), n),
        distance(b, k, target) <= distance(replay(b, moves), k, target) + moves.len(),
    decreases moves.len(),
{
    if moves.len() > 0 {
        let before = replay(b, moves.drop_last());
        let last = moves.last();
        lemma_replay_distance(b, n, k, target, moves.drop_last());
        lemma_step_well_formed(before, n, last.from.index(), last.to.index());
        lemma_step_distance(before, n, k, target, last.from.index(), last.to.index());
    }
}

/// With all rings stacked on one tower, nothing is left to do if that is the
/// target, and `2^n - 1` moves are needed if it is not.
pub proof fn lemma_stacked_distance(n: nat, at: Tower, target: Tower)
    ensures
        distance(stacked_on(n, at), n, target.index()) == if target == at {
            0
        } else {
            pow2(n) - 1
        },
{
    let b = stacked_on(n, at);
    lemma_stacked_well_formed(n, at);
    assert forall|r: nat| 1 <= r <= n implies tower_of(b, r) == at.index() by {
        lemma_ring_on_one_tower(b, n, r);
        assert(b[at.index()][n - r] == r);
        assert(b[at.index()].contains(r));
    }
    lemma_distance_gathered(b, n, at.index(), target.index());
}

/// The solution is as short as can be: moves that take the whole stack of
/// `n` rings from one tower to another are `2^n - 1` or more, which is the
/// length of the solution.
pub proof fn lemma_no_shorter_way(n: nat, from: Tower, to: Tower, aux: Tower, moves: Seq<Move>)
    requires
        from != to,
        replay(stacked_on(n, from), moves) == stacked_on(n, to),
    ensures
        moves.len() >= pow2(n) - 1,
        moves.len() >= solution(n, from, to, aux).len(),
{
    lemma_stacked_well_formed(n, from);
    lemma_stacked_distance(n, from, to);
    lemma_stacked_distance(n, to, to);
    lemma_replay_distance(stacked_on(n, from), n, n, to.index(), moves);
    lemma_solution_len(n, from, to, aux);
}

/// On any board at most one move brings the rings `1..=k` closer to being
/// gathered on the target.
pub proof fn lemma_closer_step_unique(
    b: Board,
    n: nat,
    k: nat,
    target: int,
    from1: int,
    to1: int,
    from2: int,
    to2: int,
)
    requires
        well_formed(b, n),
        k <= n,
        0 <= target < 3,
        distance(step(b, from1, to1), k, target) < distance(b, k, target),
        distance(step(b, from2, to2), k, target) < distance(b, k, target),
    ensures
        from1 == from2,
        to1 == to2,
    decreases k,
{
    let after1 = step(b, from1, to1);
    let after2 = step(b, from2, to2);
    let ring1 = b[from1].last();
    let ring2 = b[from2].last();
    let less = (k - 1) as nat;
    assert(k > 0);
    assert(legal(b, from1, to1) && legal(b, from2, to2));
    lemma_step_places(b, n, from1, to1);
    lemma_step_places(b, n, from2, to2);
    lemma_ring_on_one_tower(b, n, k);
    let at = tower_of(b, k);
    if ring1 > k {
        lemma_distance_same_places(b, after1, k, target);
    } else if ring2 > k {
        lemma_distance_same_places(b, after2, k, target);
    } else if ring1 == k && ring2 == k {
        // Both moves take ring `k`, and only to the target does it help.
        lemma_largest_crossing(b, n, target, from1, to1);
        lemma_largest_crossing(b, n, target, from2, to2);
    } else if ring1 == k {
        // Ring `k` must cross, and the second move leaves it where it is.
        lemma_largest_crossing(b, n, target, from1, to1);
        assert(tower_of(after2, k) == at);
    } else if ring2 == k {
        lemma_largest_crossing(b, n, target, from2, to2);
        assert(tower_of(after1, k) == at);
    } else {
        assert(tower_of(after1, k) == at);
        assert(tower_of(after2, k) == at);
        if at == target {
            lemma_closer_step_unique(b, n, less, target, from1, to1, from2, to2);
        } else {
            lemma_closer_step_unique(b, n, less, third(at, target), from1, to1, from2, to2);
        }
    }
}

/// On a way from one stacked board to another that is as short as the
/// solution, every move brings the rings closer to the destination by one.
proof fn lemma_on_the_way(n: nat, from: Tower, to: Tower, moves: Seq<Move>, k: int)
    requires
        from != to,
        replay(stacked_on(n, from), moves) == stacked_on(n, to),
        moves.len() == pow2(n) - 1,
        0 <= k <= moves.len(),
    ensures
        well_formed(replay(stacked_on(n, from), moves.take(k)), n),
        distance(replay(stacked_on(n, from), moves.take(k)), n, to.index()) == moves.len() - k,
{
    let start = stacked_on(n, from);
    let here = replay(start, moves.take(k));
    lemma_stacked_well_formed(n, from);
    lemma_stacked_distance(n, from, to);
    lemma_stacked_distance(n, to, to);
    assert(moves.take(k) + moves.skip(k) =~= moves);
    lemma_replay_concat(start, moves.take(k), moves.skip(k));
    lemma_replay_distance(start, n, n, to.index(), moves.take(k));
    lemma_replay_distance(here, n, n, to.index(), moves.skip(k));
}

/// A way as short as the solution passes through the same boards as the
/// solution, by the same moves.
proof fn lemma_same_way(n: nat, from: Tower, to: Tower, aux: Tower, moves: Seq<Move>, k: int)
    requires
        from != to,
        from != aux,
        to != aux,
        replay(stacked_on(n, from), moves) == stacked_on(n, to),
        moves.len() == pow2(n) - 1,
        0 <= k <= moves.len(),
    ensures
        replay(stacked_on(n, from), moves.take(k)) == replay(
            stacked_on(n, from),
            solution(n, from, to, aux).take(k),
        ),
        forall|i: int|
            0 <= i < k ==> same_towers(#[trigger] moves[i], solution(n, from, to, aux)[i]),
        forall|i: int| 0 <= i < k ==> #[trigger] legal_at(stacked_on(n, from), moves, i),
    decreases k,
{
    if k > 0 {
        let start = stacked_on(n, from);
        let sol = solution(n, from, to, aux);
        let j = k - 1;
        let here = replay(start, moves.take(j));
        lemma_same_way(n, from, to, aux, moves, j);
        lemma_solution_len(n, from, to, aux);
        lemma_solution_solves(n, from, to, aux);
        lemma_on_the_way(n, from, to, moves, j);
        lemma_on_the_way(n, from, to, moves, k);
        lemma_on_the_way(n, from, to, sol, j);
        lemma_on_the_way(n, from, to, sol, k);
        assert(moves.take(k).drop_last() =~= moves.take(j));
        assert(sol.take(k).drop_last() =~= sol.take(j));
        lemma_closer_step_unique(
            here,
            n,
            n,
            to.index(),
            moves[j].from.index(),
            moves[j].to.index(),
            sol[j].from.index(),
            sol[j].to.index(),
        );
        assert(same_towers(moves[j], sol[j]));
        assert(legal_at(start, moves, j));
    }
}

/// The solution is the only way that short: moves that take the whole stack
/// of `n` rings from one tower to another, and are no more than `2^n - 1`, are
/// all legal and are the moves of the solution, one by one, between the same
/// towers.
pub proof fn lemma_shortest_way_is_the_solution(
    n: nat,
    from: Tower,
    to: Tower,
    aux: Tower,
    moves: Seq<Move>,
)
    requires
        from != to,
        from != aux,
        to != aux,
        replay(stacked_on(n, from), moves) == stacked_on(n, to),
        moves.len() <= pow2(n) - 1,
    ensures
        moves.len() == solution(n, from, to, aux).len(),
        forall|i: int|
            0 <= i < moves.len() ==> same_towers(
                #[trigger] moves[i],
                solution(n, from, to, aux)[i],
            ),
        all_legal(stacked_on(n, from), moves),
{
    lemma_no_shorter_way(n, from, to, aux, moves);
    lemma_solution_len(n, from, to, aux);
    lemma_same_way(n, from, to, aux, moves, moves.len() as int);
}

} // verus!
