//! What holds of the solver and the board together: the generated moves are
//! legal from the first to the last, record the rings that they take, and
//! carry the whole stack across.

use vstd::prelude::*;
use crate::board::{
    all_legal, apply, descending, legal, lemma_all_legal_concat, lemma_all_legal_single,
    lemma_replay_concat, move_legal, names_ring_at, replay, same_towers, stacked_on, top, Board,
};
use crate::moves::{moves_of, HanoiMove, Move};
use crate::solver::{solution, Solver};
use crate::tower::Tower;

verus! {

/// A ring of size `n` or less may be put on the stack: it is empty, or its
/// top ring is larger than `n`.
pub open spec fn accepts(stack: Seq<nat>, n: nat) -> bool {
    match top(stack) {
        None => true,
        Some(ring) => n < ring,
    }
}

/// The `n` topmost rings of the stack are `n, ..., 1`, and the rest of the
/// stack accepts them.
pub open spec fn topped(stack: Seq<nat>, n: nat) -> bool {
    &&& n <= stack.len()
    &&& stack.skip(stack.len() - n) == descending(n)
    &&& accepts(stack.take(stack.len() - n), n)
}

/// The board `b` with the `n` topmost rings of `from` put on top of `to`, in
/// the same order.
pub open spec fn carried(b: Board, n: nat, from: Tower, to: Tower) -> Board {
    b.update(from.index(), b[from.index()].take(b[from.index()].len() - n)).update(
        to.index(),
        b[to.index()] + descending(n),
    )
}

/// The board is ready for the solution that carries `n` rings from `from` to
/// `to`: the three towers are different, the rings `n, ..., 1` lie on top of
/// `from`, and the other two towers accept them.
pub open spec fn ready(b: Board, n: nat, from: Tower, to: Tower, aux: Tower) -> bool {
    &&& b.len() == 3
    &&& from != to
    &&& from != aux
    &&& to != aux
    &&& topped(b[from.index()], n)
    &&& accepts(b[to.index()], n)
    &&& accepts(b[aux.index()], n)
}

/// The three stages of carrying `n` rings, for `n` above 0: the board is
/// ready for the smaller rings to go to the spare tower; after that the
/// largest ring is on top and may cross; and then the board is ready for the
/// smaller rings to follow it, which completes the carrying.
proof fn lemma_stages(b: Board, n: nat, from: Tower, to: Tower, aux: Tower)
    requires
        ready(b, n, from, to, aux),
        n > 0,
    ensures
        ready(b, (n - 1) as nat, from, aux, to),
        ({
            let parted = carried(b, (n - 1) as nat, from, aux);
            let pivot = Move { ring: n, from, to };
            let crossed = apply(parted, pivot);
            &&& top(parted[from.index()]) == Some(n)
            &&& move_legal(parted, pivot)
            &&& ready(crossed, (n - 1) as nat, aux, to, from)
            &&& carried(crossed, (n - 1) as nat, aux, to) == carried(b, n, from, to)
        }),
{
    let f = from.index();
    let t = to.index();
    let a = aux.index();
    let m = (n - 1) as nat;
    let height = b[f].len();
    assert(b[f].skip(height - n)[0] == descending(n)[0]);
    assert(b[f].skip(height - m) =~= descending(m)) by {
        assert forall|i: int| 0 <= i < m implies b[f].skip(height - m)[i] == descending(m)[i] by {
            assert(b[f].skip(height - n)[i + 1] == descending(n)[i + 1]);
        }
    }
    let parted = carried(b, m, from, aux);
    let crossed = apply(parted, Move { ring: n, from, to });
    assert(crossed[f] =~= b[f].take(height - n));
    assert(crossed[a].skip(crossed[a].len() - m) =~= descending(m));
    assert(crossed[a].take(crossed[a].len() - m) =~= b[a]);
    assert(b[t].push(n) + descending(m) =~= b[t] + descending(n));
    assert(carried(crossed, m, aux, to) =~= carried(b, n, from, to));
}

/// Wherever the rings `n, ..., 1` lie on top of one tower and the other two
/// towers accept them, the solution for `n` rings is legal from its first move
/// to its last, and it carries those rings to the destination, leaving
/// everything else where it was.
pub proof fn lemma_solution_carries(b: Board, n: nat, from: Tower, to: Tower, aux: Tower)
    requires
        ready(b, n, from, to, aux),
    ensures
        all_legal(b, solution(n, from, to, aux)),
        replay(b, solution(n, from, to, aux)) == carried(b, n, from, to),
    decreases n,
{
    if n == 0 {
        assert(carried(b, n, from, to) =~~= b);
    } else {
        let m = (n - 1) as nat;
        let first = solution(m, from, aux, to);
        let pivot = Move { ring: n, from, to };
        let second = solution(m, aux, to, from);
        let parted = carried(b, m, from, aux);
        lemma_stages(b, n, from, to, aux);
        lemma_solution_carries(b, m, from, aux, to);
        lemma_solution_carries(apply(parted, pivot), m, aux, to, from);

        let head = first + seq![pivot];
        assert(solution(n, from, to, aux) =~= head + second);
        lemma_all_legal_single(parted, pivot);
        lemma_all_legal_concat(b, first, seq![pivot]);
        lemma_replay_concat(b, first, seq![pivot]);
        lemma_all_legal_concat(b, head, second);
        lemma_replay_concat(b, head, second);
    }
}

/// Each move of the solution records the ring that it takes: the ring it
/// names is the top ring of its source tower when the move's turn comes.
pub proof fn lemma_solution_names_rings(
    b: Board,
    n: nat,
    from: Tower,
    to: Tower,
    aux: Tower,
    k: int,
)
    requires
        ready(b, n, from, to, aux),
        0 <= k < solution(n, from, to, aux).len(),
    ensures
        names_ring_at(b, solution(n, from, to, aux), k),
    decreases n,
{
    let m = (n - 1) as nat;
    let first = solution(m, from, aux, to);
    let pivot = Move { ring: n, from, to };
    let second = solution(m, aux, to, from);
    let whole = solution(n, from, to, aux);
    let parted = carried(b, m, from, aux);
    let head = first + seq![pivot];
    lemma_stages(b, n, from, to, aux);
    lemma_solution_carries(b, m, from, aux, to);
    assert(whole =~= head + second);
    if k < first.len() {
        assert(whole.take(k) =~= first.take(k));
        lemma_solution_names_rings(b, m, from, aux, to, k);
    } else if k == first.len() {
        assert(whole.take(k) =~= first);
    } else {
        let rest = k - head.len();
        assert(whole.take(k) =~= head + second.take(rest));
        lemma_all_legal_single(parted, pivot);
        lemma_replay_concat(b, first, seq![pivot]);
        lemma_replay_concat(b, head, second.take(rest));
        lemma_solution_names_rings(apply(parted, pivot), m, aux, to, from, rest);
    }
}

/// From a board with the rings `1..=n` stacked on one tower, the solution is
/// legal from its first move to its last, each of its moves records the ring
/// that it takes, and it ends with the same stack on the destination tower
/// and nothing on the other two.
pub proof fn lemma_solution_solves(n: nat, from: Tower, to: Tower, aux: Tower)
    requires
        from != to,
        from != aux,
        to != aux,
    ensures
        all_legal(stacked_on(n, from), solution(n, from, to, aux)),
        forall|k: int|
            0 <= k < solution(n, from, to, aux).len() ==> #[trigger] names_ring_at(
                stacked_on(n, from),
                solution(n, from, to, aux),
                k,
            ),
        replay(stacked_on(n, from), solution(n, from, to, aux)) == stacked_on(n, to),
{
    let b = stacked_on(n, from);
    assert(b[from.index()].skip(n - n) =~= descending(n));
    assert(b[from.index()].take(n - n) =~= Seq::<nat>::empty());
    lemma_solution_carries(b, n, from, to, aux);
    assert(Seq::<nat>::empty() + descending(n) =~= descending(n));
    assert(carried(b, n, from, to) =~= stacked_on(n, to));
    let whole = solution(n, from, to, aux);
    assert forall|k: int| 0 <= k < whole.len() implies #[trigger] names_ring_at(b, whole, k) by {
        lemma_solution_names_rings(b, n, from, to, aux, k);
    }
}

/// Whether a move is legal, and what it does, depends on its two towers and
/// not on the ring size it records.
pub proof fn lemma_ring_size_is_not_consulted(b: Board, m1: Move, m2: Move)
    requires
        same_towers(m1, m2),
    ensures
        move_legal(b, m1) == move_legal(b, m2),
        apply(b, m1) == apply(b, m2),
{
}

/// Whether a ring may be moved between two towers depends on nothing but the
/// top rings of those two towers.
pub proof fn lemma_legality_is_decided_by_tops(b1: Board, b2: Board, from: int, to: int)
    requires
        b1.len() == b2.len(),
        0 <= from < b1.len() ==> top(b1[from]) == top(b2[from]),
        0 <= to < b1.len() ==> top(b1[to]) == top(b2[to]),
    ensures
        legal(b1, from, to) == legal(b2, from, to),
{
}

/// Generation is determined by its inputs: two solvers that hold the same
/// moves and are extended for the same number of rings and the same towers
/// hold the same moves afterwards, record by record.
pub proof fn lemma_generation_is_deterministic(
    a: Solver,
    a_after: Solver,
    b: Solver,
    b_after: Solver,
    n: nat,
    from: Tower,
    to: Tower,
    aux: Tower,
)
    requires
        a.moves@ == b.moves@,
        a.extended_by(&a_after, n, from, to, aux),
        b.extended_by(&b_after, n, from, to, aux),
    ensures
        a_after.moves@ == b_after.moves@,
{
    let x = a_after.moves@;
    let y = b_after.moves@;
    assert(moves_of(x) == moves_of(y));
    assert(x.len() == moves_of(x).len());
    assert(y.len() == moves_of(y).len());
    assert forall|i: int| 0 <= i < x.len() implies x[i] == y[i] by {
        assert(moves_of(x)[i] == x[i]@);
        assert(moves_of(y)[i] == y[i]@);
        HanoiMove::lemma_view_injective(x[i], y[i]);
    }
    assert(x =~= y);
}

} // verus!
