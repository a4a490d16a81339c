use hanoi::{HanoiMove, Solver, Tower};

fn solved(num_rings: usize) -> Vec<HanoiMove> {
    let mut solver = Solver::new(num_rings);
    solver.solve();
    solver.moves
}

#[test]
fn new_solver_holds_no_moves() {
    let solver = Solver::new(7);
    assert_eq!(solver.num_rings, 7);
    assert!(solver.moves.is_empty());
}

#[test]
fn move_count_is_two_to_the_n_minus_one() {
    let mut expected: usize = 1;
    for n in 0..=16 {
        assert_eq!(solved(n).len(), expected - 1, "rings: {}", n);
        expected *= 2;
    }
}

#[test]
fn ten_rings_take_1023_moves() {
    assert_eq!(solved(10).len(), 1023);
}

#[test]
fn no_rings_no_moves() {
    assert_eq!(solved(0), vec![]);
}

#[test]
fn one_ring_one_move() {
    assert_eq!(solved(1), vec![HanoiMove::new(1, Tower::First, Tower::Third)]);
}

#[test]
fn one_ring_between_any_towers() {
    let mut solver = Solver::new(1);
    solver.move_ring(1, &Tower::Second, &Tower::First, &Tower::Third);
    assert_eq!(solver.moves, vec![HanoiMove::new(1, Tower::Second, Tower::First)]);
}

#[test]
fn two_rings_use_the_spare_tower() {
    assert_eq!(
        solved(2),
        vec![
            HanoiMove::new(1, Tower::First, Tower::Second),
            HanoiMove::new(2, Tower::First, Tower::Third),
            HanoiMove::new(1, Tower::Second, Tower::Third),
        ]
    );
}

#[test]
fn three_rings_move_sequence() {
    assert_eq!(
        solved(3),
        vec![
            HanoiMove::new(1, Tower::First, Tower::Third),
            HanoiMove::new(2, Tower::First, Tower::Second),
            HanoiMove::new(1, Tower::Third, Tower::Second),
            HanoiMove::new(3, Tower::First, Tower::Third),
            HanoiMove::new(1, Tower::Second, Tower::First),
            HanoiMove::new(2, Tower::Second, Tower::Third),
            HanoiMove::new(1, Tower::First, Tower::Third),
        ]
    );
}

#[test]
fn generation_is_repeatable() {
    for n in 0..=8 {
        assert_eq!(solved(n), solved(n));
    }
    let mut a = Solver::new(5);
    let mut b = Solver::new(5);
    a.move_ring(4, &Tower::Third, &Tower::First, &Tower::Second);
    b.move_ring(4, &Tower::Third, &Tower::First, &Tower::Second);
    assert_eq!(a.moves, b.moves);
    assert_eq!(a.moves.len(), 15);
}

#[test]
fn solve_appends_to_the_moves_already_held() {
    let mut solver = Solver::new(2);
    solver.solve();
    solver.solve();
    assert_eq!(solver.num_rings, 2);
    assert_eq!(solver.moves.len(), 6);
    assert_eq!(solver.moves[..3], solver.moves[3..]);
    assert_eq!(solver.moves[..3], solved(2)[..]);
}

#[test]
fn move_ring_with_no_rings_appends_nothing() {
    let mut solver = Solver::new(3);
    solver.move_ring(0, &Tower::First, &Tower::Third, &Tower::Second);
    assert!(solver.moves.is_empty());
    solver.move_ring(2, &Tower::First, &Tower::Second, &Tower::Third);
    let held = solver.moves.clone();
    solver.move_ring(0, &Tower::Second, &Tower::First, &Tower::Third);
    assert_eq!(solver.moves, held);
}

#[test]
fn largest_ring_moves_once_in_the_middle() {
    for n in 1..=9usize {
        let moves = solved(n);
        let middle = moves.len() / 2;
        assert_eq!(moves[middle], HanoiMove::new(n, Tower::First, Tower::Third));
        let count = moves.iter().filter(|m| m.ring() == n).count();
        assert_eq!(count, 1);
    }
}

#[test]
fn move_record_keeps_its_fields() {
    let m = HanoiMove::new(4, Tower::Second, Tower::Third);
    assert_eq!(m.ring(), 4);
    assert_eq!(m.from(), Tower::Second);
    assert_eq!(m.to(), Tower::Third);
}

#[test]
fn towers_map_to_positions() {
    let a = HanoiMove::new(1, Tower::First, Tower::Second);
    let b = HanoiMove::new(1, Tower::Second, Tower::Third);
    let c = HanoiMove::new(1, Tower::Third, Tower::First);
    assert_eq!((a.index_of_from(), a.index_of_to()), (0, 1));
    assert_eq!((b.index_of_from(), b.index_of_to()), (1, 2));
    assert_eq!((c.index_of_from(), c.index_of_to()), (2, 0));
}
