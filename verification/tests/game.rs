use hanoi::{Game, HanoiMove, Solver, Tower};

fn empty() -> Vec<usize> {
    Vec::new()
}

#[test]
fn new_game_stacks_all_rings_on_the_first_tower() {
    let game = Game::new(4);
    assert_eq!(game.num_rings(), 4);
    assert_eq!(game.towers(), &vec![vec![4, 3, 2, 1], empty(), empty()]);
}

#[test]
fn new_game_without_rings_is_empty() {
    let game = Game::new(0);
    assert_eq!(game.num_rings(), 0);
    assert_eq!(game.towers(), &vec![empty(), empty(), empty()]);
}

#[test]
fn game_without_rings_is_unchanged_by_its_solution() {
    let mut game = Game::new(0);
    let mut solver = Solver::new(0);
    solver.solve();
    assert_eq!(solver.moves.len(), 0);
    game.replay(&solver.moves);
    assert_eq!(game.towers(), Game::new(0).towers());
    assert_eq!(game.towers(), &vec![empty(), empty(), empty()]);
}

#[test]
fn legal_move_takes_the_top_ring_across() {
    let mut game = Game::new(3);
    game.move_ring(&HanoiMove::new(1, Tower::First, Tower::Third));
    assert_eq!(game.towers(), &vec![vec![3, 2], empty(), vec![1]]);
    game.move_ring(&HanoiMove::new(2, Tower::First, Tower::Second));
    assert_eq!(game.towers(), &vec![vec![3], vec![2], vec![1]]);
    game.move_ring(&HanoiMove::new(1, Tower::Third, Tower::Second));
    assert_eq!(game.towers(), &vec![vec![3], vec![2, 1], empty()]);
    assert_eq!(game.num_rings(), 3);
}

#[test]
fn can_move_follows_the_tops() {
    let mut game = Game::new(2);
    assert!(game.can_move(0, 1));
    assert!(game.can_move(0, 2));
    assert!(!game.can_move(1, 0));
    assert!(!game.can_move(2, 0));
    assert!(!game.can_move(1, 2));
    assert!(!game.can_move(0, 0));
    assert!(!game.can_move(1, 1));
    game.move_ring(&HanoiMove::new(1, Tower::First, Tower::Second));
    assert!(game.can_move(0, 2));
    assert!(!game.can_move(0, 1));
    assert!(game.can_move(1, 0));
    assert!(game.can_move(1, 2));
    assert!(!game.can_move(2, 1));
}

#[test]
fn three_rings_replayed_end_on_the_third_tower() {
    let mut game = Game::new(3);
    let mut solver = Solver::new(3);
    solver.solve();
    assert_eq!(solver.moves.len(), 7);
    for m in &solver.moves {
        assert_eq!(game.try_move_ring(m), Ok(()));
    }
    assert_eq!(game.towers(), &vec![empty(), empty(), vec![3, 2, 1]]);
}

#[test]
fn solution_is_never_refused() {
    for n in 0..=12usize {
        let mut game = Game::new(n);
        let mut solver = Solver::new(n);
        solver.solve();
        for m in &solver.moves {
            assert!(game.can_move(m.index_of_from(), m.index_of_to()));
            assert!(game.try_move_ring(m).is_ok());
        }
        let all: Vec<usize> = (1..=n).rev().collect();
        assert_eq!(game.towers(), &vec![empty(), empty(), all]);
    }
}

#[test]
fn every_board_on_the_way_is_well_stacked() {
    let n = 6usize;
    let mut game = Game::new(n);
    let mut solver = Solver::new(n);
    solver.solve();
    for m in &solver.moves {
        game.move_ring(m);
        let mut seen: Vec<usize> = Vec::new();
        for tower in game.towers() {
            for pair in tower.windows(2) {
                assert!(pair[0] > pair[1]);
            }
            seen.extend(tower.iter());
        }
        seen.sort();
        assert_eq!(seen, (1..=n).collect::<Vec<usize>>());
    }
}

#[test]
fn recorded_ring_moved_is_the_ring_on_top() {
    let n = 5usize;
    let mut game = Game::new(n);
    let mut solver = Solver::new(n);
    solver.solve();
    for m in &solver.moves {
        let top = *game.towers()[m.index_of_from()].last().unwrap();
        assert_eq!(m.ring(), top);
        game.move_ring(m);
    }
}

#[test]
fn replay_makes_every_move() {
    let mut game = Game::new(4);
    let mut solver = Solver::new(4);
    solver.move_ring(4, &Tower::First, &Tower::Second, &Tower::Third);
    game.replay(&solver.moves);
    assert_eq!(game.towers(), &vec![empty(), vec![4, 3, 2, 1], empty()]);
    let mut back = Solver::new(4);
    back.move_ring(4, &Tower::Second, &Tower::First, &Tower::Third);
    game.replay(&back.moves);
    assert_eq!(game.towers(), Game::new(4).towers());
}

#[test]
fn wrong_ring_size_does_not_change_the_outcome() {
    let mut honest = Game::new(3);
    let mut stale = Game::new(3);
    let steps = [
        (Tower::First, Tower::Third, 1usize),
        (Tower::First, Tower::Second, 2),
        (Tower::First, Tower::Second, 3),
        (Tower::Second, Tower::Third, 2),
        (Tower::Third, Tower::Second, 1),
        (Tower::Second, Tower::Second, 1),
        (Tower::Third, Tower::First, 1),
    ];
    for (from, to, ring) in steps {
        let a = honest.try_move_ring(&HanoiMove::new(ring, from, to));
        let b = stale.try_move_ring(&HanoiMove::new(ring + 40, from, to));
        assert_eq!(a, b);
        assert_eq!(honest.towers(), stale.towers());
    }
    assert_eq!(honest.towers(), &vec![vec![3], vec![2, 1], empty()]);
}

#[test]
fn move_with_stale_ring_size_is_made() {
    let mut game = Game::new(2);
    assert_eq!(game.try_move_ring(&HanoiMove::new(2, Tower::First, Tower::Second)), Ok(()));
    assert_eq!(game.towers(), &vec![vec![2], vec![1], empty()]);
    assert_eq!(game.try_move_ring(&HanoiMove::new(0, Tower::First, Tower::Third)), Ok(()));
    assert_eq!(game.towers(), &vec![empty(), vec![1], vec![2]]);
}

#[test]
fn move_from_an_empty_tower_is_refused() {
    let mut game = Game::new(2);
    let outcome = game.try_move_ring(&HanoiMove::new(1, Tower::Second, Tower::Third));
    let refused = outcome.unwrap_err();
    assert_eq!(refused.from, Tower::Second);
    assert_eq!(refused.to, Tower::Third);
    assert_eq!(refused.towers, vec![vec![2, 1], empty(), empty()]);
    assert_eq!(game.towers(), &vec![vec![2, 1], empty(), empty()]);
}

#[test]
fn larger_ring_onto_smaller_is_refused() {
    let mut game = Game::new(2);
    assert_eq!(game.try_move_ring(&HanoiMove::new(1, Tower::First, Tower::Second)), Ok(()));
    let outcome = game.try_move_ring(&HanoiMove::new(2, Tower::First, Tower::Second));
    let refused = outcome.unwrap_err();
    assert_eq!(refused.from, Tower::First);
    assert_eq!(refused.to, Tower::Second);
    assert_eq!(refused.towers, vec![vec![2], vec![1], empty()]);
    assert_eq!(game.towers(), &vec![vec![2], vec![1], empty()]);
    assert!(!game.can_move(0, 1));
}

#[test]
fn move_onto_the_same_tower_is_refused() {
    let mut game = Game::new(2);
    let outcome = game.try_move_ring(&HanoiMove::new(1, Tower::First, Tower::First));
    assert!(outcome.is_err());
    assert_eq!(game.towers(), &vec![vec![2, 1], empty(), empty()]);
}

#[test]
fn refused_move_leaves_the_game_playable() {
    let mut game = Game::new(1);
    assert!(game.try_move_ring(&HanoiMove::new(1, Tower::Third, Tower::First)).is_err());
    assert_eq!(game.try_move_ring(&HanoiMove::new(1, Tower::First, Tower::Third)), Ok(()));
    assert_eq!(game.towers(), &vec![empty(), empty(), vec![1]]);
}
