use hanoi::{play, Game, HanoiMove, Solver, Tower};
use std::collections::{HashMap, VecDeque};

type Towers = Vec<Vec<usize>>;

fn every_move() -> Vec<HanoiMove> {
    let towers = [Tower::First, Tower::Second, Tower::Third];
    let mut moves = Vec::new();
    for from in towers {
        for to in towers {
            if from != to {
                moves.push(HanoiMove::new(0, from, to));
            }
        }
    }
    moves
}

fn after(num_rings: usize, path: &Vec<HanoiMove>) -> Game {
    let mut game = Game::new(num_rings);
    game.replay(path);
    game
}

/// For every board that can be reached: the length of the shortest ways to
/// it, how many they are, and one of them.
fn shortest_ways(num_rings: usize) -> HashMap<Towers, (usize, u64, Vec<HanoiMove>)> {
    let mut found: HashMap<Towers, (usize, u64, Vec<HanoiMove>)> = HashMap::new();
    let mut queue: VecDeque<Towers> = VecDeque::new();
    let start = Game::new(num_rings).towers().clone();
    found.insert(start.clone(), (0, 1, Vec::new()));
    queue.push_back(start);
    while let Some(here) = queue.pop_front() {
        let (length, ways, path) = found[&here].clone();
        for m in every_move() {
            let mut game = after(num_rings, &path);
            if game.try_move_ring(&m).is_err() {
                continue;
            }
            let there = game.towers().clone();
            if let Some(entry) = found.get_mut(&there) {
                if entry.0 == length + 1 {
                    entry.1 += ways;
                }
            } else {
                let mut longer = path.clone();
                longer.push(m);
                found.insert(there.clone(), (length + 1, ways, longer));
                queue.push_back(there);
            }
        }
    }
    found
}

#[test]
fn play_ends_with_all_rings_on_the_third_tower() {
    for n in 0..=10usize {
        let game = play(n);
        assert_eq!(game.num_rings(), n);
        let all: Vec<usize> = (1..=n).rev().collect();
        assert_eq!(game.towers(), &vec![Vec::new(), Vec::new(), all]);
    }
}

#[test]
fn play_without_rings_leaves_the_board_empty() {
    let game = play(0);
    assert_eq!(game.towers(), Game::new(0).towers());
}

#[test]
fn play_three_rings() {
    let game = play(3);
    assert_eq!(game.towers(), &vec![vec![], vec![], vec![3, 2, 1]]);
}

#[test]
fn every_board_can_be_reached() {
    let mut boards: usize = 1;
    for n in 0..=5usize {
        assert_eq!(shortest_ways(n).len(), boards);
        boards *= 3;
    }
}

#[test]
fn no_way_is_shorter_than_the_solution() {
    let mut expected: usize = 1;
    for n in 0..=5usize {
        let found = shortest_ways(n);
        let goal = play(n).towers().clone();
        assert_eq!(found[&goal].0, expected - 1);
        expected *= 2;
    }
}

#[test]
fn the_shortest_way_is_the_solution() {
    for n in 0..=5usize {
        let found = shortest_ways(n);
        let goal = play(n).towers().clone();
        let (_, ways, shortest) = found[&goal].clone();
        assert_eq!(ways, 1);
        let mut solver = Solver::new(n);
        solver.solve();
        assert_eq!(shortest.len(), solver.moves.len());
        for (a, b) in shortest.iter().zip(solver.moves.iter()) {
            assert_eq!((a.from(), a.to()), (b.from(), b.to()));
        }
    }
}
