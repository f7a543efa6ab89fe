//! Tests of the enumeration engine: the recursive walks, the seeder, the
//! workers, and the top-level solve.
use camel_solver::calculate::{
    calculate_game_terminal_states, calculate_round_and_game_terminal_states, seed_stack,
    solve_probabilities, start_worker, terminal_node_heuristic, terminal_round_states_from_board,
    SolveError,
};
use camel_solver::game::GameState;
use camel_solver::work_queue::WorkItem;
use crossbeam::queue::ArrayQueue;

fn state(positions: Vec<u8>, rolled: Vec<bool>, target: u8) -> GameState {
    GameState { positions, rolled, target }
}

/// A toy race: two racers side by side, one unresolved die, and every roll
/// keeps racer 0 ahead of racer 1. Enumerated one ply deep by the joint
/// walk, the round and game tallies are identical and both count one leaf
/// per possible roll.
#[test]
fn toy_game_one_die_depth_one() {
    let board = state(vec![0, 0], vec![false, true], 5);
    assert!(board.check_wf());
    assert_eq!(board.num_unrolled(), 1);
    assert_eq!(board.potential_moves().len(), 3);
    let (game, round, tiles) = calculate_round_and_game_terminal_states(&board, 1, 0);
    assert_eq!(game.count_terminal(), 3);
    assert_eq!(round.count_terminal(), 3);
    assert_eq!(tiles.total(), 0);
    // every roll advances racer 0, so racer 0 finishes first in each leaf
    assert_eq!(game.count(&vec![0, 1]), 3);
    assert_eq!(round.count(&vec![0, 1]), 3);
    assert_eq!(game.count(&vec![1, 0]), 0);
    // the odds derived from each tally sum to one across all signatures
    let mut sum: f64 = 0.0;
    for (_, count) in game.entries_list() {
        sum += count as f64 / game.count_terminal() as f64;
    }
    assert!((sum - 1.0).abs() < 1e-12);
}

/// A full round of the two-racer game through the solve: the game odds
/// derived from the merged tally sum to one. (The seed target is twice the
/// worker count, so the worker count must give the seeding enough capacity
/// for the board's six-way branching: three workers seed exactly.)
#[test]
fn toy_game_odds_sum_to_one() {
    let board = state(vec![0, 0], vec![false, false], 200);
    let result = solve_probabilities(board, 2, 3).unwrap();
    let total = result.game_positions.count_terminal();
    assert_eq!(total, 18);
    let mut sum: f64 = 0.0;
    for (_, count) in result.game_positions.entries_list() {
        sum += count as f64 / total as f64;
    }
    assert!((sum - 1.0).abs() < 1e-12);
}

/// Determinism under parallelism: the merged tallies are identical for
/// worker counts 1, 2 and 8 on the same input.
#[test]
fn determinism_across_worker_counts() {
    let board = state(vec![0, 0, 0], vec![false, false, false], 200);
    let r1 = solve_probabilities(board.clone(), 4, 7).unwrap();
    let r2 = solve_probabilities(board.clone(), 4, 12).unwrap();
    let r8 = solve_probabilities(board, 4, 17).unwrap();
    // 9, 6 and 3 rolls along the first round, then 9 in the next round
    assert_eq!(r1.game_positions.count_terminal(), 1458);
    assert_eq!(r2.game_positions.count_terminal(), 1458);
    assert_eq!(r8.game_positions.count_terminal(), 1458);
    // 162 paths reach the transition ply where the round concludes
    assert_eq!(r1.round_positions.count_terminal(), 162);
    assert_eq!(r2.round_positions.count_terminal(), 162);
    assert_eq!(r8.round_positions.count_terminal(), 162);
    for (sig, count) in r1.game_positions.entries_list() {
        assert_eq!(r2.game_positions.count(&sig), count);
        assert_eq!(r8.game_positions.count(&sig), count);
    }
    for (sig, count) in r1.round_positions.entries_list() {
        assert_eq!(r2.round_positions.count(&sig), count);
        assert_eq!(r8.round_positions.count(&sig), count);
    }
}

/// Conservation of mass: the solve's game tally equals what one sequential,
/// unseeded walk of the same position and depth produces.
#[test]
fn conservation_against_sequential_walk() {
    let board = state(vec![0, 0, 0], vec![false, false, false], 200);
    let solved = solve_probabilities(board.clone(), 3, 7).unwrap();
    let sequential = calculate_game_terminal_states(&board, 3);
    assert_eq!(
        solved.game_positions.count_terminal(),
        sequential.count_terminal()
    );
    for (sig, count) in sequential.entries_list() {
        assert_eq!(solved.game_positions.count(&sig), count);
    }
}

/// Mode-switch correctness: with the transition depth strictly between zero
/// and the requested depth, the round tally counts exactly the paths that
/// reach the transition ply and never exceeds the game tally.
#[test]
fn mode_switch_round_versus_game() {
    let board = state(vec![0, 0, 0], vec![false, false, false], 200);
    // depth 5, 3 unresolved dice: the round ends 3 plies down, at depth 2
    let (game, round, _) = calculate_round_and_game_terminal_states(&board, 5, 2);
    assert_eq!(round.count_terminal(), 162);
    assert_eq!(game.count_terminal(), 162 * 54);
    assert!(round.count_terminal() <= game.count_terminal());
    // the same through the solve, whose seeding stays above the transition
    let solved = solve_probabilities(board, 5, 7).unwrap();
    assert_eq!(solved.round_positions.count_terminal(), 162);
    assert_eq!(solved.round_terminal_states, 162);
    assert_eq!(solved.game_positions.count_terminal(), 162 * 54);
}

/// Seeding exactness: after seeding with target `2W`, the queue holds at
/// least `2W` items.
#[test]
fn seeding_reaches_target() {
    let board = state(vec![0, 0], vec![false, false], 200);
    let mut queue: ArrayQueue<WorkItem> = ArrayQueue::new(6);
    assert!(queue.push(WorkItem { state: board, depth: 3 }).is_ok());
    let seeded = seed_stack(&mut queue, 6);
    assert!(seeded.is_ok());
    assert!(queue.len() >= 6);
}

/// A terminal initial position cannot be expanded: seeding fails instead of
/// silently running under-parallel.
#[test]
fn seeding_underflow_on_terminal_state() {
    let board = state(vec![5, 0], vec![false, false], 5);
    let mut queue: ArrayQueue<WorkItem> = ArrayQueue::new(4);
    assert!(queue.push(WorkItem { state: board, depth: 3 }).is_ok());
    match seed_stack(&mut queue, 4) {
        Err(SolveError::SeedUnderflow { achieved, target }) => {
            assert_eq!(achieved, 1);
            assert_eq!(target, 4);
        }
        other => panic!("expected a seeding underflow, got {:?}", other),
    }
}

/// A depth budget of zero cannot be expanded either.
#[test]
fn seeding_underflow_on_zero_depth() {
    let board = state(vec![0, 0], vec![false, false], 5);
    let mut queue: ArrayQueue<WorkItem> = ArrayQueue::new(4);
    assert!(queue.push(WorkItem { state: board, depth: 0 }).is_ok());
    assert!(matches!(
        seed_stack(&mut queue, 4),
        Err(SolveError::SeedUnderflow { achieved: 1, target: 4 })
    ));
}

/// A branching factor above the queue's capacity overflows the queue during
/// seeding: six successors cannot fit in a queue of four.
#[test]
fn seeding_overflow_on_small_capacity() {
    let board = state(vec![0, 0], vec![false, false], 200);
    let mut queue: ArrayQueue<WorkItem> = ArrayQueue::new(4);
    assert!(queue.push(WorkItem { state: board, depth: 3 }).is_ok());
    assert!(matches!(
        seed_stack(&mut queue, 4),
        Err(SolveError::QueueOverflow { capacity: 4 })
    ));
}

/// Idempotent base cases: a position that is already terminal contributes
/// exactly one leaf, its true outcome, to both tallies at a positive depth,
/// identical to enumerating it at depth zero.
#[test]
fn terminal_state_idempotent_in_depth() {
    let board = state(vec![5, 0], vec![false, true], 5);
    let (game_deep, round_deep, _) = calculate_round_and_game_terminal_states(&board, 4, 2);
    let (game_zero, round_zero, _) = calculate_round_and_game_terminal_states(&board, 0, 2);
    assert_eq!(game_deep.count_terminal(), 1);
    assert_eq!(round_deep.count_terminal(), 1);
    assert_eq!(game_deep.count(&vec![0, 1]), 1);
    assert_eq!(round_deep.count(&vec![0, 1]), 1);
    assert_eq!(game_zero.count(&vec![0, 1]), 1);
    assert_eq!(round_zero.count(&vec![0, 1]), 1);
    assert_eq!(game_deep.count_terminal(), game_zero.count_terminal());
    assert_eq!(round_deep.count_terminal(), round_zero.count_terminal());
}

/// A depth budget below the number of unresolved dice is rejected, not
/// silently underflowed.
#[test]
fn depth_below_unrolled_is_rejected() {
    let board = state(vec![0, 0], vec![false, false], 5);
    assert!(matches!(
        solve_probabilities(board, 1, 1),
        Err(SolveError::DepthBelowUnrolled { depth: 1, unrolled: 2 })
    ));
}

/// A worker drains the queue completely and returns the tallies its items
/// owed.
#[test]
fn worker_drains_queue() {
    let board = state(vec![0, 0], vec![false, true], 5);
    let mut queue: ArrayQueue<WorkItem> = ArrayQueue::new(4);
    assert!(queue.push(WorkItem { state: board.clone(), depth: 1 }).is_ok());
    assert!(queue.push(WorkItem { state: board, depth: 1 }).is_ok());
    let (game, round, tiles) = start_worker(&mut queue, 0);
    assert_eq!(queue.len(), 0);
    assert_eq!(game.count_terminal(), 6);
    assert_eq!(round.count_terminal(), 6);
    assert_eq!(tiles.total(), 0);
}

/// The heuristic outcome of a cutoff leaf is the ranking the position shows.
#[test]
fn heuristic_is_current_ranking() {
    let board = state(vec![3, 5, 0], vec![false, false, false], 9);
    assert_eq!(terminal_node_heuristic(&board), vec![1, 0, 2]);
    assert_eq!(terminal_node_heuristic(&board), board.camel_order());
}

/// The per-round leaf bound: unresolved dice raised to the largest face.
#[test]
fn round_states_bound() {
    let three_dice = state(vec![0, 0, 0], vec![false, false, false], 9);
    assert_eq!(terminal_round_states_from_board(three_dice), 27);
    let two_dice = state(vec![0, 0, 0], vec![false, true, false], 9);
    assert_eq!(terminal_round_states_from_board(two_dice), 8);
}
