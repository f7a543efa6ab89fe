//! Tests of the board model and the outcome tallies.
use camel_solver::accumulators::{PositionAccumulator, TileAccumulator};
use camel_solver::game::{GameState, Roll, MAX_ROLL};

#[test]
fn new_race_starts_at_the_line() {
    let board = GameState::new_race(4, 16);
    assert!(board.check_wf());
    assert!(!board.is_terminal());
    assert_eq!(board.positions, vec![0, 0, 0, 0]);
    assert_eq!(board.num_unrolled(), 4);
    assert_eq!(board.potential_moves().len(), 4 * MAX_ROLL as usize);
}

#[test]
fn camel_order_ranks_by_position_with_index_tiebreak() {
    let board = GameState { positions: vec![3, 5, 0], rolled: vec![false; 3], target: 9 };
    assert_eq!(board.camel_order(), vec![1, 0, 2]);
    let tied = GameState { positions: vec![2, 2, 7], rolled: vec![false; 3], target: 9 };
    // the racer with the lower index wins a tie
    assert_eq!(tied.camel_order(), vec![1, 2, 0]);
}

#[test]
fn update_advances_and_marks_the_die() {
    let board = GameState { positions: vec![0, 0], rolled: vec![false, false], target: 9 };
    let next = board.update(&Roll { racer: 1, spaces: 2 });
    assert_eq!(next.positions, vec![0, 2]);
    assert_eq!(next.rolled, vec![false, true]);
    assert_eq!(next.num_unrolled(), 1);
}

#[test]
fn update_stops_at_the_finish_tile() {
    let board = GameState { positions: vec![8, 0], rolled: vec![false, false], target: 9 };
    let next = board.update(&Roll { racer: 0, spaces: 3 });
    assert_eq!(next.positions, vec![9, 0]);
    assert!(next.is_terminal());
}

#[test]
fn resolving_the_last_die_begins_a_new_round() {
    let board = GameState { positions: vec![0, 0], rolled: vec![true, false], target: 9 };
    let next = board.update(&Roll { racer: 1, spaces: 1 });
    // every die was resolved, so a fresh round begins with all dice unresolved
    assert_eq!(next.rolled, vec![false, false]);
    assert_eq!(next.num_unrolled(), 2);
}

#[test]
fn moves_cover_each_unresolved_die_and_face() {
    let board = GameState { positions: vec![0, 0, 0], rolled: vec![true, false, false], target: 9 };
    let moves = board.potential_moves();
    assert_eq!(moves.len(), 6);
    assert_eq!(moves[0], Roll { racer: 1, spaces: 1 });
    assert_eq!(moves[2], Roll { racer: 1, spaces: 3 });
    assert_eq!(moves[3], Roll { racer: 2, spaces: 1 });
}

#[test]
fn check_wf_rejects_malformed_boards() {
    let mismatch = GameState { positions: vec![0, 0], rolled: vec![false], target: 9 };
    assert!(!mismatch.check_wf());
    let past_finish = GameState { positions: vec![10, 0], rolled: vec![false, false], target: 9 };
    assert!(!past_finish.check_wf());
    let all_rolled = GameState { positions: vec![0, 0], rolled: vec![true, true], target: 9 };
    assert!(!all_rolled.check_wf());
    let empty = GameState { positions: vec![], rolled: vec![], target: 9 };
    assert!(!empty.check_wf());
}

#[test]
fn accumulator_counts_and_totals() {
    let mut tally = PositionAccumulator::new();
    assert_eq!(tally.count_terminal(), 0);
    assert_eq!(tally.count(&vec![0, 1]), 0);
    tally.add_count(&vec![0, 1], 2);
    tally.add_count(&vec![1, 0], 1);
    tally.add_count(&vec![0, 1], 3);
    assert_eq!(tally.count(&vec![0, 1]), 5);
    assert_eq!(tally.count(&vec![1, 0]), 1);
    assert_eq!(tally.count_terminal(), 6);
}

#[test]
fn accumulator_join_adds_counts_per_signature() {
    let mut left = PositionAccumulator::new();
    left.add_count(&vec![0, 1], 2);
    let mut right = PositionAccumulator::new();
    right.add_count(&vec![0, 1], 1);
    right.add_count(&vec![1, 0], 4);
    left.join(&right);
    assert_eq!(left.count(&vec![0, 1]), 3);
    assert_eq!(left.count(&vec![1, 0]), 4);
    assert_eq!(left.count_terminal(), 7);
    // merging is order-independent: the other order gives the same totals
    let mut a = PositionAccumulator::new();
    a.add_count(&vec![0, 1], 1);
    a.add_count(&vec![1, 0], 4);
    let mut b = PositionAccumulator::new();
    b.add_count(&vec![0, 1], 2);
    a.join(&b);
    assert_eq!(a.count(&vec![0, 1]), 3);
    assert_eq!(a.count(&vec![1, 0]), 4);
}

#[test]
fn accumulator_entries_list_matches_counts() {
    let mut tally = PositionAccumulator::new();
    tally.add_count(&vec![2, 0, 1], 7);
    tally.add_count(&vec![0, 1, 2], 1);
    let entries = tally.entries_list();
    assert_eq!(entries.len(), 2);
    let mut total = 0u64;
    for (sig, count) in entries {
        assert_eq!(tally.count(&sig), count);
        total += count;
    }
    assert_eq!(total, tally.count_terminal());
}

#[test]
fn tile_accumulator_mirrors_position_tally() {
    let mut tiles = TileAccumulator::new();
    assert_eq!(tiles.total(), 0);
    tiles.add_count(&vec![3], 2);
    let mut more = TileAccumulator::new();
    more.add_count(&vec![3], 1);
    more.add_count(&vec![4], 1);
    tiles.join(&more);
    assert_eq!(tiles.total(), 4);
    let entries = tiles.entries_list();
    assert_eq!(entries.len(), 2);
}
