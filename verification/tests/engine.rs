use zwovieracht::game::{Direction, Game};
use zwovieracht::game::find_ith_occurrence;
use zwovieracht::game::translate;

fn game(cells: &[u8]) -> Game {
    Game { board: cells.to_vec() }
}

fn face_sum(g: &Game) -> u64 {
    let mut sum: u64 = 0;
    for &r in g.board.iter() {
        if r > 0 {
            sum += 1u64 << r;
        }
    }
    sum
}

fn count_nonzero(g: &Game) -> usize {
    g.board.iter().filter(|&&x| x != 0).count()
}

#[test]
fn test_shift() {
    let board = game(&[0, 0, 1, 3,
                       0, 2, 2, 1,
                       2, 2, 2, 2,
                       1, 0, 1, 0]);

    let (left, left_delta) = board.shift(&Direction::Left);
    assert_eq!(left.board, vec![1, 3, 0, 0,
                                3, 1, 0, 0,
                                3, 3, 0, 0,
                                2, 0, 0, 0]);
    assert_eq!(left_delta, 8 * 3 + 4);

    let (up, up_delta) = board.shift(&Direction::Up);
    assert_eq!(up.board, vec![2, 3, 1, 3,
                              1, 0, 3, 1,
                              0, 0, 1, 2,
                              0, 0, 0, 0]);
    assert_eq!(up_delta, 8 * 2);

    let (right, right_delta) = board.shift(&Direction::Right);
    assert_eq!(right.board, vec![0, 0, 1, 3,
                                 0, 0, 3, 1,
                                 0, 0, 3, 3,
                                 0, 0, 0, 2]);
    assert_eq!(right_delta, 8 * 3 + 4);

    let (down, down_delta) = board.shift(&Direction::Down);
    assert_eq!(down.board, vec![0, 0, 0, 0,
                                0, 0, 1, 3,
                                2, 0, 3, 1,
                                1, 3, 1, 2]);
    assert_eq!(down_delta, 8 * 2);
}

#[test]
fn test_is_done() {
    assert!(!game(&[0, 0, 0, 0,
                    0, 0, 1, 3,
                    2, 0, 3, 1,
                    1, 3, 1, 2]).is_done());

    assert!(game(&[1, 2, 1, 2,
                   2, 1, 2, 1,
                   1, 2, 1, 2,
                   2, 1, 2, 1]).is_done());
}

#[test]
fn shift_conserves_face_value() {
    let board = game(&[0, 0, 1, 3, 0, 2, 2, 1, 2, 2, 2, 2, 1, 0, 1, 0]);
    let before = face_sum(&board);
    for d in [Direction::Left, Direction::Up, Direction::Right, Direction::Down] {
        let (moved, _) = board.shift(&d);
        assert_eq!(face_sum(&moved), before);
    }
}

#[test]
fn settled_board_shift_is_noop() {
    // every row compacted to the left, no equal neighbours anywhere in a row
    let settled = game(&[1, 2, 0, 0, 3, 1, 0, 0, 2, 0, 0, 0, 0, 0, 0, 0]);
    let (moved, delta) = settled.shift(&Direction::Left);
    assert_eq!(moved.board, settled.board);
    assert_eq!(delta, 0);
}

#[test]
fn new_game_has_two_starting_tiles() {
    for _ in 0..40 {
        let g = Game::new();
        assert_eq!(g.board.len(), 16);
        assert_eq!(count_nonzero(&g), 2);
        assert!(g.board.iter().all(|&r| r <= 2));
    }
}

#[test]
fn spawn_fills_one_empty_cell() {
    let before = game(&[0, 0, 1, 3, 0, 2, 2, 1, 2, 2, 2, 2, 1, 0, 1, 0]);
    let mut after = game(&before.board);
    after.add_number();
    let mut changed = 0;
    for p in 0..16 {
        if after.board[p] != before.board[p] {
            changed += 1;
            assert_eq!(before.board[p], 0);
            assert!(after.board[p] == 1 || after.board[p] == 2);
        }
    }
    assert_eq!(changed, 1);
}

#[test]
fn spawn_on_full_board_changes_nothing() {
    let full = game(&[1, 2, 1, 2, 2, 1, 2, 1, 1, 2, 1, 2, 2, 1, 2, 1]);
    let mut after = game(&full.board);
    after.add_number();
    assert_eq!(after.board, full.board);
}

#[test]
fn spawn_ranks_follow_the_seven_to_one_ratio() {
    let mut twos: u32 = 0;
    let trials: u32 = 4000;
    for _ in 0..trials {
        let mut g = game(&[0; 16]);
        g.add_number();
        let spawned: Vec<u8> = g.board.iter().copied().filter(|&x| x != 0).collect();
        assert_eq!(spawned.len(), 1);
        if spawned[0] == 2 {
            twos += 1;
        }
    }
    // one spawn in eight is expected to be a rank-2 tile
    assert!(twos >= 350 && twos <= 650, "rank-2 spawns out of range: {}", twos);
}

#[test]
fn step_moves_then_spawns_then_detects() {
    let board = game(&[0, 0, 1, 3, 0, 2, 2, 1, 2, 2, 2, 2, 1, 0, 1, 0]);
    let (next, delta, done) = board.step(&Direction::Left);
    assert_eq!(delta, 28);
    let shifted = vec![1u8, 3, 0, 0, 3, 1, 0, 0, 3, 3, 0, 0, 2, 0, 0, 0];
    let mut changed = 0;
    for p in 0..16 {
        if next.board[p] != shifted[p] {
            changed += 1;
            assert_eq!(shifted[p], 0);
            assert!(next.board[p] == 1 || next.board[p] == 2);
        }
    }
    assert_eq!(changed, 1);
    assert!(!done);
}

#[test]
fn find_ith_occurrence_picks_by_count() {
    let board = vec![0u8, 5, 0, 5, 1, 5, 0, 0, 2, 3, 4, 5, 0, 0, 0, 9];
    assert_eq!(find_ith_occurrence(&board, 0, 5), Some(1));
    assert_eq!(find_ith_occurrence(&board, 1, 5), Some(3));
    assert_eq!(find_ith_occurrence(&board, 3, 5), Some(11));
    assert_eq!(find_ith_occurrence(&board, 4, 5), None);
    assert_eq!(find_ith_occurrence(&board, 0, 7), None);
    assert_eq!(find_ith_occurrence(&board, 6, 0), Some(14));
}

#[test]
fn translate_maps_all_four_directions() {
    // Left is the identity mapping on row-major order
    assert_eq!(translate(1, 2, &Direction::Left), 6);
    // Up reads physical columns as logical rows
    assert_eq!(translate(1, 2, &Direction::Up), 9);
    // Right reflects Left through the board's centre
    assert_eq!(translate(1, 2, &Direction::Right), 9);
    // Down reflects Up through the board's centre
    assert_eq!(translate(1, 2, &Direction::Down), 6);
    assert_eq!(translate(0, 0, &Direction::Right), 15);
    assert_eq!(translate(0, 0, &Direction::Down), 15);
}
