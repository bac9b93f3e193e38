use connect4::ai::{AiStep, MoveCheck, AI, AI_MOVE_DELAY};
use connect4::board::{Board, GridPosition, MyColor};
use connect4::probability::Probability;

const DIRECTIONS: [(i32, i32); 8] = [
    (1, 0),
    (-1, 0),
    (1, 1),
    (-1, -1),
    (0, 1),
    (0, -1),
    (-1, 1),
    (1, -1),
];

// A board with the given stacks of discs, one per column, bottom disc first.
fn board_of(columns: &[&[i32]]) -> Board {
    let mut board = Board::new(GridPosition::new(0, 0));
    for (col, stack) in columns.iter().enumerate() {
        for team in stack.iter() {
            assert!(board.insert(col as i32, *team, MyColor::White));
        }
    }
    board
}

// Boards filled by a fixed sequence of pseudo-random drops.
fn scrambled_board(seed: u64, drops: usize) -> Board {
    let mut board = Board::new(GridPosition::new(0, 0));
    let mut state = seed;
    for _ in 0..drops {
        state = state
            .wrapping_mul(6364136223846793005)
            .wrapping_add(1442695040888963407);
        let col = ((state >> 33) % 7) as i32;
        let team = ((state >> 41) % 2) as i32 + 1;
        board.insert(col, team, MyColor::White);
    }
    board
}

// The chance as a float: the numerator's limbs, lowest first, over 16 * 420^levels.
fn chance_of(chance: Probability) -> f64 {
    let (limbs, levels) = chance.to_parts();
    let mut num = 0f64;
    for (i, limb) in limbs.iter().enumerate() {
        if *limb != 0 {
            num += (*limb as f64) * 4294967296f64.powi(i as i32);
        }
    }
    num / (16f64 * 420f64.powi(levels as i32))
}

// What a cell is to a team that scans: 'x' blocks, 'o' is its own, '.' is free.
fn mark(board: &Board, col: i32, row: i32, team: i32) -> char {
    let pos = GridPosition::new(col, row);
    if !board.on_board(pos) {
        return 'x';
    }
    let held = board.get_cell_team(pos);
    if held != 0 && held != team {
        'x'
    } else if held == team {
        'o'
    } else {
        '.'
    }
}

// The marks of the cells 1, 2, ..., 7 steps from the origin.
fn marks(board: &Board, origin: (i32, i32), dir: (i32, i32), team: i32) -> Vec<char> {
    (1..=7)
        .map(|k| mark(board, origin.0 + k * dir.0, origin.1 + k * dir.1, team))
        .collect()
}

fn leading(marks: &[char], owned_only: bool) -> i32 {
    let mut n = 0;
    for m in marks {
        if *m == 'o' || (!owned_only && *m == '.') {
            n += 1;
        } else {
            break;
        }
    }
    n
}

// The run on a line, from the streaks ahead of the origin and behind it.
fn expected_run(board: &Board, origin: (i32, i32), dir: (i32, i32), team: i32) -> i32 {
    let fwd = marks(board, origin, dir, team);
    let rev = marks(board, origin, (-dir.0, -dir.1), team);
    let ahead = leading(&fwd, true);
    let behind = leading(&rev, true);
    let reach = 1 + leading(&fwd, false) + leading(&rev, false);
    let gap = ahead < 7 && fwd[ahead as usize] == '.';
    let beyond = if ahead + 1 < 7 {
        leading(&fwd[(ahead + 1) as usize..], true)
    } else {
        0
    };
    if gap && 1 + behind.min(ahead + 1) + ahead >= 4 {
        4
    } else if reach < 4 {
        0
    } else if gap {
        (1 + behind + ahead + beyond).min(3)
    } else {
        (1 + behind + ahead).min(4)
    }
}

#[test]
fn run_lengths_stay_between_0_and_4() {
    for seed in 0..40u64 {
        let board = scrambled_board(seed, 5 + (seed as usize % 30));
        for col in 0..7 {
            for row in 0..6 {
                for dir in DIRECTIONS.iter() {
                    for team in 1..=2 {
                        let run = board.get_run_in_direction(
                            GridPosition::new(col, row),
                            GridPosition::new(dir.0, dir.1),
                            team,
                        );
                        assert!((0..=4).contains(&run));
                    }
                }
            }
        }
    }
}

#[test]
fn run_lengths_follow_the_streaks_on_the_line() {
    for seed in 100..160u64 {
        let board = scrambled_board(seed, 3 + (seed as usize % 36));
        for col in -1..8 {
            for row in -1..7 {
                for dir in DIRECTIONS.iter() {
                    for team in 1..=2 {
                        let run = board.get_run_in_direction(
                            GridPosition::new(col, row),
                            GridPosition::new(dir.0, dir.1),
                            team,
                        );
                        assert_eq!(
                            run,
                            expected_run(&board, (col, row), *dir, team),
                            "seed {} origin ({}, {}) dir {:?} team {}",
                            seed,
                            col,
                            row,
                            dir,
                            team
                        );
                    }
                }
            }
        }
    }
}

#[test]
fn runs_from_point_count_the_eight_scans() {
    for seed in 200..230u64 {
        let board = scrambled_board(seed, 4 + (seed as usize % 30));
        for col in 0..7 {
            for row in 0..6 {
                let runs = board.get_runs_from_point(GridPosition::new(col, row), 1);
                let mut expected = [0i32; 4];
                for dir in DIRECTIONS.iter() {
                    let run = board.get_run_in_direction(
                        GridPosition::new(col, row),
                        GridPosition::new(dir.0, dir.1),
                        1,
                    );
                    if run > 0 {
                        expected[(run - 1) as usize] += 1;
                    }
                }
                assert_eq!(runs, expected);
                assert!(runs.iter().sum::<i32>() <= 8);
            }
        }
    }
}

#[test]
fn discs_lie_on_the_floor_or_on_discs() {
    for seed in 300..340u64 {
        let board = scrambled_board(seed, seed as usize % 60);
        for col in 0..7usize {
            let height = board.get_column_height(col);
            assert!(height <= 6);
            assert_eq!(board.is_column_full(col), height == 6);
            for row in 0..6usize {
                let team = board.get_cell_team(GridPosition::new(col as i32, row as i32));
                assert_eq!(team != 0, row < height);
                assert!(team == 0 || team == 1 || team == 2);
            }
        }
    }
}

#[test]
fn four_in_a_row_are_found_from_every_cell_of_the_row() {
    // Four of team 1 in row 0, columns 1 to 4.
    let across = board_of(&[&[], &[1], &[1], &[1], &[1], &[], &[]]);
    for col in 1..=4 {
        let origin = GridPosition::new(col, 0);
        let right = across.get_run_in_direction(origin, GridPosition::new(1, 0), 1);
        let left = across.get_run_in_direction(origin, GridPosition::new(-1, 0), 1);
        assert!(right == 4 || left == 4);
        assert!(across.get_runs_from_point(origin, 1)[3] > 0);
    }
    // From the end of the row, looking at the free cell beyond it, the scan
    // reports a gap; looking back along the row it reports the four.
    let end = GridPosition::new(4, 0);
    assert_eq!(across.get_run_in_direction(end, GridPosition::new(1, 0), 1), 3);
    assert_eq!(across.get_run_in_direction(end, GridPosition::new(-1, 0), 1), 4);
    // Where an edge or an opponent follows the row instead, both scans report 4.
    let walled = board_of(&[&[2], &[1], &[1], &[1], &[1], &[2], &[]]);
    for col in 1..=4 {
        let origin = GridPosition::new(col, 0);
        assert_eq!(walled.get_run_in_direction(origin, GridPosition::new(1, 0), 1), 4);
        assert_eq!(walled.get_run_in_direction(origin, GridPosition::new(-1, 0), 1), 4);
    }
    // Four in a column.
    let tower = board_of(&[&[], &[], &[2, 2, 2, 2], &[], &[], &[], &[]]);
    for row in 0..4 {
        let origin = GridPosition::new(2, row);
        let up = tower.get_run_in_direction(origin, GridPosition::new(0, 1), 2);
        let down = tower.get_run_in_direction(origin, GridPosition::new(0, -1), 2);
        assert!(up == 4 || down == 4);
    }
    // Four on a diagonal.
    let stairs = board_of(&[&[1], &[2, 1], &[2, 2, 1], &[2, 2, 2, 1], &[], &[], &[]]);
    for step in 0..4 {
        let origin = GridPosition::new(step, step);
        let up = stairs.get_run_in_direction(origin, GridPosition::new(1, 1), 1);
        let down = stairs.get_run_in_direction(origin, GridPosition::new(-1, -1), 1);
        assert!(up == 4 || down == 4);
    }
}

#[test]
fn a_gap_caps_the_run_at_3() {
    // 1 1 _ 1 1: five cells with a gap in the middle, scanned from the left end.
    let gapped = board_of(&[&[1], &[1], &[], &[1], &[1], &[], &[]]);
    assert_eq!(
        gapped.get_run_in_direction(GridPosition::new(0, 0), GridPosition::new(1, 0), 1),
        3
    );
    assert_eq!(
        gapped.get_run_in_direction(GridPosition::new(1, 0), GridPosition::new(1, 0), 1),
        3
    );
    // Four in a row before the gap are still four.
    let four_then_gap = board_of(&[&[1], &[1], &[1], &[1], &[], &[1], &[]]);
    assert_eq!(
        four_then_gap.get_run_in_direction(GridPosition::new(1, 0), GridPosition::new(1, 0), 1),
        4
    );
}

#[test]
fn a_line_without_room_for_four_gives_0() {
    // 2 1 1 1 2: three in a row, shut in on both sides.
    let shut = board_of(&[&[2], &[1], &[1], &[1], &[2], &[], &[]]);
    for col in 1..=3 {
        assert_eq!(
            shut.get_run_in_direction(GridPosition::new(col, 0), GridPosition::new(1, 0), 1),
            0
        );
        assert_eq!(
            shut.get_run_in_direction(GridPosition::new(col, 0), GridPosition::new(-1, 0), 1),
            0
        );
    }
    // A disc in the corner under a full column of room has a run of 1 upwards,
    // and a disc on top of five has no room above or below it.
    let corner = board_of(&[&[1], &[], &[], &[], &[], &[], &[]]);
    assert_eq!(
        corner.get_run_in_direction(GridPosition::new(0, 0), GridPosition::new(0, 1), 1),
        1
    );
    let capped = board_of(&[&[2, 2, 1, 2, 2, 1], &[], &[], &[], &[], &[], &[]]);
    assert_eq!(
        capped.get_run_in_direction(GridPosition::new(0, 5), GridPosition::new(0, 1), 1),
        0
    );
}

#[test]
fn chances_stay_between_0_and_1() {
    for seed in 400..412u64 {
        let board = scrambled_board(seed, 10 + (seed as usize % 30));
        for team in 1..=2 {
            let ai = AI::new(team, 2);
            for depth in 0..=2 {
                let chance = chance_of(ai.find_win_probability(board.clone(), depth, 2));
                assert!((0.0..=1.0).contains(&chance));
            }
        }
    }
}

#[test]
fn a_full_board_gives_the_chance_0() {
    // A full board without four in a row anywhere.
    let full = board_of(&[
        &[1, 1, 2, 2, 1, 1],
        &[2, 2, 1, 1, 2, 2],
        &[1, 1, 2, 2, 1, 1],
        &[2, 2, 1, 1, 2, 2],
        &[1, 1, 2, 2, 1, 1],
        &[2, 2, 1, 1, 2, 2],
        &[1, 1, 2, 2, 1, 1],
    ]);
    assert!(full.is_full());
    for team in 1..=2 {
        let ai = AI::new(team, 3);
        for (depth, max_depth) in [(0, 0), (0, 3), (1, 3), (3, 3), (5, 2), (-1, 7)].iter() {
            assert_eq!(
                chance_of(ai.find_win_probability(full.clone(), *depth, *max_depth)),
                0.0
            );
        }
        assert_eq!(ai.pick_optimal_move(full.clone()), -1);
    }
}

#[test]
fn the_runs_of_a_move_are_weighed_in_sixteenths() {
    // A first disc in the corner: one cell alone on three lines with room
    // for four (to the right, up to the right and up), each counted in
    // both of its senses.  Six runs of length 1 weigh 6/16.
    let empty = Board::new(GridPosition::new(0, 0));
    let check = MoveCheck::new(empty, 0, 1);
    assert_eq!(check.get_runs(), [6, 0, 0, 0]);
    assert_eq!(check.get_team(), 1);
    assert!(!check.has_end_result());
    assert_eq!(chance_of(check.get_win_probability(1)), 6.0 / 16.0);
    assert_eq!(chance_of(check.get_win_probability(2)), 10.0 / 16.0);
    assert_eq!(check.get_board().get_cell_team(GridPosition::new(0, 0)), 1);
    // A disc next to two of its own in the bottom row.
    let pair = board_of(&[&[], &[1], &[1], &[], &[], &[], &[]]);
    let check = MoveCheck::new(pair, 3, 1);
    let runs = check.get_runs();
    let weighed = runs[0] + 2 * runs[1] + 4 * runs[2] + 8 * runs[3];
    assert_eq!(runs[2], 2);
    assert_eq!(
        chance_of(check.get_win_probability(1)),
        (weighed.min(16) as f64) / 16.0
    );
    assert_eq!(
        chance_of(check.get_win_probability(2)),
        1.0 - (weighed.min(16) as f64) / 16.0
    );
}

#[test]
fn a_move_into_a_full_column_leaves_the_board() {
    let board = board_of(&[&[1, 2, 1, 2, 1, 2], &[], &[], &[], &[], &[], &[]]);
    let check = MoveCheck::new(board.clone(), 0, 1);
    assert_eq!(check.get_board(), board);
}

#[test]
fn the_mean_is_taken_over_the_columns_that_are_open() {
    // Two columns are open.  In column 5 team 1 has one run of length 1
    // upwards, weighed 1/16 for each of the two senses that see it... the
    // scan down is shut in, the scan up has room: the chances are exact
    // sixteenths, and so is twice their mean.
    let board = board_of(&[
        &[2, 2, 1, 2, 2, 1],
        &[1, 1, 2, 1, 1, 2],
        &[2, 2, 1, 2, 2, 1],
        &[1, 1, 2, 1, 1, 2],
        &[2, 2, 1, 2, 2, 1],
        &[1, 1, 2],
        &[2, 2, 1, 2],
    ]);
    let ai = AI::new(1, 0);
    let first = MoveCheck::new(board.clone(), 5, 1);
    let second = MoveCheck::new(board.clone(), 6, 1);
    assert!(!first.has_end_result() && !second.has_end_result());
    let mean = (chance_of(first.get_win_probability(1))
        + chance_of(second.get_win_probability(1)))
        / 2.0;
    assert_eq!(chance_of(ai.find_win_probability(board.clone(), 0, 0)), mean);
}

#[test]
fn a_look_ahead_of_two_levels_is_the_mean_of_means() {
    let board = scrambled_board(7, 30);
    let ai = AI::new(2, 1);
    // At depth 0 team 2 moves, at depth 1 team 1.
    let mut sum = 0.0;
    let mut count = 0;
    let mut forced = None;
    for col in 0..7 {
        if !board.is_column_full(col as usize) {
            let check = MoveCheck::new(board.clone(), col, 2);
            if check.has_end_result() {
                forced = Some(1.0);
                break;
            }
            sum += chance_of(ai.find_win_probability(check.get_board(), 1, 1));
            count += 1;
        }
    }
    let expected = match forced {
        Some(certain) => certain,
        None if count == 0 => 0.0,
        None => sum / count as f64,
    };
    let got = chance_of(ai.find_win_probability(board.clone(), 0, 1));
    assert!((got - expected).abs() < 1e-12);
}

#[test]
fn the_last_of_the_best_columns_is_picked() {
    for seed in 500..520u64 {
        let board = scrambled_board(seed, 6 + (seed as usize % 24));
        for team in 1..=2 {
            let ai = AI::new(team, 1);
            let mut expected = -1;
            let mut best = Probability::zero();
            for col in 0..7 {
                if board.is_column_full(col as usize) {
                    continue;
                }
                let check = MoveCheck::new(board.clone(), col, team);
                if check.has_end_result() {
                    expected = col;
                    break;
                }
                let chance = ai.find_win_probability(check.get_board(), 1, 1);
                if chance.is_one() {
                    expected = col;
                    break;
                }
                if chance.ge(&best) {
                    best = chance;
                    expected = col;
                }
            }
            assert_eq!(ai.pick_optimal_move(board.clone()), expected);
        }
    }
}

#[test]
fn on_an_empty_board_equal_chances_go_to_the_later_column() {
    // With no look-ahead beyond the answer, the board's symmetry makes the
    // chances of columns c and 6 - c equal: the pick is never in the left half.
    let empty = Board::new(GridPosition::new(0, 0));
    let ai = AI::new(1, 1);
    let pick = ai.pick_optimal_move(empty.clone());
    assert!(pick >= 3);
    let picked = MoveCheck::new(empty.clone(), pick, 1);
    let mirrored = MoveCheck::new(empty.clone(), 6 - pick, 1);
    let a = ai.find_win_probability(picked.get_board(), 1, 1);
    let b = ai.find_win_probability(mirrored.get_board(), 1, 1);
    assert!(a.ge(&b) && b.ge(&a));
}

#[test]
fn the_opponent_blocks_nothing_but_sees_its_own_win_first() {
    // Team 2 has three in the bottom row; team 1 has three in column 6.
    let board = board_of(&[&[2], &[2], &[2], &[], &[], &[], &[1, 1, 1]]);
    assert_eq!(AI::new(1, 2).pick_optimal_move(board.clone()), 6);
    assert_eq!(AI::new(2, 2).pick_optimal_move(board.clone()), 3);
}

#[test]
fn an_opponent_is_made_with_no_move_chosen() {
    let ai = AI::new(2, 3);
    assert_eq!(ai.team, 2);
    assert_eq!(ai.difficulty, 3);
    assert_eq!(ai.last_move_frame, -1);
}

#[test]
fn moves_compare_by_their_runs() {
    let pair = board_of(&[&[], &[1], &[1], &[], &[], &[], &[]]);
    let beside = MoveCheck::new(pair.clone(), 3, 1);
    let apart = MoveCheck::new(pair.clone(), 6, 1);
    // Beside the pair the disc makes runs of three; far from it, none.
    assert!(beside.get_runs()[2] > apart.get_runs()[2]);
    assert_eq!(apart.partial_cmp(&beside), Some(std::cmp::Ordering::Less));
    assert_eq!(beside.partial_cmp(&apart), Some(std::cmp::Ordering::Greater));
    assert!(apart < beside);
    assert!(beside != apart);
    // Moves on either side of a disc in the middle column have the same runs.
    let single = board_of(&[&[], &[], &[], &[1], &[], &[], &[]]);
    let left = MoveCheck::new(single.clone(), 2, 1);
    let right = MoveCheck::new(single.clone(), 4, 1);
    assert_eq!(left.get_runs(), right.get_runs());
    assert!(left == right);
    assert_eq!(left.partial_cmp(&right), Some(std::cmp::Ordering::Equal));
    // Moves that differ in their single cells alone: each is the greater.
    let empty = Board::new(GridPosition::new(0, 0));
    let corner = MoveCheck::new(empty.clone(), 0, 1);
    let middle = MoveCheck::new(empty.clone(), 3, 1);
    assert_eq!(corner.get_runs(), [6, 0, 0, 0]);
    assert_eq!(middle.get_runs(), [8, 0, 0, 0]);
    assert_eq!(corner.partial_cmp(&middle), Some(std::cmp::Ordering::Greater));
    assert_eq!(middle.partial_cmp(&corner), Some(std::cmp::Ordering::Greater));
}

#[test]
fn the_opponent_shows_its_column_before_it_moves() {
    let mut ai = AI::new(1, 3);
    assert_eq!(AI_MOVE_DELAY, 100);
    assert_eq!(ai.next_step(0), AiStep::Choose);
    assert_eq!(ai.next_step(5000), AiStep::Choose);
    ai.last_move_frame = 40;
    assert_eq!(ai.next_step(40), AiStep::Wait);
    assert_eq!(ai.next_step(140), AiStep::Wait);
    assert_eq!(ai.next_step(141), AiStep::Drop);
    ai.last_move_frame = i32::MAX;
    assert_eq!(ai.next_step(i32::MAX as usize + 100), AiStep::Wait);
    assert_eq!(ai.next_step(i32::MAX as usize + 101), AiStep::Drop);
    ai.last_move_frame = -1;
    assert_eq!(ai.next_step(141), AiStep::Choose);
}
