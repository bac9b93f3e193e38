use connect4::board::{Board, GridPosition, MyColor, BOARD_SIZE};

// Builds a board from columns of tokens, bottom token first: 0 is an empty
// cell, 1 and 2 are the teams.  board[4][0] = 1 puts a token of team 1 at the
// bottom of column 4.
fn create_test_board(board: Vec<Vec<i32>>) -> Board {
    let mut output = Board::new(GridPosition { x: 0, y: 0 });
    for i in 0..BOARD_SIZE.1 {
        if (i as usize) < board.len() {
            let col = board.get(i as usize).unwrap();
            for j in 0..BOARD_SIZE.0 {
                if (j as usize) < col.len() {
                    let val = *col.get(j as usize).unwrap();
                    if val > 0 {
                        output.insert(i, val, MyColor::White);
                    }
                }
            }
        }
    }
    output
}

#[test]
fn should_handle_edge_cases() {
    let board = create_test_board(vec![vec![]]);
    assert_eq!(board.on_board(GridPosition::new(0, 0)), true);
    assert_eq!(board.on_board(GridPosition::new(-1, 0)), false);
    assert_eq!(board.on_board(GridPosition::new(0, -1)), false);
    assert_eq!(board.on_board(GridPosition::new(6, 5)), true);
    assert_eq!(board.on_board(GridPosition::new(7, 5)), false);
    assert_eq!(board.on_board(GridPosition::new(6, 6)), false);
}

#[test]
fn should_return_error_val_if_not_on_board() {
    let data = vec![
        vec![1, 1, 0, 1, 2, 0],
        vec![1, 2, 2, 1, 2, 2],
        vec![2, 1, 1, 2, 1, 0],
        vec![2, 1, 1, 1, 0, 0],
        vec![0, 0, 0, 0, 0, 0],
        vec![1, 1, 2, 1, 2, 1],
        vec![1, 1, 2, 2, 2, 0],
    ];
    let board = create_test_board(data);
    assert_eq!(board.get_cell_team(GridPosition::new(-1, 0)), -1);
    assert_eq!(board.get_cell_team(GridPosition::new(0, 6)), -1);
}

#[test]
fn should_handle_get_team_values() {
    let data = vec![
        vec![1, 1, 1, 1, 2, 0],
        vec![1, 2, 2, 1, 2, 2],
        vec![2, 1, 1, 2, 1, 0],
        vec![2, 1, 1, 1, 0, 0],
        vec![0, 0, 0, 0, 0, 0],
        vec![1, 1, 2, 1, 2, 1],
        vec![1, 1, 2, 2, 2, 0],
    ];
    let board = create_test_board(data);
    assert_eq!(board.get_cell_team(GridPosition::new(0, 0)), 1);
    assert_eq!(board.get_cell_team(GridPosition::new(2, 0)), 2);
    assert_eq!(board.get_cell_team(GridPosition::new(0, 5)), 0);
    assert_eq!(board.get_cell_team(GridPosition::new(5, 5)), 1);
    assert_eq!(board.get_cell_team(GridPosition::new(1, 3)), 1);
    assert_eq!(board.get_cell_team(GridPosition::new(4, 0)), 0);
}

#[test]
fn should_find_contiguous_run() {
    let data = vec![
        vec![0],
        vec![0],
        vec![0],
        vec![1],
        vec![1],
        vec![1],
        vec![0],
    ];
    let board = create_test_board(data);
    assert_eq!(
        board.get_run_in_direction(GridPosition::new(3, 0), GridPosition::new(1, 0), 1),
        3
    );
}

#[test]
fn should_find_not_be_more_than_4() {
    let data = vec![
        vec![0],
        vec![0],
        vec![1],
        vec![1],
        vec![1],
        vec![1],
        vec![1],
    ];
    let board = create_test_board(data);
    assert_eq!(
        board.get_run_in_direction(GridPosition::new(3, 0), GridPosition::new(1, 0), 1),
        4
    );
}

#[test]
fn should_find_run_with_space() {
    let data = vec![
        vec![0],
        vec![0],
        vec![0],
        vec![1],
        vec![0],
        vec![1],
        vec![1],
    ];
    let board = create_test_board(data);
    assert_eq!(
        board.get_run_in_direction(GridPosition::new(3, 0), GridPosition::new(1, 0), 1),
        3
    );
}

#[test]
fn should_find_not_be_more_than_3_with_space() {
    let data = vec![
        vec![0],
        vec![0],
        vec![1],
        vec![1],
        vec![1],
        vec![0],
        vec![1],
    ];
    let board = create_test_board(data);
    assert_eq!(
        board.get_run_in_direction(GridPosition::new(3, 0), GridPosition::new(1, 0), 1),
        3
    );
}

#[test]
fn should_not_count_two_spaces() {
    let data = vec![
        vec![0],
        vec![0],
        vec![0],
        vec![1],
        vec![0],
        vec![0],
        vec![1],
    ];
    let board = create_test_board(data);
    assert_eq!(
        board.get_run_in_direction(GridPosition::new(3, 0), GridPosition::new(1, 0), 1),
        1
    );
}

#[test]
fn should_not_count_past_space_in_rev_direction() {
    let data = vec![
        vec![1],
        vec![0],
        vec![1],
        vec![1],
        vec![0],
        vec![0],
        vec![0],
    ];
    let board = create_test_board(data);
    assert_eq!(
        board.get_run_in_direction(GridPosition::new(3, 0), GridPosition::new(1, 0), 1),
        2
    );
}

#[test]
fn should_return_run_of_4_prior_to_space() {
    //Should return 4
    let run1 = vec![
        vec![0],
        vec![1],
        vec![1],
        vec![1],
        vec![1],
        vec![0],
        vec![1],
    ];
    let board = create_test_board(run1);
    assert_eq!(
        board.get_run_in_direction(GridPosition::new(3, 0), GridPosition::new(1, 0), 1),
        4
    );
    //This should return 4 - handled by rev direction case
    let run2 = vec![
        vec![0],
        vec![1],
        vec![1],
        vec![1],
        vec![1],
        vec![0],
        vec![1],
    ];
    let board = create_test_board(run2);
    assert_eq!(
        board.get_run_in_direction(GridPosition::new(2, 0), GridPosition::new(1, 0), 1),
        4
    );
    //This should not return 4 - handled by rev direction case
    let run3 = vec![
        vec![1],
        vec![1],
        vec![1],
        vec![1],
        vec![0],
        vec![1],
        vec![0],
    ];
    let board = create_test_board(run3);
    assert_eq!(
        board.get_run_in_direction(GridPosition::new(3, 0), GridPosition::new(1, 0), 1),
        3
    );
}

#[test]
fn returns_0_if_run_of_4_impossible() {
    //Runs 1-3 should return 0, Runs 4-5 should pass due to potential in either direction
    let run1 = vec![
        vec![0],
        vec![2],
        vec![1],
        vec![1],
        vec![1],
        vec![2],
        vec![1],
    ];
    let mut board = create_test_board(run1);
    assert_eq!(
        board.get_run_in_direction(GridPosition::new(3, 0), GridPosition::new(1, 0), 1),
        0
    );
    let run2 = vec![
        vec![2],
        vec![0],
        vec![0],
        vec![1],
        vec![2],
        vec![0],
        vec![1],
    ];
    board = create_test_board(run2);
    assert_eq!(
        board.get_run_in_direction(GridPosition::new(3, 0), GridPosition::new(1, 0), 1),
        0
    );
    let run3 = vec![
        vec![0],
        vec![1],
        vec![1], //Checking here
        vec![2],
        vec![0],
        vec![0],
        vec![0],
    ];
    board = create_test_board(run3);
    assert_eq!(
        board.get_run_in_direction(GridPosition::new(2, 0), GridPosition::new(1, 0), 1),
        0
    );
    let run4 = vec![
        vec![1],
        vec![0],
        vec![0],
        vec![1],
        vec![2],
        vec![0],
        vec![1],
    ];
    board = create_test_board(run4);
    assert_eq!(
        board.get_run_in_direction(GridPosition::new(3, 0), GridPosition::new(1, 0), 1),
        1
    );
    let run5 = vec![
        vec![2],
        vec![0],
        vec![0],
        vec![1],
        vec![0],
        vec![2],
        vec![1],
    ];
    board = create_test_board(run5);
    assert_eq!(
        board.get_run_in_direction(GridPosition::new(3, 0), GridPosition::new(1, 0), 1),
        1
    );
}

#[test]
fn should_work_in_all_directions() {
    //Note - the runs may not match in opposite directions!
    let data = vec![
        vec![1, 1, 0, 1, 2, 0],
        vec![1, 2, 2, 1, 2, 2],
        vec![2, 1, 1, 2, 1, 0],
        vec![2, 1, 1, 1, 0, 0], //Target is in middle of this column
        vec![0, 0, 0, 0, 0, 0],
        vec![1, 1, 2, 1, 2, 1],
        vec![1, 1, 2, 2, 2, 0],
    ];
    let board = create_test_board(data);
    //Vertical directions - should be 3 in both cases
    assert_eq!(
        board.get_run_in_direction(GridPosition::new(3, 3), GridPosition::new(0, 1), 1),
        3
    );
    assert_eq!(
        board.get_run_in_direction(
            GridPosition::new(3, 3),
            GridPosition::new(0, -1),
            1
        ),
        3
    );
    //Horizontal directions - should be 0 in both cases since two 2s block potential run of 4
    assert_eq!(
        board.get_run_in_direction(GridPosition::new(3, 3), GridPosition::new(1, 0), 1),
        0
    );
    assert_eq!(
        board.get_run_in_direction(
            GridPosition::new(3, 3),
            GridPosition::new(-1, 0),
            1
        ),
        0
    );
    //Bottom-left to upper-right diagonal directions - should be 2 going down and 3 going up (since space then token in upper-right dir)
    assert_eq!(
        board.get_run_in_direction(GridPosition::new(3, 3), GridPosition::new(1, 1), 1),
        3
    );
    assert_eq!(
        board.get_run_in_direction(
            GridPosition::new(3, 3),
            GridPosition::new(-1, -1),
            1
        ),
        2
    );
    //Bottom-right to upper-left diagonal directions - should be 2 going up and 3 going down (since space in down dir, but blocked going up)
    assert_eq!(
        board.get_run_in_direction(
            GridPosition::new(3, 3),
            GridPosition::new(-1, 1),
            1
        ),
        2
    );
    assert_eq!(
        board.get_run_in_direction(
            GridPosition::new(3, 3),
            GridPosition::new(1, -1),
            1
        ),
        3
    );
}

#[test]
fn should_find_runs() {
    let data = vec![
        vec![1, 1, 0, 1, 2, 0],
        vec![1, 2, 2, 1, 2, 2],
        vec![2, 1, 1, 2, 1, 0],
        vec![2, 1, 1, 1, 0, 0], //Target is in middle of this column
        vec![0, 0, 0, 0, 0, 0],
        vec![1, 1, 2, 1, 2, 1],
        vec![1, 1, 2, 2, 2, 0],
    ];
    let board = create_test_board(data);
    assert_eq!(
        board.get_runs_from_point(GridPosition::new(3, 3), 1),
        [0, 2, 4, 0]
    );
}

