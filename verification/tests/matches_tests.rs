use match3::{find_matches, Board, BONUS_TILE, HEIGHT, WIDTH};

fn quiet() -> Board {
    let mut board = [[0u8; WIDTH]; HEIGHT];
    for y in 0..HEIGHT {
        for x in 0..WIDTH {
            board[y][x] = 1 + ((x + 2 * y) % 5) as u8;
        }
    }
    board
}

#[test]
fn board_without_equal_neighbours_has_no_match() {
    assert_eq!(find_matches(&quiet()), Vec::<Vec<(usize, usize)>>::new());
}

#[test]
fn empty_board_has_no_match() {
    let board = [[0u8; WIDTH]; HEIGHT];
    assert!(find_matches(&board).is_empty());
}

#[test]
fn horizontal_run_of_three_is_one_group() {
    let mut board = quiet();
    board[4][2] = 3;
    board[4][3] = 3;
    board[4][4] = 3;
    assert_eq!(find_matches(&board), vec![vec![(2, 4), (3, 4), (4, 4)]]);
}

#[test]
fn vertical_run_of_three_is_one_group() {
    let mut board = quiet();
    board[2][6] = 1;
    board[3][6] = 1;
    board[4][6] = 1;
    assert_eq!(find_matches(&board), vec![vec![(6, 2), (6, 3), (6, 4)]]);
}

#[test]
fn run_of_two_is_no_match() {
    let mut board = quiet();
    board[4][2] = 2;
    board[4][3] = 2;
    assert!(find_matches(&board).is_empty());
}

#[test]
fn run_is_reported_whole() {
    let mut board = quiet();
    for x in 1..7 {
        board[8][x] = 3;
    }
    assert_eq!(
        find_matches(&board),
        vec![vec![(1, 8), (2, 8), (3, 8), (4, 8), (5, 8), (6, 8)]]
    );
}

#[test]
fn run_across_a_whole_row_and_a_whole_column() {
    let mut board = quiet();
    for x in 0..WIDTH {
        board[0][x] = 3;
    }
    let row: Vec<(usize, usize)> = (0..WIDTH).map(|x| (x, 0)).collect();
    assert_eq!(find_matches(&board), vec![row]);

    let mut board = quiet();
    for y in 0..HEIGHT {
        board[y][8] = 3;
    }
    let column: Vec<(usize, usize)> = (0..HEIGHT).map(|y| (8, y)).collect();
    assert_eq!(find_matches(&board), vec![column]);
}

#[test]
fn empty_cells_form_no_run_and_break_runs() {
    let mut board = quiet();
    board[4][2] = 0;
    board[4][3] = 0;
    board[4][4] = 0;
    assert!(find_matches(&board).is_empty());

    let mut board = quiet();
    board[4][1] = 1;
    board[4][2] = 1;
    board[4][3] = 0;
    board[4][4] = 1;
    board[4][5] = 1;
    assert!(find_matches(&board).is_empty());
    board[4][3] = 1;
    assert_eq!(find_matches(&board), vec![vec![(1, 4), (2, 4), (3, 4), (4, 4), (5, 4)]]);
}

#[test]
fn two_runs_in_one_row_are_two_groups() {
    let mut board = quiet();
    for x in 0..3 {
        board[6][x] = 1;
    }
    for x in 3..6 {
        board[6][x] = 2;
    }
    assert_eq!(
        find_matches(&board),
        vec![vec![(0, 6), (1, 6), (2, 6)], vec![(3, 6), (4, 6), (5, 6)]]
    );
}

#[test]
fn rows_come_before_columns_and_crossing_runs_share_a_cell() {
    let mut board = quiet();
    // a horizontal run in row 5 and a vertical run in column 3 that cross at (3, 5)
    board[5][2] = 4;
    board[5][3] = 4;
    board[5][4] = 4;
    board[6][3] = 4;
    board[7][3] = 4;
    // a vertical run further left, and a horizontal run further up
    board[0][0] = 4;
    board[1][0] = 4;
    board[2][0] = 4;
    board[1][5] = 5;
    board[1][6] = 5;
    board[1][7] = 5;
    assert_eq!(
        find_matches(&board),
        vec![
            vec![(5, 1), (6, 1), (7, 1)],
            vec![(2, 5), (3, 5), (4, 5)],
            vec![(0, 0), (0, 1), (0, 2)],
            vec![(3, 5), (3, 6), (3, 7)],
        ]
    );
}

#[test]
fn bonus_tiles_match_each_other_but_no_ordinary_tile() {
    let mut board = quiet();
    board[3][3] = BONUS_TILE;
    board[3][4] = BONUS_TILE;
    board[3][5] = BONUS_TILE;
    assert_eq!(find_matches(&board), vec![vec![(3, 3), (4, 3), (5, 3)]]);

    let mut board = quiet();
    board[3][3] = 1;
    board[3][4] = BONUS_TILE;
    board[3][5] = 1;
    board[3][6] = 1;
    assert!(find_matches(&board).is_empty());
}

#[test]
fn finding_matches_twice_gives_the_same_groups() {
    let mut board = quiet();
    board[5][2] = 4;
    board[5][3] = 4;
    board[5][4] = 4;
    board[6][3] = 4;
    board[7][3] = 4;
    assert_eq!(find_matches(&board).len(), 2);
    let before = board;
    let first = find_matches(&board);
    let second = find_matches(&board);
    assert_eq!(first, second);
    assert_eq!(board, before);
}

#[test]
fn transposed_board_has_the_transposed_groups() {
    let mut board = quiet();
    board[5][2] = 4;
    board[5][3] = 4;
    board[5][4] = 4;
    board[1][7] = 2;
    board[2][7] = 2;
    board[3][7] = 2;
    board[4][7] = 2;
    let mut transposed = [[0u8; WIDTH]; HEIGHT];
    for y in 0..HEIGHT {
        for x in 0..WIDTH {
            transposed[x][y] = board[y][x];
        }
    }
    let mut cells: Vec<Vec<(usize, usize)>> = find_matches(&board);
    let mut mirrored: Vec<Vec<(usize, usize)>> = find_matches(&transposed)
        .into_iter()
        .map(|group| group.into_iter().map(|(x, y)| (y, x)).collect())
        .collect();
    cells.sort();
    mirrored.sort();
    assert_eq!(cells, mirrored);
}
