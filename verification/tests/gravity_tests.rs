use match3::{
    drop_tiles_with_info, drop_tiles_with_source, find_matches, Board, DropInfo, TileSource,
    BONUS_TILE, HEIGHT, TILE_TYPES, WIDTH,
};

fn quiet() -> Board {
    let mut board = [[0u8; WIDTH]; HEIGHT];
    for y in 0..HEIGHT {
        for x in 0..WIDTH {
            board[y][x] = 1 + ((x + 2 * y) % 5) as u8;
        }
    }
    board
}

#[test]
fn full_board_does_not_move() {
    let mut board = quiet();
    let mut source = TileSource::scripted(vec![1, 2, 3]);
    let drops = drop_tiles_with_source(&mut board, &mut source);
    assert_eq!(drops, vec![]);
    assert_eq!(board, quiet());
    assert_eq!(source.remaining(), 3);
}

#[test]
fn tiles_fall_in_order_and_new_tiles_fill_from_the_bottom() {
    let mut board = quiet();
    board[0][0] = 1;
    board[1][0] = 0;
    board[2][0] = 2;
    board[3][0] = 0;
    board[4][0] = 3;
    board[5][0] = 0;
    board[6][0] = 0;
    board[7][0] = 4;
    board[8][0] = 5;
    let mut source = TileSource::scripted(vec![2, 4, 1, 3]);
    let drops = drop_tiles_with_source(&mut board, &mut source);
    assert_eq!(
        drops,
        vec![
            DropInfo { from_x: 0, from_y: 4, to_x: 0, to_y: 6, value: 3 },
            DropInfo { from_x: 0, from_y: 2, to_x: 0, to_y: 5, value: 2 },
            DropInfo { from_x: 0, from_y: 0, to_x: 0, to_y: 4, value: 1 },
            DropInfo { from_x: 0, from_y: 0, to_x: 0, to_y: 3, value: 2 },
            DropInfo { from_x: 0, from_y: 0, to_x: 0, to_y: 2, value: 4 },
            DropInfo { from_x: 0, from_y: 0, to_x: 0, to_y: 1, value: 1 },
            DropInfo { from_x: 0, from_y: 0, to_x: 0, to_y: 0, value: 3 },
        ]
    );
    assert_eq!(
        board,
        [
            [3, 2, 3, 4, 5, 1, 2, 3, 4],
            [1, 4, 5, 1, 2, 3, 4, 5, 1],
            [4, 1, 2, 3, 4, 5, 1, 2, 3],
            [2, 3, 4, 5, 1, 2, 3, 4, 5],
            [1, 5, 1, 2, 3, 4, 5, 1, 2],
            [2, 2, 3, 4, 5, 1, 2, 3, 4],
            [3, 4, 5, 1, 2, 3, 4, 5, 1],
            [4, 1, 2, 3, 4, 5, 1, 2, 3],
            [5, 3, 4, 5, 1, 2, 3, 4, 5],
        ]
    );
    assert_eq!(source.remaining(), 0);
}

#[test]
fn holes_in_several_columns_are_filled_left_to_right() {
    let mut board = quiet();
    board[0][3] = 0;
    board[1][3] = 0;
    board[5][7] = 0;
    let mut source = TileSource::scripted(vec![5, 4, 2]);
    let drops = drop_tiles_with_source(&mut board, &mut source);
    assert_eq!(
        drops,
        vec![
            DropInfo { from_x: 3, from_y: 0, to_x: 3, to_y: 1, value: 5 },
            DropInfo { from_x: 3, from_y: 0, to_x: 3, to_y: 0, value: 4 },
            DropInfo { from_x: 7, from_y: 4, to_x: 7, to_y: 5, value: 1 },
            DropInfo { from_x: 7, from_y: 3, to_x: 7, to_y: 4, value: 4 },
            DropInfo { from_x: 7, from_y: 2, to_x: 7, to_y: 3, value: 2 },
            DropInfo { from_x: 7, from_y: 1, to_x: 7, to_y: 2, value: 5 },
            DropInfo { from_x: 7, from_y: 0, to_x: 7, to_y: 1, value: 3 },
            DropInfo { from_x: 7, from_y: 0, to_x: 7, to_y: 0, value: 2 },
        ]
    );
    assert_eq!(
        board,
        [
            [1, 2, 3, 4, 5, 1, 2, 2, 4],
            [3, 4, 5, 5, 2, 3, 4, 3, 1],
            [5, 1, 2, 3, 4, 5, 1, 5, 3],
            [2, 3, 4, 5, 1, 2, 3, 2, 5],
            [4, 5, 1, 2, 3, 4, 5, 4, 2],
            [1, 2, 3, 4, 5, 1, 2, 1, 4],
            [3, 4, 5, 1, 2, 3, 4, 5, 1],
            [5, 1, 2, 3, 4, 5, 1, 2, 3],
            [2, 3, 4, 5, 1, 2, 3, 4, 5],
        ]
    );
}

#[test]
fn empty_board_is_filled_column_by_column() {
    let mut board = [[0u8; WIDTH]; HEIGHT];
    let script: Vec<u8> = (0..81).map(|i| 1 + ((i * 2) % 5) as u8).collect();
    let mut source = TileSource::scripted(script.clone());
    let drops = drop_tiles_with_source(&mut board, &mut source);
    assert_eq!(drops.len(), 81);
    for (i, drop) in drops.iter().enumerate() {
        let x = i / HEIGHT;
        let y = HEIGHT - 1 - i % HEIGHT;
        assert_eq!(*drop, DropInfo { from_x: x, from_y: 0, to_x: x, to_y: y, value: script[i] });
        assert_eq!(board[y][x], script[i]);
    }
    assert_eq!(board[8][0], 1);
    assert_eq!(board[0][0], 2);
    assert_eq!(board[8][8], 5);
}

#[test]
fn bonus_tile_falls_like_any_tile() {
    let mut board = quiet();
    board[2][4] = BONUS_TILE;
    board[3][4] = 0;
    board[4][4] = 0;
    let mut source = TileSource::scripted(vec![1, 1]);
    let drops = drop_tiles_with_source(&mut board, &mut source);
    assert_eq!(
        drops,
        vec![
            DropInfo { from_x: 4, from_y: 2, to_x: 4, to_y: 4, value: 100 },
            DropInfo { from_x: 4, from_y: 1, to_x: 4, to_y: 3, value: 2 },
            DropInfo { from_x: 4, from_y: 0, to_x: 4, to_y: 2, value: 5 },
            DropInfo { from_x: 4, from_y: 0, to_x: 4, to_y: 1, value: 1 },
            DropInfo { from_x: 4, from_y: 0, to_x: 4, to_y: 0, value: 1 },
        ]
    );
    assert_eq!(board[4][4], BONUS_TILE);
    assert_eq!(board[0][4], 1);
    assert_eq!(board[1][4], 1);
}

fn column_holes(board: &Board, x: usize) -> usize {
    (0..HEIGHT).filter(|&y| board[y][x] == 0).count()
}

#[test]
fn no_cell_is_empty_after_gravity() {
    let mut board = quiet();
    for y in 0..HEIGHT {
        for x in 0..WIDTH {
            if (x * 7 + y * 3) % 4 == 0 {
                board[y][x] = 0;
            }
        }
    }
    let before = board;
    let drops = drop_tiles_with_info(&mut board);
    for y in 0..HEIGHT {
        for x in 0..WIDTH {
            assert!(board[y][x] != 0);
        }
    }
    for x in 0..WIDTH {
        let holes = column_holes(&before, x);
        let arrivals = drops.iter().filter(|d| d.to_x == x && d.to_y < holes).count();
        assert_eq!(arrivals, holes);
        for drop in drops.iter().filter(|d| d.to_x == x) {
            assert_eq!(drop.from_x, x);
            assert_eq!(drop.value, board[drop.to_y][x]);
        }
    }
}

#[test]
fn random_refill_keeps_the_tiles_of_each_column_in_order() {
    let mut board = quiet();
    board[2][3] = 0;
    board[5][3] = 0;
    board[6][3] = 0;
    let before = board;
    let drops = drop_tiles_with_info(&mut board);
    let kept: Vec<u8> = (0..HEIGHT).map(|y| before[y][3]).filter(|&t| t != 0).collect();
    let below: Vec<u8> = (3..HEIGHT).map(|y| board[y][3]).collect();
    assert_eq!(kept, below);
    for y in 0..3 {
        assert!(board[y][3] >= 1 && board[y][3] as usize <= TILE_TYPES);
    }
    for x in 0..WIDTH {
        if x != 3 {
            for y in 0..HEIGHT {
                assert_eq!(board[y][x], before[y][x]);
            }
        }
    }
    // the four tiles above the lowest hole fall, three new tiles arrive
    assert_eq!(drops.len(), 4 + 3);
    assert_eq!(drops[0], DropInfo { from_x: 3, from_y: 4, to_x: 3, to_y: 6, value: before[4][3] });
    assert_eq!(drops[1], DropInfo { from_x: 3, from_y: 3, to_x: 3, to_y: 5, value: before[3][3] });
    assert_eq!(drops[2], DropInfo { from_x: 3, from_y: 1, to_x: 3, to_y: 4, value: before[1][3] });
    assert_eq!(drops[3], DropInfo { from_x: 3, from_y: 0, to_x: 3, to_y: 3, value: before[0][3] });
    for (i, drop) in drops[4..].iter().enumerate() {
        assert_eq!(drop.from_x, 3);
        assert_eq!(drop.from_y, 0);
        assert_eq!(drop.to_x, 3);
        assert_eq!(drop.to_y, 2 - i);
        assert_eq!(drop.value, board[2 - i][3]);
    }
}

#[test]
fn gravity_may_leave_matches_behind() {
    let mut board = quiet();
    board[0][0] = 0;
    board[0][1] = 0;
    board[0][2] = 0;
    let mut source = TileSource::scripted(vec![4, 4, 4]);
    drop_tiles_with_source(&mut board, &mut source);
    assert_eq!(find_matches(&board), vec![vec![(0, 0), (1, 0), (2, 0), (3, 0)]]);
}
