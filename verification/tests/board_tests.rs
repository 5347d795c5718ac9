use match3::{
    find_matches, generate_board, generate_board_with_source, TileSource, HEIGHT, MAX_REDRAWS,
    TILE_TYPES, WIDTH,
};

#[test]
fn fresh_board_has_no_match() {
    for _ in 0..200 {
        let state = generate_board();
        assert!(find_matches(&state.board).is_empty());
    }
}

#[test]
fn fresh_board_is_full_of_ordinary_tiles() {
    for _ in 0..50 {
        let state = generate_board();
        for y in 0..HEIGHT {
            for x in 0..WIDTH {
                let tile = state.board[y][x];
                assert!(tile >= 1 && tile as usize <= TILE_TYPES);
            }
        }
    }
}

#[test]
fn fresh_game_starts_at_zero_with_no_relocations() {
    let state = generate_board();
    assert_eq!(state.score, 0);
    assert!(state.drops.is_empty());
}

#[test]
fn fresh_boards_differ() {
    let first = generate_board().board;
    let mut other = false;
    for _ in 0..20 {
        if generate_board().board != first {
            other = true;
        }
    }
    assert!(other);
}

#[test]
fn fresh_board_takes_the_draws_in_reading_order() {
    let script: Vec<u8> = (0..81).map(|i| 1 + ((i % 9 + 2 * (i / 9)) % 5) as u8).collect();
    let mut source = TileSource::scripted(script.clone());
    let state = generate_board_with_source(&mut source);
    for y in 0..HEIGHT {
        for x in 0..WIDTH {
            assert_eq!(state.board[y][x], script[y * WIDTH + x]);
        }
    }
    assert_eq!(source.remaining(), 0);
    assert_eq!(state.score, 0);
    assert!(state.drops.is_empty());
}

#[test]
fn tile_that_would_complete_a_run_is_drawn_again() {
    let script: Vec<u8> = (0..400).map(|i| 1 + ((i / 3) % 5) as u8).collect();
    let mut source = TileSource::scripted(script);
    let state = generate_board_with_source(&mut source);
    assert_eq!(
        state.board,
        [
            [1, 1, 2, 2, 3, 3, 4, 4, 5],
            [5, 5, 1, 1, 2, 2, 3, 3, 4],
            [4, 4, 5, 5, 1, 1, 2, 2, 3],
            [3, 3, 4, 4, 5, 5, 1, 1, 2],
            [2, 2, 3, 3, 4, 4, 5, 5, 1],
            [1, 1, 2, 2, 3, 3, 4, 4, 5],
            [5, 5, 1, 1, 2, 2, 3, 3, 4],
            [4, 4, 5, 5, 1, 1, 2, 2, 3],
            [3, 3, 4, 4, 5, 5, 1, 1, 2],
        ]
    );
    assert_eq!(source.remaining(), 400 - 109);
    assert!(find_matches(&state.board).is_empty());
}

#[test]
fn after_too_many_redraws_the_lowest_colour_that_fits_is_taken() {
    let mut script: Vec<u8> = vec![1, 1];
    script.extend(vec![1u8; MAX_REDRAWS]);
    script.extend((0..300).map(|i| 1 + ((i * 2) % 5) as u8));
    let mut source = TileSource::scripted(script);
    let state = generate_board_with_source(&mut source);
    assert_eq!(state.board[0][0], 1);
    assert_eq!(state.board[0][1], 1);
    assert_eq!(state.board[0][2], 2);
    assert_eq!(
        state.board,
        [
            [1, 1, 2, 1, 3, 5, 2, 4, 1],
            [3, 5, 2, 4, 1, 3, 5, 2, 4],
            [1, 3, 5, 2, 4, 1, 3, 5, 2],
            [4, 1, 3, 5, 2, 4, 1, 3, 5],
            [2, 4, 1, 3, 5, 2, 4, 1, 3],
            [5, 2, 4, 1, 3, 5, 2, 4, 1],
            [3, 5, 2, 4, 1, 3, 5, 2, 4],
            [1, 3, 5, 2, 4, 1, 3, 5, 2],
            [4, 1, 3, 5, 2, 4, 1, 3, 5],
        ]
    );
    assert_eq!(source.remaining(), 2 + MAX_REDRAWS + 300 - 144);
    assert!(find_matches(&state.board).is_empty());
}

#[test]
fn lowest_colour_that_fits_skips_the_colours_of_both_pairs() {
    // cell (2, 2) gets 1 1 to its left and 2 2 above it; the script then
    // offers 1 and 2 only until the redraws are used up
    let mut script: Vec<u8> = vec![3, 4, 2, 5, 3, 4, 5, 3, 4];
    script.extend(vec![4, 3, 2, 3, 4, 5, 3, 4, 5]);
    script.extend(vec![1, 1]);
    script.extend(vec![1u8; MAX_REDRAWS / 2]);
    script.extend(vec![2u8; MAX_REDRAWS / 2]);
    script.extend((0..300).map(|i| 1 + ((i * 2) % 5) as u8));
    let mut source = TileSource::scripted(script);
    let state = generate_board_with_source(&mut source);
    assert_eq!(state.board[0][2], 2);
    assert_eq!(state.board[1][2], 2);
    assert_eq!(state.board[2][0], 1);
    assert_eq!(state.board[2][1], 1);
    assert_eq!(state.board[2][2], 3);
    assert!(find_matches(&state.board).is_empty());
}
