use vstd::prelude::*;
use crate::constants::{WIDTH, HEIGHT, BONUS_TILE};
use crate::types::{Board, GameState};
use crate::grid::{
    Grid, grid, in_bounds, is_grid, is_full, is_ordinary, is_tile_code, well_formed, count_of,
    with_tile, swapped, put, lemma_with_tile, lemma_grid_equal, lemma_grid_injective,
    lemma_count_with_tile,
    lemma_count_le, lemma_count_before_range,
};
use crate::utils::{adjacent, are_adjacent, lemma_adjacent_symmetric};
use crate::matches::{match_groups, has_match, lemma_matches_empty};
use crate::gravity::{
    settled, settle_events, drop_tiles_with_source, lemma_settle_prefix, lemma_settled,
};
use crate::cascade::{
    Outcome, after, cascade, cascade_core, is_outcome, unchanged, matched_count,
    lemma_matched_count, lemma_cascade, lemma_cascade_used,
};
use crate::tiles::{
    TileSource, all_ordinary, lemma_leads_nowhere, lemma_leads_on, lemma_drawn_since,
};

verus! {

/// What a move comes to when the draws are `d`: the cascade from the grid
/// with the two cells exchanged, if the cells are neighbours and the exchange
/// makes a match; nothing otherwise.
pub open spec fn move_outcome(
    g: Grid,
    x1: int,
    y1: int,
    x2: int,
    y2: int,
    score: int,
    d: Seq<u8>,
) -> Outcome {
    if adjacent(x1, y1, x2, y2) && has_match(swapped(g, x1, y1, x2, y2)) {
        cascade(swapped(g, x1, y1, x2, y2), score, false, d)
    } else {
        unchanged(g, score)
    }
}

/// What clearing the row and the column of a bonus tile scores: one for each
/// of their cells, the tile's own cell counted once.
pub open spec fn cross_gain() -> int {
    WIDTH + HEIGHT - 1
}

/// The grid with row `y` and column `x` emptied.
pub open spec fn crossed(g: Grid, x: int, y: int) -> Grid {
    Seq::new(
        HEIGHT as nat,
        |j: int|
            Seq::new(
                WIDTH as nat,
                |i: int|
                    if i == x || j == y {
                        0u8
                    } else {
                        g[j][i]
                    },
            ),
    )
}

/// What activating cell `(x, y)` comes to when the draws are `d`: nothing
/// unless the cell holds a bonus tile and the score can take the gain;
/// otherwise the tile's row and column are emptied and scored, the grid
/// settles, and a cascade follows.
pub open spec fn activation_outcome(g: Grid, x: int, y: int, score: int, d: Seq<u8>) -> Outcome {
    if g[y][x] != BONUS_TILE || score + cross_gain() > u32::MAX {
        unchanged(g, score)
    } else {
        let c = crossed(g, x, y);
        let k = count_of(c, 0u8);
        after(
            settle_events(c, d),
            k,
            cascade(settled(c, d), score + cross_gain(), false, d.skip(k)),
        )
    }
}

/// Exchanging two cells keeps the bonus tiles, the tile codes and the
/// fullness of a grid.
pub proof fn lemma_swapped(g: Grid, x1: int, y1: int, x2: int, y2: int)
    requires
        is_grid(g),
        in_bounds(x1, y1),
        in_bounds(x2, y2),
    ensures
        is_grid(swapped(g, x1, y1, x2, y2)),
        count_of(swapped(g, x1, y1, x2, y2), BONUS_TILE) == count_of(g, BONUS_TILE),
        well_formed(g) ==> well_formed(swapped(g, x1, y1, x2, y2)),
        is_full(g) ==> is_full(swapped(g, x1, y1, x2, y2)),
{
    let a = g[y1][x1];
    let b = g[y2][x2];
    let m = with_tile(g, x1, y1, b);
    let s = with_tile(m, x2, y2, a);
    lemma_with_tile(g, x1, y1, b);
    lemma_with_tile(m, x2, y2, a);
    lemma_count_with_tile(g, x1, y1, b, BONUS_TILE, WIDTH as int);
    lemma_count_with_tile(m, x2, y2, a, BONUS_TILE, WIDTH as int);
    assert forall|x: int, y: int| in_bounds(x, y) implies #[trigger] s[y][x] == (if x == x2 && y
        == y2 {
        a
    } else if x == x1 && y == y1 {
        b
    } else {
        g[y][x]
    }) by {
        if x != x2 || y != y2 {
            assert(s[y][x] == m[y][x]);
        }
    }
    if well_formed(g) {
        assert forall|x: int, y: int| in_bounds(x, y) implies is_tile_code(#[trigger] s[y][x]) by {
            assert(is_tile_code(g[y][x]));
            assert(is_tile_code(g[y1][x1]));
            assert(is_tile_code(g[y2][x2]));
        }
    }
    if is_full(g) {
        assert forall|x: int, y: int| in_bounds(x, y) implies #[trigger] s[y][x] != 0 by {
            assert(g[y][x] != 0);
            assert(g[y1][x1] != 0);
            assert(g[y2][x2] != 0);
        }
    }
}

/// A move does not depend on the order in which its two cells are named.
pub proof fn lemma_move_symmetric(
    g: Grid,
    x1: int,
    y1: int,
    x2: int,
    y2: int,
    score: int,
    d: Seq<u8>,
)
    requires
        is_grid(g),
        in_bounds(x1, y1),
        in_bounds(x2, y2),
    ensures
        move_outcome(g, x1, y1, x2, y2, score, d) == move_outcome(g, x2, y2, x1, y1, score, d),
{
    lemma_adjacent_symmetric(x1, y1, x2, y2);
    if adjacent(x1, y1, x2, y2) {
        let a = g[y1][x1];
        let b = g[y2][x2];
        let one = swapped(g, x1, y1, x2, y2);
        let other = swapped(g, x2, y2, x1, y1);
        lemma_with_tile(g, x1, y1, b);
        lemma_with_tile(with_tile(g, x1, y1, b), x2, y2, a);
        lemma_with_tile(g, x2, y2, a);
        lemma_with_tile(with_tile(g, x2, y2, a), x1, y1, b);
        assert forall|x: int, y: int| in_bounds(x, y) implies #[trigger] one[y][x]
            == #[trigger] other[y][x] by {
            if x == x2 && y == y2 {
                assert(other[y][x] == with_tile(g, x2, y2, a)[y][x]);
            } else if x == x1 && y == y1 {
                assert(one[y][x] == with_tile(g, x1, y1, b)[y][x]);
            } else {
                assert(one[y][x] == with_tile(g, x1, y1, b)[y][x]);
                assert(other[y][x] == with_tile(g, x2, y2, a)[y][x]);
            }
        }
        lemma_grid_equal(one, other);
    }
}

/// Emptying a row and a column adds no bonus tile and leaves only tile codes
/// where there were only tile codes.
pub proof fn lemma_crossed(g: Grid, x: int, y: int)
    requires
        is_grid(g),
    ensures
        is_grid(crossed(g, x, y)),
        count_of(crossed(g, x, y), BONUS_TILE) <= count_of(g, BONUS_TILE),
        well_formed(g) ==> well_formed(crossed(g, x, y)),
{
    let c = crossed(g, x, y);
    assert forall|i: int, j: int|
        in_bounds(i, j) && #[trigger] c[j][i] == BONUS_TILE implies #[trigger] g[j][i]
        == BONUS_TILE by {}
    lemma_count_le(c, g, BONUS_TILE, WIDTH as int);
    if well_formed(g) {
        assert forall|i: int, j: int| in_bounds(i, j) implies is_tile_code(#[trigger] c[j][i]) by {
            assert(is_tile_code(g[j][i]));
        }
    }
}

/// What holds of every move, whatever tiles are drawn: cells that are no
/// neighbours, and neighbours whose exchange makes no match, leave grid and
/// score as they are; the score does not fall; at most one bonus tile is
/// added; the grid that a cascade ends on has no match, unless the score
/// cannot take the gain of another pass; a full grid stays full, and a grid
/// of tile codes stays one.
pub proof fn lemma_move_outcome(
    g: Grid,
    x1: int,
    y1: int,
    x2: int,
    y2: int,
    score: int,
    d: Seq<u8>,
)
    requires
        is_grid(g),
        adjacent(x1, y1, x2, y2) ==> in_bounds(x1, y1) && in_bounds(x2, y2),
        0 <= score <= u32::MAX,
        all_ordinary(d),
        d.len() >= move_outcome(g, x1, y1, x2, y2, score, d).used,
    ensures
        !adjacent(x1, y1, x2, y2) || !has_match(swapped(g, x1, y1, x2, y2)) ==> move_outcome(
            g,
            x1,
            y1,
            x2,
            y2,
            score,
            d,
        ) == unchanged(g, score),
        is_grid(move_outcome(g, x1, y1, x2, y2, score, d).grid),
        score <= move_outcome(g, x1, y1, x2, y2, score, d).score <= u32::MAX,
        count_of(move_outcome(g, x1, y1, x2, y2, score, d).grid, BONUS_TILE) <= count_of(
            g,
            BONUS_TILE,
        ) + 1,
        move_outcome(g, x1, y1, x2, y2, score, d).grid == g || !has_match(
            move_outcome(g, x1, y1, x2, y2, score, d).grid,
        ) || move_outcome(g, x1, y1, x2, y2, score, d).score + matched_count(
            move_outcome(g, x1, y1, x2, y2, score, d).grid,
        ) > u32::MAX,
        is_full(g) ==> is_full(move_outcome(g, x1, y1, x2, y2, score, d).grid),
        well_formed(g) ==> well_formed(move_outcome(g, x1, y1, x2, y2, score, d).grid),
{
    if adjacent(x1, y1, x2, y2) && has_match(swapped(g, x1, y1, x2, y2)) {
        lemma_swapped(g, x1, y1, x2, y2);
        lemma_cascade(swapped(g, x1, y1, x2, y2), score, false, d);
    }
}

/// What holds of every activation, whatever tiles are drawn: a cell without
/// bonus tile leaves grid and score as they are; the score does not fall, and
/// a bonus tile that goes off scores one for each cell of its row and its
/// column at least; at most one bonus tile is added; the grid ends full and
/// without match, unless the score cannot take the gain of another pass; a
/// grid of tile codes stays one.
pub proof fn lemma_activation_outcome(g: Grid, x: int, y: int, score: int, d: Seq<u8>)
    requires
        is_grid(g),
        in_bounds(x, y),
        0 <= score <= u32::MAX,
        all_ordinary(d),
        d.len() >= activation_outcome(g, x, y, score, d).used,
    ensures
        g[y][x] != BONUS_TILE ==> activation_outcome(g, x, y, score, d) == unchanged(g, score),
        is_grid(activation_outcome(g, x, y, score, d).grid),
        score <= activation_outcome(g, x, y, score, d).score <= u32::MAX,
        activation_outcome(g, x, y, score, d) == unchanged(g, score) || ({
            &&& activation_outcome(g, x, y, score, d).score >= score + cross_gain()
            &&& is_full(activation_outcome(g, x, y, score, d).grid)
            &&& (!has_match(activation_outcome(g, x, y, score, d).grid) || activation_outcome(
                g,
                x,
                y,
                score,
                d,
            ).score + matched_count(activation_outcome(g, x, y, score, d).grid) > u32::MAX)
        }),
        count_of(activation_outcome(g, x, y, score, d).grid, BONUS_TILE) <= count_of(
            g,
            BONUS_TILE,
        ) + 1,
        well_formed(g) ==> well_formed(activation_outcome(g, x, y, score, d).grid),
{
    if !(g[y][x] != BONUS_TILE || score + cross_gain() > u32::MAX) {
        let c = crossed(g, x, y);
        let k = count_of(c, 0u8);
        lemma_crossed(g, x, y);
        lemma_count_before_range(c, 0u8, WIDTH as int);
        lemma_cascade_used(settled(c, d), score + cross_gain(), false, d.skip(k));
        let dk = d.take(k);
        assert(dk + d.skip(k) =~= d);
        lemma_settle_prefix(c, dk, d.skip(k));
        assert forall|i: int| 0 <= i < dk.len() implies is_ordinary(#[trigger] dk[i]) by {
            assert(is_ordinary(d[i]));
        }
        assert forall|i: int| 0 <= i < d.skip(k).len() implies is_ordinary(
            #[trigger] d.skip(k)[i],
        ) by {
            assert(is_ordinary(d[i + k]));
        }
        lemma_settled(c, dk);
        lemma_cascade(settled(c, d), score + cross_gain(), false, d.skip(k));
    }
}

/// Exchanges the tiles of two neighbouring cells and resolves the matches
/// that this makes, with tiles from `source`.
///
/// Cells that are no neighbours are left alone, and so are neighbours whose
/// exchange makes no match: the state returned is then the one given, with
/// no relocations. Neighbours must lie on the board.
///
/// The cascade ends as [`resolve_cascade_with_source`] says.
///
/// [`resolve_cascade_with_source`]: crate::cascade::resolve_cascade_with_source
pub fn move_tile_with_source(
    x1: usize,
    y1: usize,
    x2: usize,
    y2: usize,
    board: Board,
    score: u32,
    source: &mut TileSource,
) -> (r: GameState)
    requires
        adjacent(x1 as int, y1 as int, x2 as int, y2 as int) ==> in_bounds(x1 as int, y1 as int)
            && in_bounds(x2 as int, y2 as int),
    ensures
        ({
            let d = final(source).drawn_since(*old(source));
            let o = move_outcome(
                grid(board),
                x1 as int,
                y1 as int,
                x2 as int,
                y2 as int,
                score as int,
                d,
            );
            &&& old(source).leads_to(*final(source), d)
            &&& d.len() == o.used
            &&& is_outcome(r, o)
        }),
        !adjacent(x1 as int, y1 as int, x2 as int, y2 as int) ==> r.board == board && r.score
            == score && r.drops@.len() == 0,
        !has_match(swapped(grid(board), x1 as int, y1 as int, x2 as int, y2 as int)) ==> r.board
            == board && r.score == score && r.drops@.len() == 0,
        r.score >= score,
        count_of(grid(r.board), BONUS_TILE) <= count_of(grid(board), BONUS_TILE) + 1,
        r.board == board || match_groups(grid(r.board)).len() == 0 || r.score + matched_count(
            grid(r.board),
        ) > u32::MAX,
        is_full(grid(board)) ==> is_full(grid(r.board)),
        well_formed(grid(board)) ==> well_formed(grid(r.board)),
{
    proof {
        lemma_leads_nowhere(*source);
    }
    if !are_adjacent(x1, y1, x2, y2) {
        return GameState { board, score, drops: Vec::new() };
    }
    let mut current = board;
    let first = current[y1][x1];
    let second = current[y2][x2];
    put(&mut current, x1, y1, second);
    put(&mut current, x2, y2, first);
    proof {
        lemma_swapped(grid(board), x1 as int, y1 as int, x2 as int, y2 as int);
        lemma_matched_count(grid(current));
    }
    let (state, found) = cascade_core(current, score, source);
    if !found {
        return GameState { board, score, drops: Vec::new() };
    }
    proof {
        lemma_move_outcome(
            grid(board),
            x1 as int,
            y1 as int,
            x2 as int,
            y2 as int,
            score as int,
            final(source).drawn_since(*old(source)),
        );
        lemma_matches_empty(grid(state.board));
        if grid(state.board) == grid(board) {
            lemma_grid_injective(state.board, board);
        }
    }
    state
}

/// Exchanges the tiles of two neighbouring cells and resolves the matches
/// that this makes, with random tiles. See [`move_tile_with_source`].
pub fn move_tile(x1: usize, y1: usize, x2: usize, y2: usize, board: Board, score: u32) -> (r:
    GameState)
    requires
        adjacent(x1 as int, y1 as int, x2 as int, y2 as int) ==> in_bounds(x1 as int, y1 as int)
            && in_bounds(x2 as int, y2 as int),
    ensures
        (exists|d: Seq<u8>|
            {
                let o = #[trigger] move_outcome(
                    grid(board),
                    x1 as int,
                    y1 as int,
                    x2 as int,
                    y2 as int,
                    score as int,
                    d,
                );
                &&& all_ordinary(d)
                &&& d.len() == o.used
                &&& is_outcome(r, o)
            }),
        !adjacent(x1 as int, y1 as int, x2 as int, y2 as int) ==> r.board == board && r.score
            == score && r.drops@.len() == 0,
        !has_match(swapped(grid(board), x1 as int, y1 as int, x2 as int, y2 as int)) ==> r.board
            == board && r.score == score && r.drops@.len() == 0,
        r.score >= score,
        count_of(grid(r.board), BONUS_TILE) <= count_of(grid(board), BONUS_TILE) + 1,
        r.board == board || match_groups(grid(r.board)).len() == 0 || r.score + matched_count(
            grid(r.board),
        ) > u32::MAX,
        is_full(grid(board)) ==> is_full(grid(r.board)),
        well_formed(grid(board)) ==> well_formed(grid(r.board)),
{
    let mut source = TileSource::random();
    let ghost start = source;
    let state = move_tile_with_source(x1, y1, x2, y2, board, score, &mut source);
    proof {
        let d = source.drawn_since(start);
        let o = move_outcome(
            grid(board),
            x1 as int,
            y1 as int,
            x2 as int,
            y2 as int,
            score as int,
            d,
        );
        assert(d.len() == o.used);
    }
    state
}

/// Empties row `y` and column `x` of the board.
fn clear_cross(board: &mut Board, x: usize, y: usize)
    requires
        in_bounds(x as int, y as int),
    ensures
        grid(*final(board)) == crossed(grid(*old(board)), x as int, y as int),
{
    let ghost g = grid(*board);
    let mut i: usize = 0;
    while i < WIDTH
        invariant
            i <= WIDTH,
            in_bounds(x as int, y as int),
            is_grid(g),
            forall|a: int, b: int|
                in_bounds(a, b) ==> #[trigger] grid(*board)[b][a] == if b == y && a < i {
                    0u8
                } else {
                    g[b][a]
                },
        decreases WIDTH - i,
    {
        let ghost prior = grid(*board);
        put(board, i, y, 0);
        proof {
            lemma_with_tile(prior, i as int, y as int, 0u8);
        }
        i = i + 1;
    }
    let mut j: usize = 0;
    while j < HEIGHT
        invariant
            j <= HEIGHT,
            in_bounds(x as int, y as int),
            is_grid(g),
            forall|a: int, b: int|
                in_bounds(a, b) ==> #[trigger] grid(*board)[b][a] == if b == y || (a == x && b
                    < j) {
                    0u8
                } else {
                    g[b][a]
                },
        decreases HEIGHT - j,
    {
        let ghost prior = grid(*board);
        put(board, x, j, 0);
        proof {
            lemma_with_tile(prior, x as int, j as int, 0u8);
        }
        j = j + 1;
    }
    proof {
        lemma_grid_equal(grid(*board), crossed(g, x as int, y as int));
    }
}

/// Sets off the bonus tile in cell `(x, y)`: empties its row and its column,
/// scores one for each of their cells, lets the board settle with tiles from
/// `source`, and resolves the matches that follow.
///
/// A cell that holds no bonus tile is left alone: the state returned is then
/// the one given, with no relocations. So is a bonus tile whose gain the
/// score cannot take. The cell must lie on the board.
///
/// The cascade that follows may place a bonus tile of its own, and ends as
/// [`resolve_cascade_with_source`] says.
///
/// [`resolve_cascade_with_source`]: crate::cascade::resolve_cascade_with_source
pub fn activate_bonus_tile_with_source(
    x: usize,
    y: usize,
    board: Board,
    score: u32,
    source: &mut TileSource,
) -> (r: GameState)
    requires
        in_bounds(x as int, y as int),
    ensures
        ({
            let d = final(source).drawn_since(*old(source));
            let o = activation_outcome(grid(board), x as int, y as int, score as int, d);
            &&& old(source).leads_to(*final(source), d)
            &&& d.len() == o.used
            &&& is_outcome(r, o)
        }),
        board[y as int][x as int] != BONUS_TILE ==> r.board == board && r.score == score
            && r.drops@.len() == 0,
        r.score >= score,
        r.board == board || r.score >= score + cross_gain(),
        count_of(grid(r.board), BONUS_TILE) <= count_of(grid(board), BONUS_TILE) + 1,
        r.board == board || match_groups(grid(r.board)).len() == 0 || r.score + matched_count(
            grid(r.board),
        ) > u32::MAX,
        r.board == board || is_full(grid(r.board)),
        well_formed(grid(board)) ==> well_formed(grid(r.board)),
{
    proof {
        lemma_leads_nowhere(*source);
    }
    let bonus: u32 = (WIDTH + HEIGHT - 1) as u32;
    if board[y][x] != BONUS_TILE || score > u32::MAX - bonus {
        return GameState { board, score, drops: Vec::new() };
    }
    let ghost start = *source;
    let mut current = board;
    clear_cross(&mut current, x, y);
    let ghost c = grid(current);
    let mut drops = drop_tiles_with_source(&mut current, source);
    let ghost mid = *source;
    let ghost d1 = source.drawn_since(start);
    let (state, _) = cascade_core(current, score + bonus, source);
    let GameState { board: last, score: total, drops: mut later } = state;
    drops.append(&mut later);
    proof {
        let d2 = source.drawn_since(mid);
        lemma_leads_on(start, mid, *source, d1, d2);
        lemma_drawn_since(start, *source, d1 + d2);
        lemma_settle_prefix(c, d1, d2);
        assert((d1 + d2).skip(d1.len() as int) =~= d2);
        lemma_activation_outcome(grid(board), x as int, y as int, score as int, d1 + d2);
        lemma_matches_empty(grid(last));
        if grid(last) == grid(board) {
            lemma_grid_injective(last, board);
        }
    }
    GameState { board: last, score: total, drops }
}

/// Sets off the bonus tile in cell `(x, y)` and refills the board with
/// random tiles. See [`activate_bonus_tile_with_source`].
pub fn activate_bonus_tile(x: usize, y: usize, board: Board, score: u32) -> (r: GameState)
    requires
        in_bounds(x as int, y as int),
    ensures
        (exists|d: Seq<u8>|
            {
                let o = #[trigger] activation_outcome(
                    grid(board),
                    x as int,
                    y as int,
                    score as int,
                    d,
                );
                &&& all_ordinary(d)
                &&& d.len() == o.used
                &&& is_outcome(r, o)
            }),
        board[y as int][x as int] != BONUS_TILE ==> r.board == board && r.score == score
            && r.drops@.len() == 0,
        r.score >= score,
        r.board == board || r.score >= score + cross_gain(),
        count_of(grid(r.board), BONUS_TILE) <= count_of(grid(board), BONUS_TILE) + 1,
        r.board == board || match_groups(grid(r.board)).len() == 0 || r.score + matched_count(
            grid(r.board),
        ) > u32::MAX,
        r.board == board || is_full(grid(r.board)),
        well_formed(grid(board)) ==> well_formed(grid(r.board)),
{
    let mut source = TileSource::random();
    let ghost start = source;
    let state = activate_bonus_tile_with_source(x, y, board, score, &mut source);
    proof {
        let d = source.drawn_since(start);
        let o = activation_outcome(grid(board), x as int, y as int, score as int, d);
        assert(d.len() == o.used);
    }
    state
}

} // verus!
