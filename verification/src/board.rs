use vstd::prelude::*;
use crate::constants::{WIDTH, HEIGHT, MAX_REDRAWS};
use crate::types::{Board, GameState};
use crate::grid::{
    Grid, grid, in_bounds, is_grid, is_full, is_ordinary, well_formed, column, with_tile, put,
    lemma_with_tile, lemma_grid_equal,
};
use crate::matches::{match_groups, has_match, in_match, triple, lemma_matches_empty};
use crate::tiles::{
    TileSource, all_ordinary, lemma_leads_nowhere, lemma_leads_on, lemma_drawn_since,
};

verus! {

/// The grid of empty cells.
pub open spec fn blank() -> Grid {
    Seq::new(HEIGHT as nat, |y: int| Seq::new(WIDTH as nat, |x: int| 0u8))
}

/// The tile `t` in cell `(x, y)` completes no run of three with the two
/// cells to its left, nor with the two cells above it.
pub open spec fn fits(g: Grid, x: int, y: int, t: u8) -> bool {
    &&& !(x >= 2 && g[y][x - 1] == t && g[y][x - 2] == t)
    &&& !(y >= 2 && g[y - 1][x] == t && g[y - 2][x] == t)
}

/// The lowest colour that fits cell `(x, y)`. The cells to the left and the
/// cells above rule out one colour each at most, so one of the first three
/// fits.
pub open spec fn lowest_fit(g: Grid, x: int, y: int) -> u8 {
    if fits(g, x, y, 1) {
        1
    } else if fits(g, x, y, 2) {
        2
    } else {
        3
    }
}

/// The tile for cell `(x, y)` and the number of draws that it takes: the
/// first of the draws `d` that fits, and after `tries` draws that do not fit
/// the lowest colour that does.
pub open spec fn chosen(g: Grid, x: int, y: int, d: Seq<u8>, tries: int) -> (u8, int)
    decreases tries,
{
    if tries <= 0 {
        (lowest_fit(g, x, y), 0)
    } else if fits(g, x, y, d[0]) {
        (d[0], 1)
    } else {
        let later = chosen(g, x, y, d.skip(1), tries - 1);
        (later.0, later.1 + 1)
    }
}

/// The grid `g` with the cells from `(x, y)` on filled in reading order from
/// the draws `d`, and the number of draws that this takes.
pub open spec fn fill_from(g: Grid, x: int, y: int, d: Seq<u8>) -> (Grid, int)
    decreases HEIGHT - y, WIDTH - x,
{
    if y >= HEIGHT {
        (g, 0)
    } else if x >= WIDTH {
        fill_from(g, 0, y + 1, d)
    } else {
        let c = chosen(g, x, y, d, MAX_REDRAWS as int);
        let rest = fill_from(with_tile(g, x, y, c.0), x + 1, y, d.skip(c.1));
        (rest.0, c.1 + rest.1)
    }
}

/// The fresh board that the draws `d` make, and the number of draws used.
pub open spec fn generated(d: Seq<u8>) -> (Grid, int) {
    fill_from(blank(), 0, 0, d)
}

/// Cell `(i, j)` comes before cell `(x, y)` in reading order.
pub open spec fn comes_before(i: int, j: int, x: int, y: int) -> bool {
    j < y || (j == y && i < x)
}

/// Filling that has taken the draws `d` and come to grid `g` and cell
/// `(x, y)` goes on with the draws `t` as filling `g` from `(x, y)` does.
spec fn refills(d: Seq<u8>, g: Grid, x: int, y: int, t: Seq<u8>) -> bool {
    generated(d + t) == (fill_from(g, x, y, t).0, d.len() + fill_from(g, x, y, t).1)
}

/// Draws that do not fit are passed over.
proof fn lemma_chosen_skip(g: Grid, x: int, y: int, d: Seq<u8>, t: Seq<u8>, tries: int)
    requires
        d.len() <= tries,
        forall|i: int| 0 <= i < d.len() ==> !fits(g, x, y, #[trigger] d[i]),
    ensures
        chosen(g, x, y, d + t, tries) == (
            chosen(g, x, y, t, tries - d.len()).0,
            d.len() + chosen(g, x, y, t, tries - d.len()).1,
        ),
    decreases d.len(),
{
    if d.len() == 0 {
        assert(d + t =~= t);
    } else {
        assert((d + t)[0] == d[0]);
        assert((d + t).skip(1) =~= d.skip(1) + t);
        assert forall|i: int| 0 <= i < d.skip(1).len() implies !fits(
            g,
            x,
            y,
            #[trigger] d.skip(1)[i],
        ) by {
            assert(d.skip(1)[i] == d[i + 1]);
        }
        lemma_chosen_skip(g, x, y, d.skip(1), t, tries - 1);
    }
}

/// The lowest colour that fits is an ordinary tile that fits.
pub proof fn lemma_lowest_fit(g: Grid, x: int, y: int)
    ensures
        is_ordinary(lowest_fit(g, x, y)),
        fits(g, x, y, lowest_fit(g, x, y)),
{
}

/// A grid in which no tile completes a run of three with the cells to its
/// left or above it has no match.
pub proof fn lemma_no_runs(g: Grid)
    requires
        is_grid(g),
        forall|x: int, y: int| in_bounds(x, y) ==> fits(g, x, y, #[trigger] g[y][x]),
    ensures
        !has_match(g),
        match_groups(g).len() == 0,
{
    assert forall|x: int, y: int| in_bounds(x, y) implies !in_match(g, x, y) by {
        assert forall|w: int| !triple(g[y], w) by {
            if triple(g[y], w) {
                assert(in_bounds(w + 2, y));
                assert(fits(g, w + 2, y, g[y][w + 2]));
            }
        }
        assert forall|w: int| !triple(column(g, x), w) by {
            if triple(column(g, x), w) {
                assert(in_bounds(x, w + 2));
                assert(fits(g, x, w + 2, g[w + 2][x]));
            }
        }
    }
    lemma_matches_empty(g);
}

/// Choosing a tile takes no negative number of draws, and no more than the
/// redraws allowed.
pub proof fn lemma_chosen_used(g: Grid, x: int, y: int, d: Seq<u8>, tries: int)
    requires
        0 <= tries,
    ensures
        0 <= chosen(g, x, y, d, tries).1 <= tries,
    decreases tries,
{
    if tries > 0 && !fits(g, x, y, d[0]) {
        lemma_chosen_used(g, x, y, d.skip(1), tries - 1);
    }
}

/// The tile chosen for a cell is an ordinary tile that fits.
pub proof fn lemma_chosen(g: Grid, x: int, y: int, d: Seq<u8>, tries: int)
    requires
        0 <= tries,
        all_ordinary(d),
        d.len() >= chosen(g, x, y, d, tries).1,
    ensures
        is_ordinary(chosen(g, x, y, d, tries).0),
        fits(g, x, y, chosen(g, x, y, d, tries).0),
    decreases tries,
{
    if tries <= 0 {
        lemma_lowest_fit(g, x, y);
    } else if fits(g, x, y, d[0]) {
        assert(is_ordinary(d[0]));
    } else {
        lemma_chosen_used(g, x, y, d.skip(1), tries - 1);
        assert forall|i: int| 0 <= i < d.skip(1).len() implies is_ordinary(
            #[trigger] d.skip(1)[i],
        ) by {
            assert(is_ordinary(d[i + 1]));
        }
        lemma_chosen(g, x, y, d.skip(1), tries - 1);
    }
}

/// Filling takes no negative number of draws.
pub proof fn lemma_fill_used(g: Grid, x: int, y: int, d: Seq<u8>)
    ensures
        fill_from(g, x, y, d).1 >= 0,
    decreases HEIGHT - y, WIDTH - x,
{
    if y < HEIGHT {
        if x >= WIDTH {
            lemma_fill_used(g, 0, y + 1, d);
        } else {
            let c = chosen(g, x, y, d, MAX_REDRAWS as int);
            lemma_chosen_used(g, x, y, d, MAX_REDRAWS as int);
            lemma_fill_used(with_tile(g, x, y, c.0), x + 1, y, d.skip(c.1));
        }
    }
}

/// Every cell of the grid that comes before `(x, y)` in reading order holds
/// an ordinary tile that fits.
pub open spec fn laid_out(g: Grid, x: int, y: int) -> bool {
    forall|i: int, j: int|
        in_bounds(i, j) && comes_before(i, j, x, y) ==> is_ordinary(#[trigger] g[j][i]) && fits(
            g,
            i,
            j,
            g[j][i],
        )
}

/// Filling a grid that is laid out up to `(x, y)` lays it out to the end.
pub proof fn lemma_fill_from(g: Grid, x: int, y: int, d: Seq<u8>)
    requires
        is_grid(g),
        0 <= x <= WIDTH,
        0 <= y <= HEIGHT,
        laid_out(g, x, y),
        all_ordinary(d),
        d.len() >= fill_from(g, x, y, d).1,
    ensures
        is_grid(fill_from(g, x, y, d).0),
        laid_out(fill_from(g, x, y, d).0, 0, HEIGHT as int),
    decreases HEIGHT - y, WIDTH - x,
{
    if y >= HEIGHT {
        assert forall|i: int, j: int|
            in_bounds(i, j) && comes_before(i, j, 0, HEIGHT as int) implies is_ordinary(
            #[trigger] g[j][i],
        ) && fits(g, i, j, g[j][i]) by {
            assert(comes_before(i, j, x, y));
        }
    } else if x >= WIDTH {
        assert forall|i: int, j: int|
            in_bounds(i, j) && comes_before(i, j, 0, y + 1) implies is_ordinary(
            #[trigger] g[j][i],
        ) && fits(g, i, j, g[j][i]) by {
            assert(comes_before(i, j, x, y));
        }
        lemma_fill_from(g, 0, y + 1, d);
    } else {
        let c = chosen(g, x, y, d, MAX_REDRAWS as int);
        let h = with_tile(g, x, y, c.0);
        lemma_chosen_used(g, x, y, d, MAX_REDRAWS as int);
        lemma_fill_used(h, x + 1, y, d.skip(c.1));
        lemma_chosen(g, x, y, d, MAX_REDRAWS as int);
        lemma_with_tile(g, x, y, c.0);
        assert forall|i: int| 0 <= i < d.skip(c.1).len() implies is_ordinary(
            #[trigger] d.skip(c.1)[i],
        ) by {
            assert(is_ordinary(d[i + c.1]));
        }
        assert forall|i: int, j: int|
            in_bounds(i, j) && comes_before(i, j, x + 1, y) implies is_ordinary(
            #[trigger] h[j][i],
        ) && fits(h, i, j, h[j][i]) by {
            if i != x || j != y {
                assert(comes_before(i, j, x, y));
                assert(is_ordinary(g[j][i]) && fits(g, i, j, g[j][i]));
            }
            if i >= 2 {
                assert(h[j][i - 1] == g[j][i - 1]);
                assert(h[j][i - 2] == g[j][i - 2]);
            }
            if j >= 2 {
                assert(h[j - 1][i] == g[j - 1][i]);
                assert(h[j - 2][i] == g[j - 2][i]);
            }
        }
        lemma_fill_from(h, x + 1, y, d.skip(c.1));
    }
}

/// Whatever tiles are drawn, the fresh board is full of ordinary tiles and
/// has no match.
pub proof fn lemma_generated(d: Seq<u8>)
    requires
        all_ordinary(d),
        d.len() >= generated(d).1,
    ensures
        is_grid(generated(d).0),
        forall|x: int, y: int| in_bounds(x, y) ==> is_ordinary(#[trigger] generated(d).0[y][x]),
        is_full(generated(d).0),
        well_formed(generated(d).0),
        !has_match(generated(d).0),
        match_groups(generated(d).0).len() == 0,
{
    lemma_fill_from(blank(), 0, 0, d);
    let g = generated(d).0;
    assert forall|x: int, y: int| in_bounds(x, y) implies is_ordinary(#[trigger] g[y][x]) && fits(
        g,
        x,
        y,
        g[y][x],
    ) by {
        assert(comes_before(x, y, 0, HEIGHT as int));
    }
    lemma_no_runs(g);
}

/// Tells whether `tile` in cell `(x, y)` would complete a run of three with
/// the cells to its left or above it.
fn completes_run(board: &Board, x: usize, y: usize, tile: u8) -> (r: bool)
    requires
        in_bounds(x as int, y as int),
    ensures
        r == !fits(grid(*board), x as int, y as int, tile),
{
    (x >= 2 && board[y][x - 1] == tile && board[y][x - 2] == tile) || (y >= 2 && board[y
        - 1][x] == tile && board[y - 2][x] == tile)
}

/// Picks the tile for cell `(x, y)`: the first draw that completes no run,
/// and after `MAX_REDRAWS` draws the lowest colour that completes none.
fn choose_tile(board: &Board, x: usize, y: usize, source: &mut TileSource) -> (tile: u8)
    requires
        in_bounds(x as int, y as int),
    ensures
        is_ordinary(tile),
        fits(grid(*board), x as int, y as int, tile),
        old(source).leads_to(*final(source), final(source).drawn_since(*old(source))),
        forall|t: Seq<u8>| #[trigger]
            chosen(
                grid(*board),
                x as int,
                y as int,
                final(source).drawn_since(*old(source)) + t,
                MAX_REDRAWS as int,
            ) == (tile, final(source).drawn_since(*old(source)).len() as int),
{
    let ghost g = grid(*board);
    let ghost start = *source;
    let mut tries: usize = 0;
    proof {
        lemma_leads_nowhere(start);
    }
    while tries < MAX_REDRAWS
        invariant
            tries <= MAX_REDRAWS,
            in_bounds(x as int, y as int),
            g == grid(*board),
            start == *old(source),
            start.leads_to(*source, source.drawn_since(start)),
            source.drawn_since(start).len() == tries,
            forall|i: int|
                0 <= i < tries ==> !fits(
                    g,
                    x as int,
                    y as int,
                    #[trigger] source.drawn_since(start)[i],
                ),
        decreases MAX_REDRAWS - tries,
    {
        let ghost mid = *source;
        let ghost d0 = source.drawn_since(start);
        let tile = source.draw();
        proof {
            lemma_leads_on(start, mid, *source, d0, seq![tile]);
            lemma_drawn_since(start, *source, d0 + seq![tile]);
        }
        if !completes_run(board, x, y, tile) {
            proof {
                let d = source.drawn_since(start);
                assert forall|t: Seq<u8>| #[trigger]
                    chosen(g, x as int, y as int, d + t, MAX_REDRAWS as int) == (
                        tile,
                        d.len() as int,
                    ) by {
                    assert(d + t =~= d0 + (seq![tile] + t));
                    lemma_chosen_skip(
                        g,
                        x as int,
                        y as int,
                        d0,
                        seq![tile] + t,
                        MAX_REDRAWS as int,
                    );
                    assert((seq![tile] + t)[0] == tile);
                }
                assert(is_ordinary(d[tries as int]));
            }
            return tile;
        }
        proof {
            let d = source.drawn_since(start);
            assert forall|i: int| 0 <= i < tries + 1 implies !fits(
                g,
                x as int,
                y as int,
                #[trigger] d[i],
            ) by {
                if i < tries {
                    assert(d[i] == d0[i]);
                }
            }
        }
        tries = tries + 1;
    }
    proof {
        let d = source.drawn_since(start);
        lemma_lowest_fit(g, x as int, y as int);
        assert forall|t: Seq<u8>| #[trigger]
            chosen(g, x as int, y as int, d + t, MAX_REDRAWS as int) == (
                lowest_fit(g, x as int, y as int),
                d.len() as int,
            ) by {
            lemma_chosen_skip(g, x as int, y as int, d, t, MAX_REDRAWS as int);
        }
    }
    if !completes_run(board, x, y, 1) {
        1
    } else if !completes_run(board, x, y, 2) {
        2
    } else {
        3
    }
}

/// Lays out a fresh board with tiles from `source`.
///
/// The cells are filled in reading order. A tile that would complete a run of
/// three with the cells to its left or above it is drawn again, so the board
/// has no match. A cell for which `MAX_REDRAWS` tiles were drawn in vain
/// takes the lowest colour that completes no run.
pub fn generate_board_with_source(source: &mut TileSource) -> (r: GameState)
    ensures
        ({
            let d = final(source).drawn_since(*old(source));
            &&& old(source).leads_to(*final(source), d)
            &&& grid(r.board) == generated(d).0
            &&& d.len() == generated(d).1
        }),
        r.score == 0,
        r.drops@.len() == 0,
        match_groups(grid(r.board)).len() == 0,
        forall|x: int, y: int| in_bounds(x, y) ==> is_ordinary(#[trigger] grid(r.board)[y][x]),
        well_formed(grid(r.board)),
        is_full(grid(r.board)),
{
    let ghost start = *source;
    let mut board: Board = [[0u8; WIDTH]; HEIGHT];
    proof {
        lemma_leads_nowhere(start);
        lemma_grid_equal(grid(board), blank());
        assert forall|t: Seq<u8>| #[trigger] refills(Seq::<u8>::empty(), grid(board), 0, 0, t) by {
            assert(Seq::<u8>::empty() + t =~= t);
        }
    }
    let mut y: usize = 0;
    while y < HEIGHT
        invariant
            y <= HEIGHT,
            start.leads_to(*source, source.drawn_since(start)),
            forall|t: Seq<u8>| #[trigger]
                refills(source.drawn_since(start), grid(board), 0, y as int, t),
        decreases HEIGHT - y,
    {
        let mut x: usize = 0;
        while x < WIDTH
            invariant
                y < HEIGHT,
                x <= WIDTH,
                start.leads_to(*source, source.drawn_since(start)),
                forall|t: Seq<u8>| #[trigger]
                    refills(source.drawn_since(start), grid(board), x as int, y as int, t),
            decreases WIDTH - x,
        {
            let ghost mid = *source;
            let ghost d0 = source.drawn_since(start);
            let ghost g = grid(board);
            let tile = choose_tile(&board, x, y, source);
            put(&mut board, x, y, tile);
            proof {
                let dc = source.drawn_since(mid);
                lemma_leads_on(start, mid, *source, d0, dc);
                lemma_drawn_since(start, *source, d0 + dc);
                lemma_with_tile(g, x as int, y as int, tile);
                assert forall|t: Seq<u8>| #[trigger]
                    refills(d0 + dc, grid(board), x + 1, y as int, t) by {
                    assert(refills(d0, g, x as int, y as int, dc + t));
                    assert(d0 + (dc + t) =~= (d0 + dc) + t);
                    assert(chosen(g, x as int, y as int, dc + t, MAX_REDRAWS as int) == (
                        tile,
                        dc.len() as int,
                    ));
                    assert((dc + t).skip(dc.len() as int) =~= t);
                }
            }
            x = x + 1;
        }
        proof {
            assert forall|t: Seq<u8>| #[trigger]
                refills(source.drawn_since(start), grid(board), 0, y + 1, t) by {
                assert(refills(source.drawn_since(start), grid(board), WIDTH as int, y as int, t));
            }
        }
        y = y + 1;
    }
    proof {
        let d = source.drawn_since(start);
        assert(refills(d, grid(board), 0, HEIGHT as int, Seq::<u8>::empty()));
        assert(d + Seq::<u8>::empty() =~= d);
        lemma_generated(d);
    }
    GameState { board, score: 0, drops: Vec::new() }
}

/// Lays out a fresh board with random tiles. See [`generate_board_with_source`].
pub fn generate_board() -> (r: GameState)
    ensures
        (exists|d: Seq<u8>|
            {
                &&& all_ordinary(d)
                &&& grid(r.board) == (#[trigger] generated(d)).0
                &&& d.len() == generated(d).1
            }),
        r.score == 0,
        r.drops@.len() == 0,
        match_groups(grid(r.board)).len() == 0,
        forall|x: int, y: int| in_bounds(x, y) ==> is_ordinary(#[trigger] grid(r.board)[y][x]),
        well_formed(grid(r.board)),
        is_full(grid(r.board)),
{
    let mut source = TileSource::random();
    let ghost start = source;
    let state = generate_board_with_source(&mut source);
    proof {
        let d = source.drawn_since(start);
        assert(grid(state.board) == generated(d).0);
    }
    state
}

} // verus!
