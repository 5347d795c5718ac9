use vstd::prelude::*;
use crate::constants::{WIDTH, HEIGHT, BONUS_TILE};
use crate::types::{Board, DropInfo, GameState};
use crate::grid::{
    Grid, grid, in_bounds, is_grid, is_full, is_ordinary, is_tile_code, well_formed, column,
    count_of, with_tile, put, lemma_with_tile, lemma_grid_equal, lemma_count_before_range,
    lemma_count_with_tile, lemma_count_none, lemma_count_agree,
};
use crate::matches::{
    Group, match_groups, groups_of, in_match, in_line_match, triple, has_match, find_matches,
    lemma_match_cell, lemma_matches_cover, lemma_matches_empty,
};
use crate::gravity::{
    settled, settle_events, drop_tiles_with_source, lemma_settle_prefix, lemma_settled,
};
use crate::tiles::{
    TileSource, all_ordinary, lemma_leads_nowhere, lemma_leads_on, lemma_drawn_since,
};

verus! {

/// The table that marks the matched cells of a grid.
pub open spec fn marks(g: Grid) -> Seq<Seq<bool>> {
    Seq::new(HEIGHT as nat, |y: int| Seq::new(WIDTH as nat, |x: int| in_match(g, x, y)))
}

/// How many cells of the grid belong to a match. A cell where a horizontal
/// and a vertical match cross counts once.
pub open spec fn matched_count(g: Grid) -> int {
    count_of(marks(g), true)
}

/// The score for clearing `n` matched cells: three for a run of three, and
/// one more for each cell beyond.
pub open spec fn gain(n: int) -> int {
    3 + (n - 3)
}

/// The grid with every matched cell emptied. A matched cell that holds a
/// bonus tile keeps it.
pub open spec fn cleared(g: Grid) -> Grid {
    Seq::new(
        HEIGHT as nat,
        |y: int|
            Seq::new(
                WIDTH as nat,
                |x: int|
                    if in_match(g, x, y) && g[y][x] != BONUS_TILE {
                        0u8
                    } else {
                        g[y][x]
                    },
            ),
    )
}

/// The index of the first group at or after `from` that has five cells or
/// more; the number of groups where there is none.
pub open spec fn first_long(groups: Seq<Group>, from: int) -> int
    decreases groups.len() - from,
{
    if from < 0 || from >= groups.len() {
        groups.len() as int
    } else if groups[from].len() >= 5 {
        from
    } else {
        first_long(groups, from + 1)
    }
}

/// Where a bonus tile is due: the middle cell of the first group of five
/// cells or more.
pub open spec fn bonus_spot(groups: Seq<Group>) -> Option<(usize, usize)> {
    let i = first_long(groups, 0);
    if i < groups.len() {
        Some(groups[i][groups[i].len() as int / 2])
    } else {
        None
    }
}

/// The grid with the bonus tile that `groups` earns, unless one was `placed`
/// before.
pub open spec fn with_bonus(g: Grid, groups: Seq<Group>, placed: bool) -> Grid {
    match bonus_spot(groups) {
        Some(p) => if placed {
            g
        } else {
            with_tile(g, p.0 as int, p.1 as int, BONUS_TILE)
        },
        None => g,
    }
}

/// How a cascade ends: the grid, the score, the relocations in their order,
/// and the number of tiles drawn.
pub struct Outcome {
    pub grid: Grid,
    pub score: int,
    pub drops: Seq<DropInfo>,
    pub used: int,
}

/// The outcome `o`, reached after the relocations `events` and `used` draws.
pub open spec fn after(events: Seq<DropInfo>, used: int, o: Outcome) -> Outcome {
    Outcome { grid: o.grid, score: o.score, drops: events + o.drops, used: used + o.used }
}

/// The cascade from grid `g` and `score`, fed with the draws `d`.
///
/// Each pass scores the matched cells, empties them, places a bonus tile if
/// one is due and none was `placed` before, and lets the grid settle with the
/// next draws. The cascade ends when no cell is matched, or when the score
/// cannot take the next gain.
pub open spec fn cascade(g: Grid, score: int, placed: bool, d: Seq<u8>) -> Outcome
    decreases u32::MAX - score,
{
    let n = matched_count(g);
    if n <= 0 || score + gain(n) > u32::MAX {
        Outcome { grid: g, score, drops: Seq::empty(), used: 0 }
    } else {
        let b = with_bonus(cleared(g), match_groups(g), placed);
        let k = count_of(b, 0u8);
        after(
            settle_events(b, d),
            k,
            cascade(
                settled(b, d),
                score + gain(n),
                placed || bonus_spot(match_groups(g)) is Some,
                d.skip(k),
            ),
        )
    }
}

/// The cascade that was fed `d` and came to grid `g`, `total` and `events`
/// goes on with the draws `t` as the cascade from `g` does.
spec fn resumes(
    g0: Grid,
    score: int,
    d: Seq<u8>,
    events: Seq<DropInfo>,
    g: Grid,
    total: int,
    placed: bool,
    t: Seq<u8>,
) -> bool {
    cascade(g0, score, false, d + t) == after(events, d.len() as int, cascade(g, total, placed, t))
}

proof fn lemma_three_marked(m: Seq<Seq<bool>>, a: (int, int), b: (int, int), c: (int, int))
    requires
        is_grid(m),
        in_bounds(a.0, a.1) && in_bounds(b.0, b.1) && in_bounds(c.0, c.1),
        a != b && a != c && b != c,
        m[a.1][a.0] && m[b.1][b.0] && m[c.1][c.0],
    ensures
        count_of(m, true) >= 3,
{
    let m1 = with_tile(m, a.0, a.1, false);
    lemma_with_tile(m, a.0, a.1, false);
    lemma_count_with_tile(m, a.0, a.1, false, true, WIDTH as int);
    assert(m1[b.1][b.0] == m[b.1][b.0]);
    assert(m1[c.1][c.0] == m[c.1][c.0]);
    let m2 = with_tile(m1, b.0, b.1, false);
    lemma_with_tile(m1, b.0, b.1, false);
    lemma_count_with_tile(m1, b.0, b.1, false, true, WIDTH as int);
    assert(m2[c.1][c.0] == m1[c.1][c.0]);
    let m3 = with_tile(m2, c.0, c.1, false);
    lemma_count_with_tile(m2, c.0, c.1, false, true, WIDTH as int);
    lemma_count_before_range(m3, true, WIDTH as int);
}

/// A grid with a match has at least three matched cells, one without has
/// none, and no grid has more than it has cells.
pub proof fn lemma_matched_count(g: Grid)
    requires
        is_grid(g),
    ensures
        0 <= matched_count(g) <= WIDTH * HEIGHT,
        has_match(g) ==> matched_count(g) >= 3,
        !has_match(g) ==> matched_count(g) == 0,
{
    let m = marks(g);
    lemma_count_before_range(m, true, WIDTH as int);
    if has_match(g) {
        let (x, y) = choose|x: int, y: int| in_bounds(x, y) && #[trigger] in_match(g, x, y);
        if in_line_match(g[y], x) {
            let line = g[y];
            let w = if triple(line, x - 2) {
                x - 2
            } else if triple(line, x - 1) {
                x - 1
            } else {
                x
            };
            assert(in_line_match(line, w) && in_line_match(line, w + 1) && in_line_match(
                line,
                w + 2,
            ));
            assert(m[y][w] && m[y][w + 1] && m[y][w + 2]);
            lemma_three_marked(m, (w, y), (w + 1, y), (w + 2, y));
        } else {
            let line = column(g, x);
            let w = if triple(line, y - 2) {
                y - 2
            } else if triple(line, y - 1) {
                y - 1
            } else {
                y
            };
            assert(in_line_match(line, w) && in_line_match(line, w + 1) && in_line_match(
                line,
                w + 2,
            ));
            assert(m[w][x] && m[w + 1][x] && m[w + 2][x]);
            lemma_three_marked(m, (x, w), (x, w + 1), (x, w + 2));
        }
    } else {
        assert forall|x: int, y: int| in_bounds(x, y) implies #[trigger] m[y][x] != true by {
            assert(!in_match(g, x, y));
        }
        lemma_count_none(m, true, WIDTH as int);
    }
}

/// Clearing the matches keeps the bonus tiles, and leaves only tile codes
/// where there were only tile codes.
pub proof fn lemma_cleared(g: Grid)
    requires
        is_grid(g),
    ensures
        is_grid(cleared(g)),
        count_of(cleared(g), BONUS_TILE) == count_of(g, BONUS_TILE),
        well_formed(g) ==> well_formed(cleared(g)),
{
    let c = cleared(g);
    assert forall|i: int, j: int| in_bounds(i, j) implies ((#[trigger] c[j][i] == BONUS_TILE) <==> (
    #[trigger] g[j][i] == BONUS_TILE)) by {}
    lemma_count_agree(c, g, BONUS_TILE, WIDTH as int);
    if well_formed(g) {
        assert forall|x: int, y: int| in_bounds(x, y) implies is_tile_code(#[trigger] c[y][x]) by {
            assert(is_tile_code(g[y][x]));
        }
    }
}

/// The bonus tile that a pass earns lies on the board.
pub proof fn lemma_bonus_spot(g: Grid)
    requires
        is_grid(g),
    ensures
        bonus_spot(match_groups(g)) matches Some(p) ==> in_bounds(p.0 as int, p.1 as int),
{
    let groups = match_groups(g);
    lemma_first_long(groups, 0);
    let i = first_long(groups, 0);
    if i < groups.len() {
        lemma_match_cell(g, i, groups[i].len() as int / 2);
    }
}

proof fn lemma_first_long(groups: Seq<Group>, from: int)
    requires
        0 <= from <= groups.len(),
    ensures
        from <= first_long(groups, from) <= groups.len(),
        first_long(groups, from) < groups.len() ==> groups[first_long(groups, from)].len() >= 5,
        forall|i: int| from <= i < first_long(groups, from) ==> (#[trigger] groups[i]).len() < 5,
    decreases groups.len() - from,
{
    if from < groups.len() && groups[from].len() < 5 {
        lemma_first_long(groups, from + 1);
    }
}

/// Placing the bonus tile that a pass earns adds at most one bonus tile, and
/// none where one was placed before.
pub proof fn lemma_with_bonus(g: Grid, groups: Seq<Group>, placed: bool)
    requires
        is_grid(g),
        bonus_spot(groups) matches Some(p) ==> in_bounds(p.0 as int, p.1 as int),
    ensures
        is_grid(with_bonus(g, groups, placed)),
        count_of(g, BONUS_TILE) <= count_of(with_bonus(g, groups, placed), BONUS_TILE)
            <= count_of(g, BONUS_TILE) + 1,
        placed || bonus_spot(groups) is None ==> with_bonus(g, groups, placed) == g,
        well_formed(g) ==> well_formed(with_bonus(g, groups, placed)),
{
    if let Some(p) = bonus_spot(groups) {
        if !placed {
            let h = with_tile(g, p.0 as int, p.1 as int, BONUS_TILE);
            lemma_with_tile(g, p.0 as int, p.1 as int, BONUS_TILE);
            lemma_count_with_tile(g, p.0 as int, p.1 as int, BONUS_TILE, BONUS_TILE, WIDTH as int);
            if well_formed(g) {
                assert forall|x: int, y: int| in_bounds(x, y) implies is_tile_code(
                    #[trigger] h[y][x],
                ) by {
                    if x != p.0 || y != p.1 {
                        assert(is_tile_code(g[y][x]));
                    }
                }
            }
        }
    }
}

/// One pass of a cascade: with the draws `dk`, one for each cell that the
/// pass empties, the cascade goes on from the settled grid with what follows
/// them.
proof fn lemma_cascade_step(g: Grid, score: int, placed: bool, dk: Seq<u8>, t: Seq<u8>)
    requires
        matched_count(g) > 0,
        score + gain(matched_count(g)) <= u32::MAX,
        dk.len() == count_of(with_bonus(cleared(g), match_groups(g), placed), 0u8),
    ensures
        cascade(g, score, placed, dk + t) == after(
            settle_events(with_bonus(cleared(g), match_groups(g), placed), dk),
            dk.len() as int,
            cascade(
                settled(with_bonus(cleared(g), match_groups(g), placed), dk),
                score + gain(matched_count(g)),
                placed || bonus_spot(match_groups(g)) is Some,
                t,
            ),
        ),
{
    let b = with_bonus(cleared(g), match_groups(g), placed);
    lemma_settle_prefix(b, dk, t);
    assert((dk + t).skip(dk.len() as int) =~= t);
}

/// A cascade draws no negative number of tiles.
pub proof fn lemma_cascade_used(g: Grid, score: int, placed: bool, d: Seq<u8>)
    ensures
        cascade(g, score, placed, d).used >= 0,
    decreases u32::MAX - score,
{
    let n = matched_count(g);
    if !(n <= 0 || score + gain(n) > u32::MAX) {
        let b = with_bonus(cleared(g), match_groups(g), placed);
        let k = count_of(b, 0u8);
        lemma_count_before_range(b, 0u8, WIDTH as int);
        lemma_cascade_used(
            settled(b, d),
            score + gain(n),
            placed || bonus_spot(match_groups(g)) is Some,
            d.skip(k),
        );
    }
}

/// What holds of every cascade, whatever tiles are drawn: the score does not
/// fall; at most one bonus tile is added, and none if one was placed before;
/// the grid it ends on has no match, unless the score cannot take the gain of
/// another pass; a full grid stays full, and a grid of tile codes stays one.
pub proof fn lemma_cascade(g: Grid, score: int, placed: bool, d: Seq<u8>)
    requires
        is_grid(g),
        0 <= score <= u32::MAX,
        all_ordinary(d),
        d.len() >= cascade(g, score, placed, d).used,
    ensures
        is_grid(cascade(g, score, placed, d).grid),
        score <= cascade(g, score, placed, d).score <= u32::MAX,
        count_of(cascade(g, score, placed, d).grid, BONUS_TILE) <= count_of(g, BONUS_TILE) + (
        if placed {
            0int
        } else {
            1int
        }),
        !has_match(cascade(g, score, placed, d).grid) || cascade(g, score, placed, d).score
            + matched_count(cascade(g, score, placed, d).grid) > u32::MAX,
        is_full(g) ==> is_full(cascade(g, score, placed, d).grid),
        well_formed(g) ==> well_formed(cascade(g, score, placed, d).grid),
    decreases u32::MAX - score,
{
    let n = matched_count(g);
    lemma_matched_count(g);
    if !(n <= 0 || score + gain(n) > u32::MAX) {
        let groups = match_groups(g);
        let b = with_bonus(cleared(g), groups, placed);
        let k = count_of(b, 0u8);
        let later = placed || bonus_spot(groups) is Some;
        let rest = cascade(settled(b, d), score + gain(n), later, d.skip(k));
        lemma_cleared(g);
        lemma_bonus_spot(g);
        lemma_with_bonus(cleared(g), groups, placed);
        lemma_cascade_used(settled(b, d), score + gain(n), later, d.skip(k));
        lemma_count_before_range(b, 0u8, WIDTH as int);
        let dk = d.take(k);
        assert(dk + d.skip(k) =~= d);
        lemma_settle_prefix(b, dk, d.skip(k));
        assert(all_ordinary(dk)) by {
            assert forall|i: int| 0 <= i < dk.len() implies is_ordinary(#[trigger] dk[i]) by {
                assert(is_ordinary(d[i]));
            }
        }
        assert(all_ordinary(d.skip(k))) by {
            assert forall|i: int| 0 <= i < d.skip(k).len() implies is_ordinary(
                #[trigger] d.skip(k)[i],
            ) by {
                assert(is_ordinary(d[i + k]));
            }
        }
        lemma_settled(b, dk);
        lemma_cascade(settled(b, d), score + gain(n), later, d.skip(k));
    }
}

/// Marks every cell of `groups` and counts the marked cells.
fn mark_cells(groups: &Vec<Vec<(usize, usize)>>, Ghost(g): Ghost<Grid>) -> (r: (
    [[bool; WIDTH]; HEIGHT],
    u32,
))
    requires
        is_grid(g),
        groups_of(*groups) == match_groups(g),
    ensures
        grid(r.0) == marks(g),
        r.1 == matched_count(g),
{
    let mut mask = [[false; WIDTH]; HEIGHT];
    let mut count: u32 = 0;
    let mut i: usize = 0;
    proof {
        lemma_count_none(grid(mask), true, WIDTH as int);
    }
    while i < groups.len()
        invariant
            i <= groups.len(),
            is_grid(g),
            groups_of(*groups) == match_groups(g),
            count == count_of(grid(mask), true),
            forall|x: int, y: int|
                in_bounds(x, y) && #[trigger] grid(mask)[y][x] ==> in_match(g, x, y),
            forall|a: int, b: int|
                0 <= a < i && 0 <= b < groups@[a]@.len() ==> grid(
                    mask,
                )[(#[trigger] groups@[a]@[b]).1 as int][groups@[a]@[b].0 as int],
        decreases groups.len() - i,
    {
        let group = &groups[i];
        let mut k: usize = 0;
        while k < group.len()
            invariant
                i < groups.len(),
                k <= group.len(),
                group == &groups@[i as int],
                is_grid(g),
                groups_of(*groups) == match_groups(g),
                count == count_of(grid(mask), true),
                forall|x: int, y: int|
                    in_bounds(x, y) && #[trigger] grid(mask)[y][x] ==> in_match(g, x, y),
                forall|a: int, b: int|
                    0 <= a < i && 0 <= b < groups@[a]@.len() ==> grid(
                        mask,
                    )[(#[trigger] groups@[a]@[b]).1 as int][groups@[a]@[b].0 as int],
                forall|b: int|
                    0 <= b < k ==> grid(mask)[(#[trigger] group@[b]).1 as int][group@[b].0 as int],
            decreases group.len() - k,
        {
            let p = group[k];
            proof {
                assert(groups_of(*groups)[i as int] == group@);
                lemma_match_cell(g, i as int, k as int);
                lemma_count_before_range(grid(mask), true, WIDTH as int);
            }
            if !mask[p.1][p.0] {
                let ghost prior = grid(mask);
                put(&mut mask, p.0, p.1, true);
                count = count + 1;
                proof {
                    lemma_with_tile(prior, p.0 as int, p.1 as int, true);
                    lemma_count_with_tile(prior, p.0 as int, p.1 as int, true, true, WIDTH as int);
                    assert forall|a: int, b: int|
                        0 <= a < i && 0 <= b < groups@[a]@.len() implies grid(
                        mask,
                    )[(#[trigger] groups@[a]@[b]).1 as int][groups@[a]@[b].0 as int] by {
                        assert(groups_of(*groups)[a] == groups@[a]@);
                        lemma_match_cell(g, a, b);
                        let q = groups@[a]@[b];
                        assert(prior[q.1 as int][q.0 as int]);
                    }
                    assert forall|b: int| 0 <= b < k + 1 implies grid(
                        mask,
                    )[(#[trigger] group@[b]).1 as int][group@[b].0 as int] by {
                        lemma_match_cell(g, i as int, b);
                        let q = group@[b];
                        if b < k {
                            assert(prior[q.1 as int][q.0 as int]);
                        }
                    }
                }
            }
            k = k + 1;
        }
        i = i + 1;
    }
    proof {
        assert forall|x: int, y: int| in_bounds(x, y) implies #[trigger] grid(mask)[y][x]
            == #[trigger] marks(g)[y][x] by {
            lemma_matches_cover(g, x, y);
            if in_match(g, x, y) {
                let (a, b) = choose|a: int, b: int|
                    0 <= a < match_groups(g).len() && 0 <= b < match_groups(g)[a].len()
                        && #[trigger] match_groups(g)[a][b] == (x as usize, y as usize);
                assert(groups_of(*groups)[a] == groups@[a]@);
                assert(groups@[a]@[b] == (x as usize, y as usize));
            }
        }
        lemma_grid_equal(grid(mask), marks(g));
    }
    (mask, count)
}

/// Empties every marked cell that holds no bonus tile.
fn clear_cells(board: &mut Board, mask: &[[bool; WIDTH]; HEIGHT])
    requires
        grid(*mask) == marks(grid(*old(board))),
    ensures
        grid(*final(board)) == cleared(grid(*old(board))),
{
    let ghost g = grid(*board);
    let mut y: usize = 0;
    while y < HEIGHT
        invariant
            y <= HEIGHT,
            is_grid(g),
            grid(*mask) == marks(g),
            forall|i: int, j: int|
                in_bounds(i, j) ==> #[trigger] grid(*board)[j][i] == if j < y {
                    cleared(g)[j][i]
                } else {
                    g[j][i]
                },
        decreases HEIGHT - y,
    {
        let mut x: usize = 0;
        while x < WIDTH
            invariant
                y < HEIGHT,
                x <= WIDTH,
                is_grid(g),
                grid(*mask) == marks(g),
                forall|i: int, j: int|
                    in_bounds(i, j) ==> #[trigger] grid(*board)[j][i] == if j < y || (j == y && i
                        < x) {
                        cleared(g)[j][i]
                    } else {
                        g[j][i]
                    },
            decreases WIDTH - x,
        {
            assert(grid(*mask)[y as int][x as int] == mask[y as int][x as int]);
            assert(grid(*board)[y as int][x as int] == board[y as int][x as int]);
            if mask[y][x] && board[y][x] != BONUS_TILE {
                let ghost prior = grid(*board);
                put(board, x, y, 0);
                proof {
                    lemma_with_tile(prior, x as int, y as int, 0u8);
                }
            }
            x = x + 1;
        }
        y = y + 1;
    }
    proof {
        lemma_grid_equal(grid(*board), cleared(g));
    }
}

/// The middle cell of the first group that has five cells or more.
fn long_group_middle(groups: &Vec<Vec<(usize, usize)>>) -> (r: Option<(usize, usize)>)
    ensures
        r == bonus_spot(groups_of(*groups)),
{
    let mut i: usize = 0;
    while i < groups.len()
        invariant
            i <= groups.len(),
            first_long(groups_of(*groups), 0) == first_long(groups_of(*groups), i as int),
        decreases groups.len() - i,
    {
        let group = &groups[i];
        assert(groups_of(*groups)[i as int] == group@);
        if group.len() >= 5 {
            return Some(group[group.len() / 2]);
        }
        i = i + 1;
    }
    None
}

/// The cascade proper. Besides the state it reports whether the first scan
/// found a match.
pub(crate) fn cascade_core(board: Board, score: u32, source: &mut TileSource) -> (r: (
    GameState,
    bool,
))
    ensures
        r.1 == has_match(grid(board)),
        ({
            let d = final(source).drawn_since(*old(source));
            let o = cascade(grid(board), score as int, false, d);
            &&& old(source).leads_to(*final(source), d)
            &&& d.len() == o.used
            &&& grid(r.0.board) == o.grid
            &&& r.0.score == o.score
            &&& r.0.drops@ == o.drops
        }),
        !has_match(grid(board)) ==> r.0.board == board,
{
    let ghost g0 = grid(board);
    let ghost start = *source;
    let mut current = board;
    let mut total: u32 = score;
    let mut drops: Vec<DropInfo> = Vec::new();
    let mut placed = false;
    let mut found = false;
    proof {
        lemma_leads_nowhere(start);
        assert forall|t: Seq<u8>| #[trigger]
            resumes(
                g0,
                score as int,
                Seq::<u8>::empty(),
                drops@,
                grid(current),
                total as int,
                placed,
                t,
            ) by {
            assert(Seq::<u8>::empty() + t =~= t);
            let o = cascade(g0, score as int, false, t);
            assert(Seq::<DropInfo>::empty() + o.drops =~= o.drops);
        }
    }
    loop
        invariant
            is_grid(g0),
            start.leads_to(*source, source.drawn_since(start)),
            forall|t: Seq<u8>| #[trigger]
                resumes(
                    g0,
                    score as int,
                    source.drawn_since(start),
                    drops@,
                    grid(current),
                    total as int,
                    placed,
                    t,
                ),
            found ==> has_match(g0),
            !found ==> current == board,
            g0 == grid(board),
        ensures
            found == has_match(g0),
            !has_match(grid(current)) || total + gain(matched_count(grid(current))) > u32::MAX,
        decreases u32::MAX - total,
    {
        let ghost g = grid(current);
        let groups = find_matches(&current);
        proof {
            lemma_matches_empty(g);
            lemma_matched_count(g);
        }
        if groups.len() == 0 {
            break ;
        }
        found = true;
        let (mask, count) = mark_cells(&groups, Ghost(g));
        if count > u32::MAX - total {
            break ;
        }
        let ghost d0 = source.drawn_since(start);
        let ghost mid = *source;
        let ghost events = drops@;
        let ghost was_placed = placed;
        let ghost was_total = total as int;
        total = total + (3 + (count - 3));
        clear_cells(&mut current, &mask);
        proof {
            lemma_bonus_spot(g);
        }
        if !placed {
            if let Some(middle) = long_group_middle(&groups) {
                put(&mut current, middle.0, middle.1, BONUS_TILE);
                placed = true;
            }
        }
        let ghost b = grid(current);
        assert(b == with_bonus(cleared(g), match_groups(g), was_placed));
        let mut fallen = drop_tiles_with_source(&mut current, source);
        let ghost moved = fallen@;
        drops.append(&mut fallen);
        proof {
            let dk = source.drawn_since(mid);
            lemma_leads_on(start, mid, *source, d0, dk);
            lemma_drawn_since(start, *source, d0 + dk);
            assert forall|t: Seq<u8>| #[trigger]
                resumes(
                    g0,
                    score as int,
                    d0 + dk,
                    drops@,
                    grid(current),
                    total as int,
                    placed,
                    t,
                ) by {
                lemma_cascade_step(g, was_total, was_placed, dk, t);
                assert(resumes(g0, score as int, d0, events, g, was_total, was_placed, dk + t));
                assert(d0 + (dk + t) =~= (d0 + dk) + t);
                let rest = cascade(grid(current), total as int, placed, t);
                assert(events + (moved + rest.drops) =~= (events + moved) + rest.drops);
            }
        }
    }
    proof {
        let d = source.drawn_since(start);
        assert(resumes(
            g0,
            score as int,
            d,
            drops@,
            grid(current),
            total as int,
            placed,
            Seq::<u8>::empty(),
        ));
        assert(d + Seq::<u8>::empty() =~= d);
        assert(drops@ + Seq::<DropInfo>::empty() =~= drops@);
        lemma_matched_count(grid(current));
    }
    (GameState { board: current, score: total, drops }, found)
}

/// The state `r` is what the outcome `o` describes.
pub open spec fn is_outcome(r: GameState, o: Outcome) -> bool {
    &&& grid(r.board) == o.grid
    &&& r.score == o.score
    &&& r.drops@ == o.drops
}

/// The outcome of an operation that leaves grid and score as they are.
pub open spec fn unchanged(g: Grid, score: int) -> Outcome {
    Outcome { grid: g, score, drops: Seq::empty(), used: 0 }
}

/// Resolves the matches of `board` with tiles from `source`: scores and
/// clears them, places at most one bonus tile, lets the board settle, and
/// repeats until the board has no match.
///
/// The cascade also ends when the score cannot take the gain of the next
/// pass; the board then still holds that pass's matches.
pub fn resolve_cascade_with_source(board: Board, score: u32, source: &mut TileSource) -> (r:
    GameState)
    ensures
        ({
            let d = final(source).drawn_since(*old(source));
            let o = cascade(grid(board), score as int, false, d);
            &&& old(source).leads_to(*final(source), d)
            &&& d.len() == o.used
            &&& is_outcome(r, o)
        }),
        r.score >= score,
        count_of(grid(r.board), BONUS_TILE) <= count_of(grid(board), BONUS_TILE) + 1,
        match_groups(grid(r.board)).len() == 0 || r.score + matched_count(grid(r.board))
            > u32::MAX,
        is_full(grid(board)) ==> is_full(grid(r.board)),
        well_formed(grid(board)) ==> well_formed(grid(r.board)),
        match_groups(grid(board)).len() == 0 ==> r.board == board && r.score == score
            && r.drops@.len() == 0 && final(source).drawn_since(*old(source)).len() == 0,
{
    let (state, _) = cascade_core(board, score, source);
    proof {
        lemma_cascade(
            grid(board),
            score as int,
            false,
            final(source).drawn_since(*old(source)),
        );
        lemma_matches_empty(grid(state.board));
        lemma_matches_empty(grid(board));
        lemma_matched_count(grid(board));
    }
    state
}

/// Resolves the matches of `board` with random tiles. See
/// [`resolve_cascade_with_source`].
pub fn resolve_cascade(board: Board, score: u32) -> (r: GameState)
    ensures
        (exists|d: Seq<u8>|
            {
                &&& all_ordinary(d)
                &&& d.len() == (#[trigger] cascade(grid(board), score as int, false, d)).used
                &&& is_outcome(r, cascade(grid(board), score as int, false, d))
            }),
        r.score >= score,
        count_of(grid(r.board), BONUS_TILE) <= count_of(grid(board), BONUS_TILE) + 1,
        match_groups(grid(r.board)).len() == 0 || r.score + matched_count(grid(r.board))
            > u32::MAX,
        is_full(grid(board)) ==> is_full(grid(r.board)),
        well_formed(grid(board)) ==> well_formed(grid(r.board)),
        match_groups(grid(board)).len() == 0 ==> r.board == board && r.score == score
            && r.drops@.len() == 0,
{
    let mut source = TileSource::random();
    let ghost start = source;
    let state = resolve_cascade_with_source(board, score, &mut source);
    proof {
        let d = source.drawn_since(start);
        assert(d.len() == cascade(grid(board), score as int, false, d).used);
    }
    state
}

} // verus!
