use vstd::prelude::*;
use crate::constants::{WIDTH, HEIGHT, BONUS_TILE};
use crate::types::{Board, DropInfo};
use crate::grid::{
    Grid, grid, in_bounds, is_grid, is_full, is_ordinary, is_tile_code, well_formed, column,
    count_in, count_before, count_of, with_tile, put, lemma_with_tile, lemma_grid_equal,
    lemma_count_in_range, lemma_count_in_concat, lemma_count_before_range,
};
use crate::tiles::{
    TileSource, all_ordinary, lemma_leads_nowhere, lemma_leads_on, lemma_drawn_since,
};

verus! {

/// The tiles of a line at or after `n`, in order, without the empty cells.
pub open spec fn kept_from(line: Seq<u8>, n: int) -> Seq<u8>
    decreases line.len() - n,
{
    if n < 0 || n >= line.len() {
        Seq::empty()
    } else if line[n] != 0 {
        seq![line[n]] + kept_from(line, n + 1)
    } else {
        kept_from(line, n + 1)
    }
}

/// A column after its tiles have fallen and `fill` has come in from above:
/// the tiles keep their order and stand at the bottom, and the `i`-th tile of
/// `fill` stands `i` cells above the lowest free cell.
pub open spec fn landed(line: Seq<u8>, fill: Seq<u8>) -> Seq<u8> {
    let k = count_in(line, 0u8, 0);
    Seq::new(
        line.len(),
        |j: int|
            if j < k {
                fill[k - 1 - j]
            } else {
                kept_from(line, 0)[j - k]
            },
    )
}

/// The fall of the tile in row `r` of column `x`: it comes to rest as many
/// rows further down as there are empty cells below it.
pub open spec fn fall(line: Seq<u8>, x: int, r: int) -> DropInfo {
    DropInfo {
        from_x: x as usize,
        from_y: r as usize,
        to_x: x as usize,
        to_y: (r + count_in(line, 0u8, r)) as usize,
        value: line[r],
    }
}

/// The falls of the tiles of column `x` at or below row `n`, lowest tile
/// first. A tile with no empty cell below it does not move.
pub open spec fn falls_from(line: Seq<u8>, x: int, n: int) -> Seq<DropInfo>
    decreases line.len() - n,
{
    if n < 0 || n >= line.len() {
        Seq::empty()
    } else {
        let below = falls_from(line, x, n + 1);
        if line[n] != 0 && count_in(line, 0u8, n) > 0 {
            below.push(fall(line, x, n))
        } else {
            below
        }
    }
}

/// The arrival of a new tile in row `row` of column `x`, recorded as coming
/// from row 0.
pub open spec fn arrival(x: int, row: int, value: u8) -> DropInfo {
    DropInfo { from_x: x as usize, from_y: 0, to_x: x as usize, to_y: row as usize, value }
}

/// The arrivals of the tiles `fill` in column `x` when its `free` topmost
/// cells are free: the first lands in the lowest free cell, each further one
/// in the cell above.
pub open spec fn arrivals_into(x: int, free: int, fill: Seq<u8>) -> Seq<DropInfo> {
    Seq::new(fill.len(), |i: int| arrival(x, free - 1 - i, fill[i]))
}

/// The arrivals of the new tiles `fill` that fill up column `x`.
pub open spec fn arrivals(x: int, fill: Seq<u8>) -> Seq<DropInfo> {
    arrivals_into(x, fill.len() as int, fill)
}

/// The part of the draws `d` that goes into column `x`: the columns are
/// filled from left to right, each taking as many tiles as it has empty cells.
pub open spec fn fill_of(g: Grid, d: Seq<u8>, x: int) -> Seq<u8> {
    d.subrange(count_before(g, 0u8, x), count_before(g, 0u8, x + 1))
}

/// The grid after gravity and refill with the draws `d`.
pub open spec fn settled(g: Grid, d: Seq<u8>) -> Grid {
    Seq::new(
        HEIGHT as nat,
        |y: int| Seq::new(WIDTH as nat, |x: int| landed(column(g, x), fill_of(g, d, x))[y]),
    )
}

/// The relocations in the columns to the left of column `x`.
pub open spec fn events_before(g: Grid, d: Seq<u8>, x: int) -> Seq<DropInfo>
    decreases x,
{
    if x <= 0 {
        Seq::empty()
    } else {
        events_before(g, d, x - 1) + falls_from(column(g, x - 1), x - 1, 0) + arrivals(
            x - 1,
            fill_of(g, d, x - 1),
        )
    }
}

/// The relocations by which `g` settles with the draws `d`: column by column
/// from the left, in each column first the falls, then the arrivals.
pub open spec fn settle_events(g: Grid, d: Seq<u8>) -> Seq<DropInfo> {
    events_before(g, d, WIDTH as int)
}

/// What is kept of a line holds no empty cell, and is as much shorter than
/// the line as the line has empty cells.
pub proof fn lemma_kept(line: Seq<u8>, n: int)
    requires
        0 <= n <= line.len(),
    ensures
        kept_from(line, n).len() == line.len() - n - count_in(line, 0u8, n),
        forall|i: int| 0 <= i < kept_from(line, n).len() ==> #[trigger] kept_from(line, n)[i] != 0,
    decreases line.len() - n,
{
    if n < line.len() {
        lemma_kept(line, n + 1);
    }
}

/// What is kept of a line holds only codes that the line holds.
pub proof fn lemma_kept_codes(line: Seq<u8>, n: int)
    requires
        0 <= n <= line.len(),
        forall|j: int| 0 <= j < line.len() ==> is_tile_code(#[trigger] line[j]),
    ensures
        forall|i: int|
            0 <= i < kept_from(line, n).len() ==> is_tile_code(#[trigger] kept_from(line, n)[i]),
    decreases line.len() - n,
{
    if n < line.len() {
        lemma_kept_codes(line, n + 1);
        let rest = kept_from(line, n + 1);
        assert forall|i: int| 0 <= i < kept_from(line, n).len() implies is_tile_code(
            #[trigger] kept_from(line, n)[i],
        ) by {
            if line[n] != 0 {
                if i == 0 {
                    assert(is_tile_code(line[n]));
                } else {
                    assert(kept_from(line, n)[i] == rest[i - 1]);
                }
            }
        }
    }
}

/// What is kept of a line holds each tile as often as the line does.
pub proof fn lemma_kept_count(line: Seq<u8>, v: u8, n: int)
    requires
        0 <= n <= line.len(),
        v != 0,
    ensures
        count_in(kept_from(line, n), v, 0) == count_in(line, v, n),
    decreases line.len() - n,
{
    if n < line.len() {
        lemma_kept_count(line, v, n + 1);
        if line[n] != 0 {
            lemma_count_in_concat(seq![line[n]], kept_from(line, n + 1), v, 0);
            assert(count_in(seq![line[n]], v, 1) == 0);
        }
    }
}

/// The empty cells counted up to a column are no more than those counted up
/// to a later one.
proof fn lemma_holes_monotone(g: Grid, a: int, b: int)
    requires
        0 <= a <= b,
    ensures
        0 <= count_before(g, 0u8, a) <= count_before(g, 0u8, b),
    decreases b - a,
{
    lemma_count_before_range(g, 0u8, a);
    if a < b {
        lemma_holes_monotone(g, a, b - 1);
        lemma_count_in_range(column(g, b - 1), 0u8, 0);
    }
}

/// A column after gravity is full, holds a bonus tile as often as before, and
/// holds tile codes only if it did before.
pub proof fn lemma_landed(line: Seq<u8>, fill: Seq<u8>)
    requires
        fill.len() == count_in(line, 0u8, 0),
        all_ordinary(fill),
    ensures
        landed(line, fill).len() == line.len(),
        forall|j: int| 0 <= j < line.len() ==> #[trigger] landed(line, fill)[j] != 0,
        count_in(landed(line, fill), BONUS_TILE, 0) == count_in(line, BONUS_TILE, 0),
        (forall|j: int| 0 <= j < line.len() ==> is_tile_code(#[trigger] line[j])) ==> (forall|
            j: int,
        |
            0 <= j < line.len() ==> is_tile_code(#[trigger] landed(line, fill)[j])),
{
    let k = count_in(line, 0u8, 0);
    let after = landed(line, fill);
    lemma_kept(line, 0);
    lemma_count_in_range(line, 0u8, 0);
    assert forall|j: int| 0 <= j < line.len() implies #[trigger] after[j] != 0 by {
        if j < k {
            assert(is_ordinary(fill[k - 1 - j]));
        }
    }
    let top = Seq::new(k as nat, |j: int| fill[k - 1 - j]);
    assert(after =~= top + kept_from(line, 0));
    lemma_count_in_concat(top, kept_from(line, 0), BONUS_TILE, 0);
    lemma_kept_count(line, BONUS_TILE, 0);
    assert forall|j: int| 0 <= j < top.len() implies #[trigger] top[j] != BONUS_TILE by {
        assert(is_ordinary(fill[k - 1 - j]));
    }
    lemma_no_bonus(top, 0);
    if forall|j: int| 0 <= j < line.len() ==> is_tile_code(#[trigger] line[j]) {
        lemma_kept_codes(line, 0);
        assert forall|j: int| 0 <= j < line.len() implies is_tile_code(#[trigger] after[j]) by {
            if j < k {
                assert(is_ordinary(fill[k - 1 - j]));
            }
        }
    }
}

proof fn lemma_no_bonus(line: Seq<u8>, n: int)
    requires
        0 <= n <= line.len(),
        forall|j: int| 0 <= j < line.len() ==> #[trigger] line[j] != BONUS_TILE,
    ensures
        count_in(line, BONUS_TILE, n) == 0,
    decreases line.len() - n,
{
    if n < line.len() {
        lemma_no_bonus(line, n + 1);
    }
}

/// Draws that come after those for the first `x` columns change nothing in
/// those columns.
proof fn lemma_fill_extend(g: Grid, d: Seq<u8>, e: Seq<u8>, x: int)
    requires
        0 <= x,
        d.len() >= count_before(g, 0u8, x),
    ensures
        forall|c: int| 0 <= c < x ==> #[trigger] fill_of(g, d + e, c) == fill_of(g, d, c),
        events_before(g, d + e, x) == events_before(g, d, x),
    decreases x,
{
    assert forall|c: int| 0 <= c < x implies #[trigger] fill_of(g, d + e, c) == fill_of(
        g,
        d,
        c,
    ) by {
        lemma_holes_monotone(g, c, c + 1);
        lemma_holes_monotone(g, c + 1, x);
        assert(fill_of(g, d + e, c) =~= fill_of(g, d, c));
    }
    if x > 0 {
        lemma_holes_monotone(g, x - 1, x);
        lemma_fill_extend(g, d, e, x - 1);
        assert(fill_of(g, d + e, x - 1) == fill_of(g, d, x - 1));
    }
}

/// The draws that follow those for the first `x` columns, as many as column
/// `x` has empty cells, are the fill of column `x`.
proof fn lemma_fill_next(g: Grid, d: Seq<u8>, e: Seq<u8>, x: int)
    requires
        0 <= x,
        d.len() == count_before(g, 0u8, x),
        e.len() == count_in(column(g, x), 0u8, 0),
    ensures
        fill_of(g, d + e, x) == e,
{
    assert(count_before(g, 0u8, x + 1) == count_before(g, 0u8, x) + count_in(
        column(g, x),
        0u8,
        0,
    ));
    assert(fill_of(g, d + e, x) =~= e);
}

/// Gravity takes no more draws than the grid has empty cells: what comes
/// after them changes neither the settled grid nor the relocations.
pub proof fn lemma_settle_prefix(g: Grid, d: Seq<u8>, e: Seq<u8>)
    requires
        d.len() == count_of(g, 0u8),
    ensures
        settled(g, d + e) == settled(g, d),
        settle_events(g, d + e) == settle_events(g, d),
{
    lemma_fill_extend(g, d, e, WIDTH as int);
    assert(settled(g, d + e) =~= settled(g, d)) by {
        assert forall|y: int| 0 <= y < HEIGHT implies #[trigger] settled(g, d + e)[y] =~= settled(
            g,
            d,
        )[y] by {
            assert forall|x: int| 0 <= x < WIDTH implies settled(g, d + e)[y][x] == settled(
                g,
                d,
            )[y][x] by {
                assert(fill_of(g, d + e, x) == fill_of(g, d, x));
            }
        }
    }
}

/// What gravity and refill leave behind: a grid without empty cells that
/// holds as many bonus tiles as before, and only tile codes if it held only
/// tile codes before.
pub proof fn lemma_settled(g: Grid, d: Seq<u8>)
    requires
        is_grid(g),
        d.len() == count_of(g, 0u8),
        all_ordinary(d),
    ensures
        is_grid(settled(g, d)),
        is_full(settled(g, d)),
        count_of(settled(g, d), 0u8) == 0,
        count_of(settled(g, d), BONUS_TILE) == count_of(g, BONUS_TILE),
        well_formed(g) ==> well_formed(settled(g, d)),
{
    let h = settled(g, d);
    assert forall|x: int| 0 <= x < WIDTH implies #[trigger] lands(g, d, x) by {
        lemma_holes_monotone(g, x, x + 1);
        lemma_holes_monotone(g, x + 1, WIDTH as int);
        let f = fill_of(g, d, x);
        assert forall|i: int| 0 <= i < f.len() implies is_ordinary(#[trigger] f[i]) by {
            assert(f[i] == d[count_before(g, 0u8, x) + i]);
        }
        assert(column(h, x) =~= landed(column(g, x), f));
    }
    assert forall|x: int, y: int| in_bounds(x, y) implies #[trigger] h[y][x] != 0 by {
        assert(lands(g, d, x));
        lemma_landed(column(g, x), fill_of(g, d, x));
        assert(h[y][x] == landed(column(g, x), fill_of(g, d, x))[y]);
    }
    crate::grid::lemma_count_none(h, 0u8, WIDTH as int);
    lemma_settled_bonus(g, d, WIDTH as int);
    if well_formed(g) {
        assert forall|x: int, y: int| in_bounds(x, y) implies is_tile_code(#[trigger] h[y][x]) by {
            assert forall|j: int| 0 <= j < HEIGHT implies is_tile_code(
                #[trigger] column(g, x)[j],
            ) by {
                assert(in_bounds(x, j));
                assert(is_tile_code(g[j][x]));
            }
            assert(lands(g, d, x));
            lemma_landed(column(g, x), fill_of(g, d, x));
            assert(h[y][x] == landed(column(g, x), fill_of(g, d, x))[y]);
        }
    }
}

/// Column `x` of the settled grid is the landed column, filled with as many
/// ordinary tiles as it had empty cells.
spec fn lands(g: Grid, d: Seq<u8>, x: int) -> bool {
    &&& fill_of(g, d, x).len() == count_in(column(g, x), 0u8, 0)
    &&& all_ordinary(fill_of(g, d, x))
    &&& column(settled(g, d), x) == landed(column(g, x), fill_of(g, d, x))
}

proof fn lemma_settled_bonus(g: Grid, d: Seq<u8>, n: int)
    requires
        0 <= n <= WIDTH,
        forall|x: int| 0 <= x < WIDTH ==> #[trigger] lands(g, d, x),
    ensures
        count_before(settled(g, d), BONUS_TILE, n) == count_before(g, BONUS_TILE, n),
    decreases n,
{
    if n > 0 {
        lemma_settled_bonus(g, d, n - 1);
        assert(lands(g, d, n - 1));
        lemma_landed(column(g, n - 1), fill_of(g, d, n - 1));
    }
}

/// Every fall is the fall of a tile with an empty cell below it.
pub proof fn lemma_fall(line: Seq<u8>, x: int, n: int, i: int)
    requires
        0 <= n <= line.len() <= usize::MAX,
        0 <= i < falls_from(line, x, n).len(),
    ensures
        n <= falls_from(line, x, n)[i].from_y < line.len(),
        falls_from(line, x, n)[i] == fall(line, x, falls_from(line, x, n)[i].from_y as int),
        line[falls_from(line, x, n)[i].from_y as int] != 0,
        count_in(line, 0u8, falls_from(line, x, n)[i].from_y as int) > 0,
        i + 1 < falls_from(line, x, n).len() ==> falls_from(line, x, n)[i + 1].from_y
            < falls_from(line, x, n)[i].from_y,
    decreases line.len() - n,
{
    let below = falls_from(line, x, n + 1);
    if n < line.len() {
        if i < below.len() {
            lemma_fall(line, x, n + 1, i);
        }
        if i + 1 == below.len() {
            lemma_fall(line, x, n + 1, i);
        }
    }
}

/// Between two positions a line has no more empty cells than cells, and one
/// fewer where the first of them holds a tile.
proof fn lemma_holes_between(line: Seq<u8>, a: int, b: int)
    requires
        0 <= a <= b <= line.len(),
    ensures
        count_in(line, 0u8, b) <= count_in(line, 0u8, a) <= count_in(line, 0u8, b) + (b - a),
        a < b && line[a] != 0 ==> count_in(line, 0u8, a) <= count_in(line, 0u8, b) + (b - a - 1),
    decreases b - a,
{
    if a < b {
        lemma_holes_between(line, a + 1, b);
    }
}

/// Within a column the relocations are listed lowest destination first: each
/// fall ends below the fall that follows it, and every fall ends below every
/// arrival, in one of the cells that the column's tiles come to rest in.
pub proof fn lemma_falls_descend(line: Seq<u8>, x: int, i: int)
    requires
        line.len() <= usize::MAX,
        0 <= i < falls_from(line, x, 0).len(),
    ensures
        falls_from(line, x, 0)[i].from_y < falls_from(line, x, 0)[i].to_y < line.len(),
        falls_from(line, x, 0)[i].to_y >= count_in(line, 0u8, 0),
        i + 1 < falls_from(line, x, 0).len() ==> falls_from(line, x, 0)[i + 1].to_y < falls_from(
            line,
            x,
            0,
        )[i].to_y,
{
    let falls = falls_from(line, x, 0);
    let r = falls[i].from_y as int;
    lemma_fall(line, x, 0, i);
    lemma_count_in_range(line, 0u8, r + 1);
    lemma_holes_between(line, 0, r);
    if i + 1 < falls.len() {
        let q = falls[i + 1].from_y as int;
        lemma_fall(line, x, 0, i + 1);
        lemma_count_in_range(line, 0u8, q + 1);
        lemma_holes_between(line, q, r);
    }
}

/// A full grid does not move: it takes no draw, settles to itself and
/// relocates nothing.
pub proof fn lemma_settled_full(g: Grid, d: Seq<u8>)
    requires
        is_grid(g),
        is_full(g),
    ensures
        count_of(g, 0u8) == 0,
        settled(g, d) == g,
        settle_events(g, d) == Seq::<DropInfo>::empty(),
{
    crate::grid::lemma_count_none(g, 0u8, WIDTH as int);
    assert forall|x: int| 0 <= x < WIDTH implies #[trigger] rests(g, d, x) by {
        crate::grid::lemma_count_none(g, 0u8, x);
        crate::grid::lemma_count_none(g, 0u8, x + 1);
        let col = column(g, x);
        assert forall|j: int| 0 <= j < col.len() implies #[trigger] col[j] != 0 by {
            assert(in_bounds(x, j));
            assert(g[j][x] != 0);
        }
        lemma_full_line(col, x, 0);
        assert(fill_of(g, d, x).len() == 0);
        assert(landed(col, fill_of(g, d, x)) =~= col);
        assert(arrivals(x, fill_of(g, d, x)) =~= Seq::<DropInfo>::empty());
    }
    assert forall|x: int, y: int| in_bounds(x, y) implies #[trigger] settled(g, d)[y][x]
        == #[trigger] g[y][x] by {
        assert(rests(g, d, x));
    }
    lemma_settled_grid(g, d);
    lemma_grid_equal(settled(g, d), g);
    lemma_no_events(g, d, WIDTH as int);
}

proof fn lemma_full_line(line: Seq<u8>, x: int, n: int)
    requires
        0 <= n <= line.len(),
        forall|j: int| 0 <= j < line.len() ==> #[trigger] line[j] != 0,
    ensures
        count_in(line, 0u8, n) == 0,
        kept_from(line, n) == line.skip(n),
        falls_from(line, x, n) == Seq::<DropInfo>::empty(),
    decreases line.len() - n,
{
    if n < line.len() {
        lemma_full_line(line, x, n + 1);
        assert(seq![line[n]] + line.skip(n + 1) =~= line.skip(n));
    } else {
        assert(line.skip(n) =~= Seq::<u8>::empty());
    }
}

proof fn lemma_settled_grid(g: Grid, d: Seq<u8>)
    ensures
        is_grid(settled(g, d)),
{
    assert forall|y: int| 0 <= y < HEIGHT implies (#[trigger] settled(g, d)[y]).len() == WIDTH by {}
}

/// Column `x` stays as it is: nothing falls and nothing arrives.
spec fn rests(g: Grid, d: Seq<u8>, x: int) -> bool {
    &&& landed(column(g, x), fill_of(g, d, x)) == column(g, x)
    &&& falls_from(column(g, x), x, 0) == Seq::<DropInfo>::empty()
    &&& arrivals(x, fill_of(g, d, x)) == Seq::<DropInfo>::empty()
}

proof fn lemma_no_events(g: Grid, d: Seq<u8>, n: int)
    requires
        0 <= n <= WIDTH,
        forall|x: int| 0 <= x < WIDTH ==> #[trigger] rests(g, d, x),
    ensures
        events_before(g, d, n) == Seq::<DropInfo>::empty(),
    decreases n,
{
    if n > 0 {
        lemma_no_events(g, d, n - 1);
        assert(rests(g, d, n - 1));
    }
}

/// Lets the tiles of column `x` fall, fills the cells that come free at the
/// top with tiles from `source`, and records every relocation in `drops`.
fn settle_column(board: &mut Board, x: usize, source: &mut TileSource, drops: &mut Vec<DropInfo>)
    requires
        x < WIDTH,
    ensures
        ({
            let g = grid(*old(board));
            let col = column(g, x as int);
            let d = final(source).drawn_since(*old(source));
            &&& old(source).leads_to(*final(source), d)
            &&& d.len() == count_in(col, 0u8, 0)
            &&& forall|i: int, j: int|
                in_bounds(i, j) ==> #[trigger] grid(*final(board))[j][i] == if i == x {
                    landed(col, d)[j]
                } else {
                    g[j][i]
                }
            &&& final(drops)@ == old(drops)@ + falls_from(col, x as int, 0) + arrivals(x as int, d)
        }),
{
    let ghost g = grid(*board);
    let ghost col = column(g, x as int);
    let ghost before = drops@;
    let mut free: usize = HEIGHT;
    let mut y: usize = HEIGHT;
    assert(drops@ =~= before + falls_from(col, x as int, HEIGHT as int));
    while y > 0
        invariant
            x < WIDTH,
            y <= free <= HEIGHT,
            col == column(g, x as int),
            is_grid(g),
            free == y + count_in(col, 0u8, y as int),
            forall|i: int, j: int|
                in_bounds(i, j) && i != x ==> #[trigger] grid(*board)[j][i] == g[j][i],
            forall|j: int| 0 <= j < y ==> #[trigger] grid(*board)[j][x as int] == col[j],
            forall|j: int| y <= j < free ==> #[trigger] grid(*board)[j][x as int] == 0,
            kept_from(col, y as int).len() == HEIGHT - free,
            forall|j: int|
                free <= j < HEIGHT ==> #[trigger] grid(*board)[j][x as int] == kept_from(
                    col,
                    y as int,
                )[j - free],
            drops@ == before + falls_from(col, x as int, y as int),
        decreases y,
    {
        y = y - 1;
        let tile = board[y][x];
        assert(tile == grid(*board)[y as int][x as int]);
        if tile != 0 {
            let to = free - 1;
            let ghost prior = grid(*board);
            if y != to {
                put(board, x, to, tile);
                put(board, x, y, 0);
                drops.push(DropInfo { from_x: x, from_y: y, to_x: x, to_y: to, value: tile });
                proof {
                    let mid = with_tile(prior, x as int, to as int, tile);
                    lemma_with_tile(prior, x as int, to as int, tile);
                    lemma_with_tile(mid, x as int, y as int, 0u8);
                    assert(drops@ =~= before + falls_from(col, x as int, y as int));
                }
            }
            free = to;
            proof {
                let kept = kept_from(col, y as int);
                let rest = kept_from(col, y + 1);
                assert(kept == seq![col[y as int]] + rest);
                assert forall|j: int| free <= j < HEIGHT implies #[trigger] grid(
                    *board,
                )[j][x as int] == kept[j - free] by {
                    if j > free {
                        assert(prior[j][x as int] == rest[j - (free + 1)]);
                        assert(kept[j - free] == rest[j - free - 1]);
                    }
                }
            }
        }
    }
    let ghost start = *source;
    let ghost fallen = grid(*board);
    let ghost falls = drops@;
    let mut y: usize = free;
    proof {
        lemma_leads_nowhere(start);
        assert(drops@ =~= falls + arrivals_into(x as int, free as int, Seq::<u8>::empty()));
    }
    while y > 0
        invariant
            x < WIDTH,
            y <= free <= HEIGHT,
            is_grid(fallen),
            is_grid(g),
            falls == before + falls_from(col, x as int, 0),
            free == count_in(col, 0u8, 0),
            forall|i: int, j: int| in_bounds(i, j) && i != x ==> #[trigger] fallen[j][i] == g[j][i],
            forall|j: int|
                free <= j < HEIGHT ==> #[trigger] fallen[j][x as int] == kept_from(col, 0)[j
                    - free],
            start.leads_to(*source, source.drawn_since(start)),
            source.drawn_since(start).len() == free - y,
            forall|i: int, j: int|
                in_bounds(i, j) && (i != x || j < y || j >= free) ==> #[trigger] grid(
                    *board,
                )[j][i] == fallen[j][i],
            forall|j: int|
                y <= j < free ==> #[trigger] grid(*board)[j][x as int] == source.drawn_since(
                    start,
                )[free - 1 - j],
            drops@ == falls + arrivals_into(x as int, free as int, source.drawn_since(start)),
        decreases y,
    {
        y = y - 1;
        let ghost mid = *source;
        let ghost d0 = source.drawn_since(start);
        let ghost prior = grid(*board);
        let value = source.draw();
        put(board, x, y, value);
        drops.push(DropInfo { from_x: x, from_y: 0, to_x: x, to_y: y, value });
        proof {
            lemma_leads_on(start, mid, *source, d0, seq![value]);
            lemma_drawn_since(start, *source, d0 + seq![value]);
            lemma_with_tile(prior, x as int, y as int, value);
            let d = source.drawn_since(start);
            assert(d == d0.push(value));
            assert(arrivals_into(x as int, free as int, d) =~= arrivals_into(
                x as int,
                free as int,
                d0,
            ).push(arrival(x as int, y as int, value)));
            assert forall|j: int| y <= j < free implies #[trigger] grid(*board)[j][x as int]
                == d[free - 1 - j] by {
                if j > y {
                    assert(prior[j][x as int] == d0[free - 1 - j]);
                }
            }
        }
    }
    proof {
        let d = source.drawn_since(start);
        lemma_kept(col, 0);
        assert(drops@ =~= before + falls_from(col, x as int, 0) + arrivals(x as int, d));
        assert forall|i: int, j: int| in_bounds(i, j) implies #[trigger] grid(*board)[j][i] == if i
            == x {
            landed(col, d)[j]
        } else {
            g[j][i]
        } by {}
    }
}

/// Lets every tile fall as far as it can and fills the cells that come free
/// at the top of each column with tiles from `source`.
///
/// Returns the relocations: for each column from the left, first the falls,
/// lowest tile first, then the arrivals of the new tiles, lowest first. A new
/// tile is recorded as coming from row 0 of its column.
pub fn drop_tiles_with_source(board: &mut Board, source: &mut TileSource) -> (drops: Vec<DropInfo>)
    ensures
        ({
            let g = grid(*old(board));
            let d = final(source).drawn_since(*old(source));
            &&& old(source).leads_to(*final(source), d)
            &&& d.len() == count_of(g, 0u8)
            &&& grid(*final(board)) == settled(g, d)
            &&& drops@ == settle_events(g, d)
        }),
        is_full(grid(*final(board))),
        count_of(grid(*final(board)), BONUS_TILE) == count_of(grid(*old(board)), BONUS_TILE),
        well_formed(grid(*old(board))) ==> well_formed(grid(*final(board))),
        is_full(grid(*old(board))) ==> *final(board) == *old(board) && drops@.len() == 0
            && final(source).drawn_since(*old(source)).len() == 0,
{
    let ghost g = grid(*board);
    let ghost start = *source;
    let mut drops: Vec<DropInfo> = Vec::new();
    let mut x: usize = 0;
    proof {
        lemma_leads_nowhere(start);
    }
    while x < WIDTH
        invariant
            x <= WIDTH,
            is_grid(g),
            start.leads_to(*source, source.drawn_since(start)),
            source.drawn_since(start).len() == count_before(g, 0u8, x as int),
            forall|i: int, j: int|
                in_bounds(i, j) ==> #[trigger] grid(*board)[j][i] == if i < x {
                    landed(column(g, i), fill_of(g, source.drawn_since(start), i))[j]
                } else {
                    g[j][i]
                },
            drops@ == events_before(g, source.drawn_since(start), x as int),
        decreases WIDTH - x,
    {
        let ghost mid = *source;
        let ghost d0 = source.drawn_since(start);
        let ghost prior = grid(*board);
        settle_column(board, x, source, &mut drops);
        proof {
            let dx = source.drawn_since(mid);
            lemma_leads_on(start, mid, *source, d0, dx);
            lemma_drawn_since(start, *source, d0 + dx);
            assert(column(prior, x as int) =~= column(g, x as int));
            lemma_fill_extend(g, d0, dx, x as int);
            lemma_fill_next(g, d0, dx, x as int);
            let d = source.drawn_since(start);
            assert(d == d0 + dx);
            assert forall|i: int, j: int| in_bounds(i, j) implies #[trigger] grid(*board)[j][i]
                == if i < x + 1 {
                landed(column(g, i), fill_of(g, d, i))[j]
            } else {
                g[j][i]
            } by {
                if i < x {
                    assert(fill_of(g, d, i) == fill_of(g, d0, i));
                    assert(prior[j][i] == landed(column(g, i), fill_of(g, d0, i))[j]);
                } else if i > x {
                    assert(prior[j][i] == g[j][i]);
                }
            }
        }
        x = x + 1;
    }
    proof {
        let d = source.drawn_since(start);
        assert forall|j: int| 0 <= j < HEIGHT implies (#[trigger] settled(g, d)[j]).len()
            == WIDTH by {}
        lemma_grid_equal(grid(*board), settled(g, d));
        lemma_settled(g, d);
        if is_full(g) {
            lemma_settled_full(g, d);
            crate::grid::lemma_grid_injective(*board, *old(board));
        }
    }
    drops
}

/// Lets every tile fall as far as it can and fills the cells that come free
/// with random tiles. See [`drop_tiles_with_source`] for the relocations returned.
pub fn drop_tiles_with_info(board: &mut Board) -> (drops: Vec<DropInfo>)
    ensures
        (exists|d: Seq<u8>|
            {
                &&& all_ordinary(d)
                &&& d.len() == count_of(grid(*old(board)), 0u8)
                &&& grid(*final(board)) == #[trigger] settled(grid(*old(board)), d)
                &&& drops@ == settle_events(grid(*old(board)), d)
            }),
        is_full(grid(*final(board))),
        count_of(grid(*final(board)), BONUS_TILE) == count_of(grid(*old(board)), BONUS_TILE),
        well_formed(grid(*old(board))) ==> well_formed(grid(*final(board))),
        is_full(grid(*old(board))) ==> *final(board) == *old(board) && drops@.len() == 0,
{
    let mut source = TileSource::random();
    let ghost start = source;
    let drops = drop_tiles_with_source(board, &mut source);
    proof {
        let d = source.drawn_since(start);
        assert(grid(*board) == settled(grid(*old(board)), d));
    }
    drops
}

} // verus!
