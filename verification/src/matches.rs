use vstd::prelude::*;
use crate::constants::{WIDTH, HEIGHT};
use crate::types::Board;
use crate::grid::{Grid, grid, in_bounds, is_grid, column};

verus! {

/// One match: the cells of a run, in scan order.
pub type Group = Seq<(usize, usize)>;

/// Row `fixed` (left to right) or column `fixed` (top to bottom) of the grid.
pub open spec fn line_of(g: Grid, fixed: int, horizontal: bool) -> Seq<u8> {
    if horizontal {
        g[fixed]
    } else {
        column(g, fixed)
    }
}

/// The `i`-th cell of row `fixed` or of column `fixed`.
pub open spec fn cell_along(fixed: int, i: int, horizontal: bool) -> (usize, usize) {
    if horizontal {
        (i as usize, fixed as usize)
    } else {
        (fixed as usize, i as usize)
    }
}

/// How many cells from `i` on hold the code of cell `i`, that cell included.
pub open spec fn run_len(line: Seq<u8>, i: int) -> int
    decreases line.len() - i,
{
    if 0 <= i && i + 1 < line.len() && line[i + 1] == line[i] {
        1 + run_len(line, i + 1)
    } else {
        1
    }
}

/// A maximal run of at least three equal tiles begins at `i`.
pub open spec fn starts_match(line: Seq<u8>, i: int) -> bool {
    &&& 0 <= i < line.len()
    &&& line[i] != 0
    &&& (i == 0 || line[i - 1] != line[i])
    &&& run_len(line, i) >= 3
}

/// The cells of the run of `len` cells that begins at `start` in row or
/// column `fixed`.
pub open spec fn group_cells(start: int, len: int, fixed: int, horizontal: bool) -> Group {
    Seq::new(len as nat, |k: int| cell_along(fixed, start + k, horizontal))
}

/// The matches of one line that begin before `n`, in the order of their
/// beginnings.
pub open spec fn line_groups(line: Seq<u8>, n: int, fixed: int, horizontal: bool) -> Seq<Group>
    decreases n,
{
    if n <= 0 {
        Seq::empty()
    } else {
        let before = line_groups(line, n - 1, fixed, horizontal);
        if starts_match(line, n - 1) {
            before.push(group_cells(n - 1, run_len(line, n - 1), fixed, horizontal))
        } else {
            before
        }
    }
}

/// The matches of row or column `fixed`.
pub open spec fn groups_in(g: Grid, fixed: int, horizontal: bool) -> Seq<Group> {
    let line = line_of(g, fixed, horizontal);
    line_groups(line, line.len() as int, fixed, horizontal)
}

/// The matches of the first `n` rows, or of the first `n` columns.
pub open spec fn groups_upto(g: Grid, n: int, horizontal: bool) -> Seq<Group>
    decreases n,
{
    if n <= 0 {
        Seq::empty()
    } else {
        groups_upto(g, n - 1, horizontal) + groups_in(g, n - 1, horizontal)
    }
}

/// All matches of a grid: those of the rows, top to bottom and within a row
/// left to right, then those of the columns, left to right and within a
/// column top to bottom.
pub open spec fn match_groups(g: Grid) -> Seq<Group> {
    groups_upto(g, HEIGHT as int, true) + groups_upto(g, WIDTH as int, false)
}

/// Cells `i`, `i + 1` and `i + 2` of the line hold the same tile.
pub open spec fn triple(line: Seq<u8>, i: int) -> bool {
    &&& 0 <= i
    &&& i + 2 < line.len()
    &&& line[i] != 0
    &&& line[i + 1] == line[i]
    &&& line[i + 2] == line[i]
}

/// Cell `i` of the line is one of three neighbouring cells with the same tile.
pub open spec fn in_line_match(line: Seq<u8>, i: int) -> bool {
    triple(line, i - 2) || triple(line, i - 1) || triple(line, i)
}

/// Cell `(x, y)` belongs to a horizontal or vertical run of three or more
/// equal tiles.
pub open spec fn in_match(g: Grid, x: int, y: int) -> bool {
    in_line_match(g[y], x) || in_line_match(column(g, x), y)
}

/// Some cell of the grid belongs to a run of three or more equal tiles.
pub open spec fn has_match(g: Grid) -> bool {
    exists|x: int, y: int| in_bounds(x, y) && #[trigger] in_match(g, x, y)
}

/// One of the groups holds the cell `(x, y)`.
pub open spec fn covers(groups: Seq<Group>, x: int, y: int) -> bool {
    exists|i: int, k: int|
        0 <= i < groups.len() && 0 <= k < groups[i].len() && #[trigger] groups[i][k] == (
            x as usize,
            y as usize,
        )
}

/// Where the run that holds cell `i` begins.
pub open spec fn run_start(line: Seq<u8>, i: int) -> int
    decreases i,
{
    if 0 < i < line.len() && line[i - 1] == line[i] {
        run_start(line, i - 1)
    } else {
        i
    }
}

/// What a vector of groups holds.
pub open spec fn groups_of(v: Vec<Vec<(usize, usize)>>) -> Seq<Group> {
    Seq::new(v.len() as nat, |i: int| v[i]@)
}

/// Cells `s..x` of the line hold one code.
pub open spec fn uniform(line: Seq<u8>, s: int, x: int) -> bool {
    forall|k: int| s <= k < x ==> #[trigger] line[k] == line[s]
}

/// A run that reaches from `s` to just before `x` is as long as its last
/// cell's run and the cells before that.
proof fn lemma_run_len_uniform(line: Seq<u8>, s: int, x: int)
    requires
        0 <= s < x <= line.len(),
        uniform(line, s, x),
    ensures
        run_len(line, s) == (x - 1 - s) + run_len(line, x - 1),
    decreases x - s,
{
    if s + 1 < x {
        assert(line[s + 1] == line[s]);
        assert forall|k: int| s + 1 <= k < x implies #[trigger] line[k] == line[s + 1] by {
            assert(line[k] == line[s]);
        }
        lemma_run_len_uniform(line, s + 1, x);
    }
}

/// No match begins inside a run.
proof fn lemma_line_groups_skip(line: Seq<u8>, s: int, x: int, fixed: int, horizontal: bool)
    requires
        0 <= s < x <= line.len(),
        uniform(line, s, x),
    ensures
        line_groups(line, x, fixed, horizontal) == line_groups(line, s + 1, fixed, horizontal),
    decreases x - s,
{
    if s + 1 < x {
        assert(line[x - 1] == line[s]);
        assert(line[x - 2] == line[s]);
        assert(!starts_match(line, x - 1));
        assert forall|k: int| s <= k < x - 1 implies #[trigger] line[k] == line[s] by {}
        lemma_line_groups_skip(line, s, x - 1, fixed, horizontal);
    }
}

/// The run that begins at `s` holds one code, lies within the line and
/// cannot be extended at its end.
pub proof fn lemma_run_extent(line: Seq<u8>, s: int)
    requires
        0 <= s < line.len(),
    ensures
        1 <= run_len(line, s),
        s + run_len(line, s) <= line.len(),
        uniform(line, s, s + run_len(line, s)),
        s + run_len(line, s) == line.len() || line[s + run_len(line, s)] != line[s],
    decreases line.len() - s,
{
    if s + 1 < line.len() && line[s + 1] == line[s] {
        lemma_run_extent(line, s + 1);
        let e = s + run_len(line, s);
        assert forall|k: int| s <= k < e implies #[trigger] line[k] == line[s] by {
            if k > s {
                assert(line[k] == line[s + 1]);
            }
        }
    }
}

/// The run that holds cell `i` begins at or before `i`, holds one code up to
/// `i`, and cannot be extended at its beginning.
pub proof fn lemma_run_start(line: Seq<u8>, i: int)
    requires
        0 <= i < line.len(),
    ensures
        0 <= run_start(line, i) <= i,
        uniform(line, run_start(line, i), i + 1),
        run_start(line, i) == 0 || line[run_start(line, i) - 1] != line[run_start(line, i)],
    decreases i,
{
    if 0 < i && line[i - 1] == line[i] {
        lemma_run_start(line, i - 1);
        let s = run_start(line, i);
        assert forall|k: int| s <= k < i + 1 implies #[trigger] line[k] == line[s] by {
            if k == i {
                assert(line[i - 1] == line[s]);
            }
        }
    }
}

/// Every cell of a match is one of three neighbouring cells with one tile.
proof fn lemma_match_cells(line: Seq<u8>, s: int, k: int)
    requires
        starts_match(line, s),
        0 <= k < run_len(line, s),
    ensures
        s + k < line.len(),
        line[s + k] == line[s],
        in_line_match(line, s + k),
{
    lemma_run_extent(line, s);
    let len = run_len(line, s);
    let i = s + k;
    assert(line[i] == line[s]);
    if k >= 2 {
        assert(line[i - 1] == line[s]);
        assert(line[i - 2] == line[s]);
        assert(triple(line, i - 2));
    } else if k + 2 < len {
        assert(line[i + 1] == line[s]);
        assert(line[i + 2] == line[s]);
        assert(triple(line, i));
    } else {
        assert(line[i - 1] == line[s]);
        assert(line[i + 1] == line[s]);
        assert(triple(line, i - 1));
    }
}

/// Three neighbouring cells with one tile lie in a match, which begins where
/// their run begins.
proof fn lemma_triple_in_match(line: Seq<u8>, w: int)
    requires
        triple(line, w),
    ensures
        starts_match(line, run_start(line, w)),
        run_start(line, w) <= w,
        w + 2 < run_start(line, w) + run_len(line, run_start(line, w)),
{
    lemma_run_start(line, w);
    let s = run_start(line, w);
    assert(line[w] == line[s]);
    assert forall|k: int| s <= k < w + 3 implies #[trigger] line[k] == line[s] by {}
    lemma_run_len_uniform(line, s, w + 3);
    lemma_run_extent(line, w + 2);
}

/// A match that begins before `n` is among the groups found up to `n`.
proof fn lemma_line_groups_has(
    line: Seq<u8>,
    n: int,
    s: int,
    fixed: int,
    horizontal: bool,
) -> (j: int)
    requires
        0 <= s < n,
        starts_match(line, s),
    ensures
        0 <= j < line_groups(line, n, fixed, horizontal).len(),
        line_groups(line, n, fixed, horizontal)[j] == group_cells(
            s,
            run_len(line, s),
            fixed,
            horizontal,
        ),
    decreases n,
{
    if s == n - 1 {
        line_groups(line, n - 1, fixed, horizontal).len() as int
    } else {
        lemma_line_groups_has(line, n - 1, s, fixed, horizontal)
    }
}

/// Every group found in a line is a match of that line.
proof fn lemma_line_groups_origin(
    line: Seq<u8>,
    n: int,
    j: int,
    fixed: int,
    horizontal: bool,
) -> (s: int)
    requires
        0 <= j < line_groups(line, n, fixed, horizontal).len(),
    ensures
        0 <= s < n,
        starts_match(line, s),
        line_groups(line, n, fixed, horizontal)[j] == group_cells(
            s,
            run_len(line, s),
            fixed,
            horizontal,
        ),
    decreases n,
{
    let before = line_groups(line, n - 1, fixed, horizontal);
    if j < before.len() {
        lemma_line_groups_origin(line, n - 1, j, fixed, horizontal)
    } else {
        n - 1
    }
}

/// A group of one of the first `n` lines is among the groups of those lines.
proof fn lemma_groups_upto_has(g: Grid, n: int, fixed: int, j: int, horizontal: bool) -> (i:
    int)
    requires
        0 <= fixed < n,
        0 <= j < groups_in(g, fixed, horizontal).len(),
    ensures
        0 <= i < groups_upto(g, n, horizontal).len(),
        groups_upto(g, n, horizontal)[i] == groups_in(g, fixed, horizontal)[j],
    decreases n,
{
    if fixed == n - 1 {
        groups_upto(g, n - 1, horizontal).len() + j
    } else {
        lemma_groups_upto_has(g, n - 1, fixed, j, horizontal)
    }
}

/// Every group of the first `n` lines is a group of one of them.
proof fn lemma_groups_upto_origin(g: Grid, n: int, i: int, horizontal: bool) -> (r: (int, int))
    requires
        0 <= i < groups_upto(g, n, horizontal).len(),
    ensures
        0 <= r.0 < n,
        0 <= r.1 < groups_in(g, r.0, horizontal).len(),
        groups_upto(g, n, horizontal)[i] == groups_in(g, r.0, horizontal)[r.1],
    decreases n,
{
    let before = groups_upto(g, n - 1, horizontal);
    if i < before.len() {
        lemma_groups_upto_origin(g, n - 1, i, horizontal)
    } else {
        (n - 1, i - before.len())
    }
}

/// How many rows (`horizontal`) or columns there are.
pub open spec fn lines(horizontal: bool) -> int {
    if horizontal {
        HEIGHT as int
    } else {
        WIDTH as int
    }
}

/// Where a group of the grid's matches comes from: whether it is horizontal,
/// which row or column it lies in, and where in that line it begins.
pub struct Origin {
    pub horizontal: bool,
    pub fixed: int,
    pub start: int,
}

/// Group `i` of the grid's matches is the run `o` of `o`'s line.
pub open spec fn is_origin(g: Grid, i: int, o: Origin) -> bool {
    let line = line_of(g, o.fixed, o.horizontal);
    &&& 0 <= o.fixed < lines(o.horizontal)
    &&& starts_match(line, o.start)
    &&& o.start + run_len(line, o.start) <= line.len()
    &&& match_groups(g)[i] == group_cells(o.start, run_len(line, o.start), o.fixed, o.horizontal)
}

/// Every group of the grid's matches is a maximal run of three or more equal
/// tiles in one row or one column.
pub proof fn lemma_match_origin(g: Grid, i: int) -> (o: Origin)
    requires
        is_grid(g),
        0 <= i < match_groups(g).len(),
    ensures
        is_origin(g, i, o),
{
    let rows = groups_upto(g, HEIGHT as int, true);
    let horizontal = i < rows.len();
    let r = if horizontal {
        lemma_groups_upto_origin(g, HEIGHT as int, i, true)
    } else {
        lemma_groups_upto_origin(g, WIDTH as int, i - rows.len(), false)
    };
    let line = line_of(g, r.0, horizontal);
    let s = lemma_line_groups_origin(line, line.len() as int, r.1, r.0, horizontal);
    lemma_run_extent(line, s);
    Origin { horizontal, fixed: r.0, start: s }
}

/// A maximal run of three or more equal tiles in a row or a column is one of
/// the grid's matches.
pub proof fn lemma_match_found(g: Grid, o: Origin) -> (i: int)
    requires
        is_grid(g),
        0 <= o.fixed < lines(o.horizontal),
        starts_match(line_of(g, o.fixed, o.horizontal), o.start),
    ensures
        0 <= i < match_groups(g).len(),
        is_origin(g, i, o),
{
    let line = line_of(g, o.fixed, o.horizontal);
    lemma_run_extent(line, o.start);
    let j = lemma_line_groups_has(line, line.len() as int, o.start, o.fixed, o.horizontal);
    let rows = groups_upto(g, HEIGHT as int, true);
    if o.horizontal {
        lemma_groups_upto_has(g, HEIGHT as int, o.fixed, j, true)
    } else {
        rows.len() + lemma_groups_upto_has(g, WIDTH as int, o.fixed, j, false)
    }
}

/// Every cell of every match lies on the board and belongs to a run of
/// three; every match has three cells or more.
pub proof fn lemma_match_cell(g: Grid, i: int, k: int)
    requires
        is_grid(g),
        0 <= i < match_groups(g).len(),
        0 <= k < match_groups(g)[i].len(),
    ensures
        match_groups(g)[i].len() >= 3,
        in_bounds(match_groups(g)[i][k].0 as int, match_groups(g)[i][k].1 as int),
        in_match(g, match_groups(g)[i][k].0 as int, match_groups(g)[i][k].1 as int),
{
    let o = lemma_match_origin(g, i);
    let line = line_of(g, o.fixed, o.horizontal);
    lemma_match_cells(line, o.start, k);
    assert(match_groups(g)[i][k] == cell_along(o.fixed, o.start + k, o.horizontal));
}

/// The matches hold exactly the cells that belong to a run of three.
pub proof fn lemma_matches_cover(g: Grid, x: int, y: int)
    requires
        is_grid(g),
        in_bounds(x, y),
    ensures
        covers(match_groups(g), x, y) <==> in_match(g, x, y),
{
    if covers(match_groups(g), x, y) {
        let (i, k) = choose|i: int, k: int|
            0 <= i < match_groups(g).len() && 0 <= k < match_groups(g)[i].len()
                && #[trigger] match_groups(g)[i][k] == (x as usize, y as usize);
        lemma_match_cell(g, i, k);
    }
    if in_match(g, x, y) {
        let horizontal = in_line_match(g[y], x);
        let fixed = if horizontal {
            y
        } else {
            x
        };
        let at = if horizontal {
            x
        } else {
            y
        };
        let line = line_of(g, fixed, horizontal);
        assert(in_line_match(line, at));
        let w = if triple(line, at - 2) {
            at - 2
        } else if triple(line, at - 1) {
            at - 1
        } else {
            at
        };
        lemma_triple_in_match(line, w);
        let s = run_start(line, w);
        let o = Origin { horizontal, fixed, start: s };
        let i = lemma_match_found(g, o);
        let k = at - s;
        assert(match_groups(g)[i][k] == cell_along(fixed, s + k, horizontal));
        assert(match_groups(g)[i][k] == (x as usize, y as usize));
    }
}

/// A grid has matches exactly when one of its cells belongs to a run of three.
pub proof fn lemma_matches_empty(g: Grid)
    requires
        is_grid(g),
    ensures
        match_groups(g).len() == 0 <==> !has_match(g),
{
    if match_groups(g).len() > 0 {
        let o = lemma_match_origin(g, 0);
        lemma_match_cell(g, 0, 0);
        let p = match_groups(g)[0][0];
        assert(in_bounds(p.0 as int, p.1 as int) && in_match(g, p.0 as int, p.1 as int));
    }
    if has_match(g) {
        let (x, y) = choose|x: int, y: int| in_bounds(x, y) && #[trigger] in_match(g, x, y);
        lemma_matches_cover(g, x, y);
    }
}

fn tile_along(board: &Board, fixed: usize, i: usize, horizontal: bool) -> (t: u8)
    requires
        horizontal ==> in_bounds(i as int, fixed as int),
        !horizontal ==> in_bounds(fixed as int, i as int),
    ensures
        t == line_of(grid(*board), fixed as int, horizontal)[i as int],
{
    if horizontal {
        board[fixed][i]
    } else {
        board[i][fixed]
    }
}

fn position_along(fixed: usize, i: usize, horizontal: bool) -> (p: (usize, usize))
    ensures
        p == cell_along(fixed as int, i as int, horizontal),
{
    if horizontal {
        (i, fixed)
    } else {
        (fixed, i)
    }
}

/// Ends the run collected in `group`: one of three or more cells is a match
/// and goes to `found`; a shorter one is dropped.
fn close_run(group: &mut Vec<(usize, usize)>, found: &mut Vec<Vec<(usize, usize)>>)
    ensures
        final(group)@ == Seq::<(usize, usize)>::empty(),
        groups_of(*final(found)) == (if old(group).len() >= 3 {
            groups_of(*old(found)).push(old(group)@)
        } else {
            groups_of(*old(found))
        }),
{
    let mut run: Vec<(usize, usize)> = Vec::new();
    std::mem::swap(group, &mut run);
    if run.len() >= 3 {
        found.push(run);
        assert(groups_of(*found) =~= groups_of(*old(found)).push(old(group)@));
    }
}

/// Scans one row or one column and appends its matches to `found`.
fn scan_line(board: &Board, fixed: usize, horizontal: bool, found: &mut Vec<Vec<(usize, usize)>>)
    requires
        horizontal ==> fixed < HEIGHT,
        !horizontal ==> fixed < WIDTH,
    ensures
        groups_of(*final(found)) == groups_of(*old(found)) + groups_in(
            grid(*board),
            fixed as int,
            horizontal,
        ),
{
    let n: usize = if horizontal {
        WIDTH
    } else {
        HEIGHT
    };
    let ghost line = line_of(grid(*board), fixed as int, horizontal);
    let ghost before = groups_of(*found);
    let mut group: Vec<(usize, usize)> = Vec::new();
    let mut i: usize = 0;
    assert(groups_of(*found) =~= before + line_groups(line, 0, fixed as int, horizontal));
    while i < n
        invariant
            i <= n,
            n == line.len(),
            n == (if horizontal {
                WIDTH
            } else {
                HEIGHT
            }),
            horizontal ==> fixed < HEIGHT,
            !horizontal ==> fixed < WIDTH,
            line == line_of(grid(*board), fixed as int, horizontal),
            group.len() <= i,
            group@ == group_cells(i - group.len(), group.len() as int, fixed as int, horizontal),
            uniform(line, i - group.len(), i as int),
            group.len() > 0 ==> line[i - group.len()] != 0,
            group.len() > 0 ==> (i - group.len() == 0 || line[i - group.len() - 1] != line[i
                - group.len()]),
            group.len() == 0 ==> (i == 0 || line[i - 1] == 0),
            groups_of(*found) == before + line_groups(
                line,
                i - group.len(),
                fixed as int,
                horizontal,
            ),
        decreases n - i,
    {
        let tile = tile_along(board, fixed, i, horizontal);
        let ghost s = i - group.len();
        if group.len() > 0 {
            let first = group[0];
            assert(first == cell_along(fixed as int, s, horizontal));
            let head = if horizontal {
                tile_along(board, fixed, first.0, horizontal)
            } else {
                tile_along(board, fixed, first.1, horizontal)
            };
            assert(head == line[s]);
            if tile != head {
                proof {
                    lemma_run_len_uniform(line, s, i as int);
                    lemma_line_groups_skip(line, s, i as int, fixed as int, horizontal);
                    assert(line[i - 1] == line[s]);
                }
                close_run(&mut group, found);
            }
        }
        if tile != 0 {
            let p = position_along(fixed, i, horizontal);
            group.push(p);
            assert(group@ =~= group_cells(
                i + 1 - group.len(),
                group.len() as int,
                fixed as int,
                horizontal,
            ));
        } else {
            proof {
                if group.len() > 0 {
                    lemma_run_len_uniform(line, s, i as int);
                    lemma_line_groups_skip(line, s, i as int, fixed as int, horizontal);
                    assert(line[i - 1] == line[s]);
                }
                assert(!starts_match(line, i as int));
            }
            close_run(&mut group, found);
            assert(group@ =~= group_cells(i + 1, 0, fixed as int, horizontal));
        }
        i = i + 1;
    }
    proof {
        if group.len() > 0 {
            let s = i - group.len();
            lemma_run_len_uniform(line, s, i as int);
            lemma_line_groups_skip(line, s, i as int, fixed as int, horizontal);
        }
    }
    close_run(&mut group, found);
}

/// Finds every maximal horizontal or vertical run of three or more equal
/// tiles. Empty cells form no run; bonus tiles form runs among themselves.
///
/// The runs of the rows come first, top to bottom and within a row left to
/// right; the runs of the columns follow, left to right and within a column
/// top to bottom. Each run lists its cells as `(x, y)`, left to right or top
/// to bottom.
pub fn find_matches(board: &Board) -> (groups: Vec<Vec<(usize, usize)>>)
    ensures
        groups_of(groups) == match_groups(grid(*board)),
        groups.len() == 0 <==> !has_match(grid(*board)),
        forall|i: int| 0 <= i < groups@.len() ==> (#[trigger] groups@[i])@.len() >= 3,
        forall|i: int, k: int|
            0 <= i < groups@.len() && 0 <= k < groups@[i]@.len() ==> in_bounds(
                (#[trigger] groups@[i]@[k]).0 as int,
                groups@[i]@[k].1 as int,
            ),
{
    let mut found: Vec<Vec<(usize, usize)>> = Vec::new();
    assert(groups_of(found) =~= groups_upto(grid(*board), 0, true));
    let mut y: usize = 0;
    while y < HEIGHT
        invariant
            y <= HEIGHT,
            groups_of(found) == groups_upto(grid(*board), y as int, true),
        decreases HEIGHT - y,
    {
        scan_line(board, y, true, &mut found);
        y = y + 1;
    }
    let ghost rows = groups_of(found);
    assert(groups_of(found) =~= rows + groups_upto(grid(*board), 0, false));
    let mut x: usize = 0;
    while x < WIDTH
        invariant
            x <= WIDTH,
            rows == groups_upto(grid(*board), HEIGHT as int, true),
            groups_of(found) == rows + groups_upto(grid(*board), x as int, false),
        decreases WIDTH - x,
    {
        scan_line(board, x, false, &mut found);
        assert(groups_of(found) =~= rows + groups_upto(grid(*board), x + 1, false));
        x = x + 1;
    }
    proof {
        lemma_matches_empty(grid(*board));
        assert forall|i: int| 0 <= i < found@.len() implies (#[trigger] found@[i])@.len() >= 3 by {
            assert(groups_of(found)[i] == found@[i]@);
            let o = lemma_match_origin(grid(*board), i);
        }
        assert forall|i: int, k: int|
            0 <= i < found@.len() && 0 <= k < found@[i]@.len() implies in_bounds(
            (#[trigger] found@[i]@[k]).0 as int,
            found@[i]@[k].1 as int,
        ) by {
            assert(groups_of(found)[i] == found@[i]@);
            lemma_match_cell(grid(*board), i, k);
        }
    }
    found
}

} // verus!
