use vstd::prelude::*;
use crate::constants::{WIDTH, HEIGHT, TILE_TYPES, BONUS_TILE};

verus! {

/// The mathematical model of a board: a sequence of rows, each a sequence of
/// tile codes, so that `g[y][x]` is the code in column `x` of row `y`.
pub type Grid = Seq<Seq<u8>>;

/// The grid that a board (or any table of a board's dimensions) stands for.
pub open spec fn grid<T>(b: [[T; WIDTH]; HEIGHT]) -> Seq<Seq<T>> {
    Seq::new(HEIGHT as nat, |y: int| Seq::new(WIDTH as nat, |x: int| b[y][x]))
}

/// `(x, y)` names a cell of the board.
pub open spec fn in_bounds(x: int, y: int) -> bool {
    0 <= x < WIDTH && 0 <= y < HEIGHT
}

/// A grid has the dimensions of a board.
pub open spec fn is_grid<T>(g: Seq<Seq<T>>) -> bool {
    &&& g.len() == HEIGHT
    &&& forall|y: int| 0 <= y < HEIGHT ==> (#[trigger] g[y]).len() == WIDTH
}

/// `t` is the code of an ordinary coloured tile.
pub open spec fn is_ordinary(t: u8) -> bool {
    1 <= t <= TILE_TYPES
}

/// `t` is one of the codes that a cell may hold.
pub open spec fn is_tile_code(t: u8) -> bool {
    t == 0 || is_ordinary(t) || t == BONUS_TILE
}

/// Every cell of the grid holds an empty cell, an ordinary tile or a bonus tile.
pub open spec fn well_formed(g: Grid) -> bool {
    forall|x: int, y: int| in_bounds(x, y) ==> is_tile_code(#[trigger] g[y][x])
}

/// No cell of the grid is empty.
pub open spec fn is_full(g: Grid) -> bool {
    forall|x: int, y: int| in_bounds(x, y) ==> #[trigger] g[y][x] != 0
}

/// The grid `g` with `v` in cell `(x, y)`.
pub open spec fn with_tile<T>(g: Seq<Seq<T>>, x: int, y: int, v: T) -> Seq<Seq<T>> {
    g.update(y, g[y].update(x, v))
}

/// The grid `g` with the contents of two cells exchanged.
pub open spec fn swapped(g: Grid, x1: int, y1: int, x2: int, y2: int) -> Grid {
    with_tile(with_tile(g, x1, y1, g[y2][x2]), x2, y2, g[y1][x1])
}

/// The cells of column `x`, top to bottom.
pub open spec fn column<T>(g: Seq<Seq<T>>, x: int) -> Seq<T> {
    Seq::new(HEIGHT as nat, |y: int| g[y][x])
}

/// How often `v` occurs in a line at or after position `n`.
pub open spec fn count_in<T>(line: Seq<T>, v: T, n: int) -> int
    decreases line.len() - n,
{
    if n < 0 || n >= line.len() {
        0
    } else {
        count_in(line, v, n + 1) + if line[n] == v {
            1int
        } else {
            0int
        }
    }
}

/// How often `v` occurs in the columns to the left of column `x`.
pub open spec fn count_before<T>(g: Seq<Seq<T>>, v: T, x: int) -> int
    decreases x,
{
    if x <= 0 {
        0
    } else {
        count_before(g, v, x - 1) + count_in(column(g, x - 1), v, 0)
    }
}

/// How often `v` occurs in the grid.
pub open spec fn count_of<T>(g: Seq<Seq<T>>, v: T) -> int {
    count_before(g, v, WIDTH as int)
}

/// Two boards that stand for the same grid are the same board.
pub proof fn lemma_grid_injective<T>(a: [[T; WIDTH]; HEIGHT], b: [[T; WIDTH]; HEIGHT])
    requires
        grid(a) == grid(b),
    ensures
        a == b,
{
    assert forall|y: int| 0 <= y < HEIGHT implies a[y] == b[y] by {
        assert(grid(a)[y] == grid(b)[y]);
        assert forall|x: int| 0 <= x < WIDTH implies a[y][x] == b[y][x] by {
            assert(grid(a)[y][x] == a[y][x]);
            assert(grid(b)[y][x] == b[y][x]);
        }
        assert(a[y] =~= b[y]);
    }
    assert(a =~= b);
}

/// Two grids with the same cells are the same grid.
pub proof fn lemma_grid_equal<T>(a: Seq<Seq<T>>, b: Seq<Seq<T>>)
    requires
        is_grid(a),
        is_grid(b),
        forall|x: int, y: int| in_bounds(x, y) ==> #[trigger] a[y][x] == #[trigger] b[y][x],
    ensures
        a == b,
{
    assert forall|y: int| 0 <= y < HEIGHT implies a[y] == b[y] by {
        assert forall|x: int| 0 <= x < WIDTH implies a[y][x] == b[y][x] by {
            assert(in_bounds(x, y));
        }
        assert(a[y].len() == b[y].len());
        assert(a[y] =~= b[y]);
    }
    assert(a =~= b);
}

/// Writing one cell changes that cell and no other.
pub proof fn lemma_with_tile<T>(g: Seq<Seq<T>>, x: int, y: int, v: T)
    requires
        is_grid(g),
        in_bounds(x, y),
    ensures
        is_grid(with_tile(g, x, y, v)),
        with_tile(g, x, y, v)[y][x] == v,
        forall|i: int, j: int|
            in_bounds(i, j) && (i != x || j != y) ==> #[trigger] with_tile(g, x, y, v)[j][i]
                == g[j][i],
{
    let h = with_tile(g, x, y, v);
    assert forall|j: int| 0 <= j < HEIGHT implies (#[trigger] h[j]).len() == WIDTH by {
        assert(g[j].len() == WIDTH);
    }
}

/// A count lies between nothing and the number of cells counted.
pub proof fn lemma_count_in_range<T>(line: Seq<T>, v: T, n: int)
    requires
        0 <= n <= line.len(),
    ensures
        0 <= count_in(line, v, n) <= line.len() - n,
    decreases line.len() - n,
{
    if n < line.len() {
        lemma_count_in_range(line, v, n + 1);
    }
}

/// A count over the columns lies between nothing and the number of their cells.
pub proof fn lemma_count_before_range<T>(g: Seq<Seq<T>>, v: T, x: int)
    requires
        0 <= x,
    ensures
        0 <= count_before(g, v, x) <= x * HEIGHT,
    decreases x,
{
    if x > 0 {
        lemma_count_before_range(g, v, x - 1);
        lemma_count_in_range(column(g, x - 1), v, 0);
    }
}

/// Lines that hold `v` in the same places hold it equally often.
pub proof fn lemma_count_in_agree<T>(a: Seq<T>, b: Seq<T>, v: T, n: int)
    requires
        a.len() == b.len(),
        forall|i: int| n <= i < a.len() && 0 <= i ==> ((#[trigger] a[i] == v) <==> (#[trigger] b[i]
            == v)),
    ensures
        count_in(a, v, n) == count_in(b, v, n),
    decreases a.len() - n,
{
    if 0 <= n < a.len() {
        lemma_count_in_agree(a, b, v, n + 1);
    }
}

/// Where every place that holds `v` in `a` holds it in `b` too, `b` holds it
/// at least as often.
pub proof fn lemma_count_in_le<T>(a: Seq<T>, b: Seq<T>, v: T, n: int)
    requires
        a.len() == b.len(),
        forall|i: int| n <= i < a.len() && 0 <= i ==> ((#[trigger] a[i] == v) ==> (#[trigger] b[i]
            == v)),
    ensures
        count_in(a, v, n) <= count_in(b, v, n),
    decreases a.len() - n,
{
    if 0 <= n < a.len() {
        lemma_count_in_le(a, b, v, n + 1);
    }
}

/// Writing one place of a line takes what stood there out of the count and
/// what stands there now into it.
pub proof fn lemma_count_in_update<T>(line: Seq<T>, i: int, w: T, v: T, n: int)
    requires
        0 <= n <= line.len(),
        0 <= i < line.len(),
    ensures
        count_in(line.update(i, w), v, n) == count_in(line, v, n) + (if n <= i && w == v {
            1int
        } else {
            0int
        }) - (if n <= i && line[i] == v {
            1int
        } else {
            0int
        }),
    decreases line.len() - n,
{
    if n < line.len() {
        lemma_count_in_update(line, i, w, v, n + 1);
    }
}

/// Grids that hold `v` in the same cells hold it equally often.
pub proof fn lemma_count_agree<T>(a: Seq<Seq<T>>, b: Seq<Seq<T>>, v: T, x: int)
    requires
        0 <= x <= WIDTH,
        forall|i: int, j: int|
            in_bounds(i, j) && i < x ==> ((#[trigger] a[j][i] == v) <==> (#[trigger] b[j][i] == v)),
    ensures
        count_before(a, v, x) == count_before(b, v, x),
    decreases x,
{
    if x > 0 {
        lemma_count_agree(a, b, v, x - 1);
        let ca = column(a, x - 1);
        let cb = column(b, x - 1);
        assert forall|j: int| 0 <= j < ca.len() implies ((#[trigger] ca[j] == v) <==> (
        #[trigger] cb[j] == v)) by {
            assert(in_bounds(x - 1, j));
            assert((a[j][x - 1] == v) <==> (b[j][x - 1] == v));
        }
        lemma_count_in_agree(ca, cb, v, 0);
    }
}

/// Where every cell that holds `v` in `a` holds it in `b` too, `b` holds it
/// at least as often.
pub proof fn lemma_count_le<T>(a: Seq<Seq<T>>, b: Seq<Seq<T>>, v: T, x: int)
    requires
        0 <= x <= WIDTH,
        forall|i: int, j: int|
            in_bounds(i, j) && i < x ==> ((#[trigger] a[j][i] == v) ==> (#[trigger] b[j][i] == v)),
    ensures
        count_before(a, v, x) <= count_before(b, v, x),
    decreases x,
{
    if x > 0 {
        lemma_count_le(a, b, v, x - 1);
        let ca = column(a, x - 1);
        let cb = column(b, x - 1);
        assert forall|j: int| 0 <= j < ca.len() && #[trigger] ca[j] == v implies #[trigger] cb[j]
            == v by {
            assert(in_bounds(x - 1, j));
            assert((a[j][x - 1] == v) ==> (b[j][x - 1] == v));
        }
        lemma_count_in_le(ca, cb, v, 0);
    }
}

/// Writing one cell takes what stood there out of the count and what stands
/// there now into it.
pub proof fn lemma_count_with_tile<T>(g: Seq<Seq<T>>, x: int, y: int, w: T, v: T, n: int)
    requires
        is_grid(g),
        in_bounds(x, y),
        0 <= n <= WIDTH,
    ensures
        count_before(with_tile(g, x, y, w), v, n) == count_before(g, v, n) + (if x < n && w == v {
            1int
        } else {
            0int
        }) - (if x < n && g[y][x] == v {
            1int
        } else {
            0int
        }),
    decreases n,
{
    if n > 0 {
        lemma_count_with_tile(g, x, y, w, v, n - 1);
        lemma_with_tile(g, x, y, w);
        let h = with_tile(g, x, y, w);
        if x == n - 1 {
            assert(column(h, x) =~= column(g, x).update(y, w));
            lemma_count_in_update(column(g, x), y, w, v, 0);
        } else {
            assert(column(h, n - 1) =~= column(g, n - 1));
        }
    }
}

/// A grid that holds `v` nowhere holds it zero times.
pub proof fn lemma_count_none<T>(g: Seq<Seq<T>>, v: T, n: int)
    requires
        0 <= n <= WIDTH,
        forall|x: int, y: int| in_bounds(x, y) ==> #[trigger] g[y][x] != v,
    ensures
        count_before(g, v, n) == 0,
    decreases n,
{
    if n > 0 {
        lemma_count_none(g, v, n - 1);
        assert forall|j: int| 0 <= j < HEIGHT implies #[trigger] column(g, n - 1)[j] != v by {
            assert(in_bounds(n - 1, j));
            assert(g[j][n - 1] != v);
        }
        lemma_count_in_none(column(g, n - 1), v, 0);
    }
}

proof fn lemma_count_in_none<T>(line: Seq<T>, v: T, n: int)
    requires
        0 <= n <= line.len(),
        forall|j: int| 0 <= j < line.len() ==> #[trigger] line[j] != v,
    ensures
        count_in(line, v, n) == 0,
    decreases line.len() - n,
{
    if n < line.len() {
        lemma_count_in_none(line, v, n + 1);
    }
}

/// A count over two lines laid end to end is the sum of their counts.
pub proof fn lemma_count_in_concat<T>(a: Seq<T>, b: Seq<T>, v: T, n: int)
    requires
        0 <= n <= a.len(),
    ensures
        count_in(a + b, v, n) == count_in(a, v, n) + count_in(b, v, 0),
    decreases a.len() + b.len() - n,
{
    if n < a.len() {
        lemma_count_in_concat(a, b, v, n + 1);
        assert((a + b)[n] == a[n]);
    } else {
        lemma_count_in_shift(a, b, v, 0);
    }
}

proof fn lemma_count_in_shift<T>(a: Seq<T>, b: Seq<T>, v: T, m: int)
    requires
        0 <= m <= b.len(),
    ensures
        count_in(a + b, v, a.len() + m) == count_in(b, v, m),
    decreases b.len() - m,
{
    if m < b.len() {
        lemma_count_in_shift(a, b, v, m + 1);
        assert((a + b)[a.len() + m] == b[m]);
    }
}

/// Writes `v` into cell `(x, y)` of a board, or of a table of a board's
/// dimensions.
pub(crate) fn put<T: Copy>(board: &mut [[T; WIDTH]; HEIGHT], x: usize, y: usize, v: T)
    requires
        in_bounds(x as int, y as int),
    ensures
        grid(*final(board)) == with_tile(grid(*old(board)), x as int, y as int, v),
{
    board[y][x] = v;
    proof {
        lemma_with_tile(grid(*old(board)), x as int, y as int, v);
        lemma_grid_equal(grid(*board), with_tile(grid(*old(board)), x as int, y as int, v));
    }
}

} // verus!
