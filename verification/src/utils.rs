use vstd::prelude::*;

verus! {

/// Two cells are neighbours: they share a row or a column and lie one step apart.
pub open spec fn adjacent(x1: int, y1: int, x2: int, y2: int) -> bool {
    ||| (x1 == x2 && (y1 - y2 == 1 || y2 - y1 == 1))
    ||| (y1 == y2 && (x1 - x2 == 1 || x2 - x1 == 1))
}

/// Tells whether `(x1, y1)` and `(x2, y2)` are horizontal or vertical neighbours.
pub fn are_adjacent(x1: usize, y1: usize, x2: usize, y2: usize) -> (r: bool)
    ensures
        r == adjacent(x1 as int, y1 as int, x2 as int, y2 as int),
{
    (x1 == x2 && one_apart(y1, y2)) || (y1 == y2 && one_apart(x1, x2))
}

fn one_apart(a: usize, b: usize) -> (r: bool)
    ensures
        r == (a - b == 1 || b - a == 1),
{
    if a > b {
        a - b == 1
    } else {
        b - a == 1
    }
}

/// Neighbourhood does not depend on the order in which the two cells are named.
pub proof fn lemma_adjacent_symmetric(x1: int, y1: int, x2: int, y2: int)
    ensures
        adjacent(x1, y1, x2, y2) == adjacent(x2, y2, x1, y1),
{
}

} // verus!
