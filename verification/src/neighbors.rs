//! The up-to-8 grid adjacency relation, shared by mine counting and by the
//! flood-fill reveal.
use vstd::prelude::*;

verus! {

/// `(nx, ny)` is one of the up-to-eight cells surrounding `(x, y)`:
/// both coordinates differ by at most one and the positions differ.
/// Bounds are stated separately by the callers.
pub open spec fn adjacent(x: int, y: int, nx: int, ny: int) -> bool {
    &&& -1 <= nx - x <= 1
    &&& -1 <= ny - y <= 1
    &&& !(nx == x && ny == y)
}

/// How many positions surround `(x, y)` inside a `rows x columns` grid:
/// one for each of the eight offsets whose target lies on the grid
/// (8 in the interior, 5 on an edge, 3 in a corner).
pub open spec fn neighbor_total(x: int, y: int, rows: int, columns: int) -> int {
    (if x > 0 && y > 0 {
        1int
    } else {
        0int
    }) + (if x > 0 {
        1int
    } else {
        0int
    }) + (if y > 0 {
        1int
    } else {
        0int
    }) + (if x + 1 < columns && y + 1 < rows {
        1int
    } else {
        0int
    }) + (if x + 1 < columns {
        1int
    } else {
        0int
    }) + (if y + 1 < rows {
        1int
    } else {
        0int
    }) + (if x > 0 && y + 1 < rows {
        1int
    } else {
        0int
    }) + (if x + 1 < columns && y > 0 {
        1int
    } else {
        0int
    })
}

/// The in-bounds neighbors of `(x, y)` on a `rows x columns` grid, as a
/// short list holding exactly the positions that are adjacent and inside
/// the grid, each exactly once.
pub fn with_surrounding_cells(x: usize, y: usize, rows: usize, columns: usize) -> (r: Vec<
    (usize, usize),
>)
    requires
        x < columns,
        y < rows,
    ensures
        forall|p: (usize, usize)| #[trigger]
            r@.contains(p) ==> p.0 < columns && p.1 < rows && adjacent(
                x as int,
                y as int,
                p.0 as int,
                p.1 as int,
            ),
        forall|nx: usize, ny: usize|
            nx < columns && ny < rows && adjacent(x as int, y as int, nx as int, ny as int)
                ==> #[trigger] r@.contains((nx, ny)),
        r@.no_duplicates(),
        r@.len() == neighbor_total(x as int, y as int, rows as int, columns as int),
{
    let first_y = y == 0;
    let last_y = y == rows - 1;
    let first_x = x == 0;
    let last_x = x == columns - 1;
    let mut r: Vec<(usize, usize)> = Vec::new();

    if !first_x && !first_y {
        r.push((x - 1, y - 1));
    }
    if !first_x {
        r.push((x - 1, y));
    }
    if !first_y {
        r.push((x, y - 1));
    }
    if !last_x && !last_y {
        r.push((x + 1, y + 1));
    }
    if !last_x {
        r.push((x + 1, y));
    }
    if !last_y {
        r.push((x, y + 1));
    }
    if !first_x && !last_y {
        r.push((x - 1, y + 1));
    }
    if !last_x && !first_y {
        r.push((x + 1, y - 1));
    }

    proof {
        broadcast use vstd::seq_lib::group_seq_properties;

        assert forall|i: int, j: int|
            0 <= i < r@.len() && 0 <= j < r@.len() && i != j implies r@[i] != r@[j] by {
        }
        assert(r@.no_duplicates());
    }
    r
}

} // verus!
