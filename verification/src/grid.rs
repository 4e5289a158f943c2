//! The mathematical model of a board: dimensions, adjacency, mine counting,
//! and the relations between a board before and after an engine operation.

use vstd::prelude::*;
use crate::tile::Tile;

verus! {

// ---------------------------------------------------------------------------
// Dimensions and access
// ---------------------------------------------------------------------------

pub open spec fn height_of(b: Seq<Vec<Tile>>) -> int {
    b.len() as int
}

pub open spec fn width_of(b: Seq<Vec<Tile>>) -> int {
    if b.len() > 0 {
        b[0]@.len() as int
    } else {
        0
    }
}

pub open spec fn rectangular(b: Seq<Vec<Tile>>) -> bool {
    forall|y: int| 0 <= y < b.len() ==> (#[trigger] b[y])@.len() == width_of(b)
}

/// The board shape every engine operation works on: a rectangular grid whose
/// dimensions and total cell count fit the `i32` coordinate type.
pub open spec fn wf(b: Seq<Vec<Tile>>) -> bool {
    &&& rectangular(b)
    &&& height_of(b) <= i32::MAX
    &&& width_of(b) <= i32::MAX
    &&& height_of(b) * width_of(b) <= i32::MAX
}

pub open spec fn in_bounds(b: Seq<Vec<Tile>>, y: int, x: int) -> bool {
    0 <= y < height_of(b) && 0 <= x < width_of(b)
}

pub open spec fn tile_at(b: Seq<Vec<Tile>>, y: int, x: int) -> Tile {
    b[y]@[x]
}

/// (y2, x2) is one of the up to 8 cells surrounding (y1, x1).
pub open spec fn is_neighbor(y1: int, x1: int, y2: int, x2: int) -> bool {
    &&& !(y1 == y2 && x1 == x2)
    &&& -1 <= y1 - y2 <= 1
    &&& -1 <= x1 - x2 <= 1
}

// ---------------------------------------------------------------------------
// Adjacency
// ---------------------------------------------------------------------------

/// 1 when (y, x) is an in-bounds cell holding a mine, else 0.
pub open spec fn mine_at(b: Seq<Vec<Tile>>, y: int, x: int) -> int {
    if in_bounds(b, y, x) && tile_at(b, y, x).mine {
        1
    } else {
        0
    }
}

/// The number of mines among the up to 8 neighbors of (y, x).
pub open spec fn adjacent_mines(b: Seq<Vec<Tile>>, y: int, x: int) -> int {
    mine_at(b, y - 1, x - 1) + mine_at(b, y - 1, x) + mine_at(b, y - 1, x + 1)
        + mine_at(b, y, x - 1) + mine_at(b, y, x + 1)
        + mine_at(b, y + 1, x - 1) + mine_at(b, y + 1, x) + mine_at(b, y + 1, x + 1)
}

/// 1 when (y, x) is an in-bounds flagged cell, else 0.
pub open spec fn flag_at(b: Seq<Vec<Tile>>, y: int, x: int) -> int {
    if in_bounds(b, y, x) && tile_at(b, y, x).flagged {
        1
    } else {
        0
    }
}

/// The number of flags among the up to 8 neighbors of (y, x).
pub open spec fn adjacent_flags(b: Seq<Vec<Tile>>, y: int, x: int) -> int {
    flag_at(b, y - 1, x - 1) + flag_at(b, y - 1, x) + flag_at(b, y - 1, x + 1)
        + flag_at(b, y, x - 1) + flag_at(b, y, x + 1)
        + flag_at(b, y + 1, x - 1) + flag_at(b, y + 1, x) + flag_at(b, y + 1, x + 1)
}

/// The number a tile at (y, x) ought to store: 0 on a mine tile, else the
/// count of adjacent mines.
pub open spec fn spec_num(b: Seq<Vec<Tile>>, y: int, x: int) -> int {
    if tile_at(b, y, x).mine {
        0
    } else {
        adjacent_mines(b, y, x)
    }
}

/// Every stored `num` equals the number of adjacent mines, recomputed from
/// the mine placement alone; mine tiles store 0.
pub open spec fn counts_consistent(b: Seq<Vec<Tile>>) -> bool {
    forall|y: int, x: int|
        in_bounds(b, y, x) ==> (#[trigger] tile_at(b, y, x)).num == spec_num(b, y, x)
}

/// A zero-numbered non-mine tile of a consistent board has no mined neighbor.
pub proof fn lemma_no_adjacent_mines(b: Seq<Vec<Tile>>, y: int, x: int)
    requires
        in_bounds(b, y, x),
        counts_consistent(b),
        !tile_at(b, y, x).mine,
        tile_at(b, y, x).num == 0,
    ensures
        forall|p: int, q: int|
            in_bounds(b, p, q) && is_neighbor(y, x, p, q) ==> !(#[trigger] tile_at(b, p, q)).mine,
{
    assert(adjacent_mines(b, y, x) == 0);
    assert forall|p: int, q: int|
        in_bounds(b, p, q) && is_neighbor(y, x, p, q) implies !(#[trigger] tile_at(b, p, q)).mine by {
        assert(mine_at(b, p, q) == 0);
    }
}

// ---------------------------------------------------------------------------
// Relations between two board states
// ---------------------------------------------------------------------------

pub open spec fn same_dims(a: Seq<Vec<Tile>>, b: Seq<Vec<Tile>>) -> bool {
    &&& a.len() == b.len()
    &&& forall|y: int| 0 <= y < a.len() ==> (#[trigger] b[y])@.len() == a[y]@.len()
}

pub open spec fn boards_eq(a: Seq<Vec<Tile>>, b: Seq<Vec<Tile>>) -> bool {
    &&& same_dims(a, b)
    &&& forall|y: int, x: int| in_bounds(a, y, x) ==> #[trigger] tile_at(b, y, x) == tile_at(a, y, x)
}

pub open spec fn mines_unchanged(a: Seq<Vec<Tile>>, b: Seq<Vec<Tile>>) -> bool {
    forall|y: int, x: int|
        in_bounds(a, y, x) ==> (#[trigger] tile_at(b, y, x)).mine == tile_at(a, y, x).mine
}

pub open spec fn nums_unchanged(a: Seq<Vec<Tile>>, b: Seq<Vec<Tile>>) -> bool {
    forall|y: int, x: int|
        in_bounds(a, y, x) ==> (#[trigger] tile_at(b, y, x)).num == tile_at(a, y, x).num
}

pub open spec fn flags_unchanged(a: Seq<Vec<Tile>>, b: Seq<Vec<Tile>>) -> bool {
    forall|y: int, x: int|
        in_bounds(a, y, x) ==> (#[trigger] tile_at(b, y, x)).flagged == tile_at(a, y, x).flagged
}

pub open spec fn pos_unchanged(a: Seq<Vec<Tile>>, b: Seq<Vec<Tile>>) -> bool {
    forall|y: int, x: int|
        in_bounds(a, y, x) ==> (#[trigger] tile_at(b, y, x)).pos == tile_at(a, y, x).pos
}

pub open spec fn revealed_unchanged(a: Seq<Vec<Tile>>, b: Seq<Vec<Tile>>) -> bool {
    forall|y: int, x: int|
        in_bounds(a, y, x) ==> (#[trigger] tile_at(b, y, x)).revealed == tile_at(a, y, x).revealed
}

/// Every tile revealed in `a` is still revealed in `b`.
pub open spec fn revealed_monotone(a: Seq<Vec<Tile>>, b: Seq<Vec<Tile>>) -> bool {
    forall|y: int, x: int|
        in_bounds(a, y, x) && tile_at(a, y, x).revealed ==> (#[trigger] tile_at(b, y, x)).revealed
}

// ---------------------------------------------------------------------------
// Counting mines
// ---------------------------------------------------------------------------

/// The number of mines among the first `n` tiles of one row.
pub open spec fn row_mines(row: Seq<Tile>, n: int) -> int
    decreases n,
{
    if n <= 0 {
        0
    } else {
        row_mines(row, n - 1) + if row[n - 1].mine {
            1int
        } else {
            0int
        }
    }
}

/// The number of mines in the first `r` rows.
pub open spec fn rows_mines(b: Seq<Vec<Tile>>, r: int) -> int
    decreases r,
{
    if r <= 0 {
        0
    } else {
        rows_mines(b, r - 1) + row_mines(b[r - 1]@, b[r - 1]@.len() as int)
    }
}

pub open spec fn total_mines(b: Seq<Vec<Tile>>) -> int {
    rows_mines(b, b.len() as int)
}

pub proof fn lemma_row_mines_zero(row: Seq<Tile>, n: int)
    requires
        forall|i: int| 0 <= i < n ==> !(#[trigger] row[i]).mine,
    ensures
        row_mines(row, n) == 0,
    decreases n,
{
    if n > 0 {
        lemma_row_mines_zero(row, n - 1);
    }
}

/// A board with no mine on any tile counts zero mines.
pub proof fn lemma_rows_mines_zero(b: Seq<Vec<Tile>>, r: int)
    requires
        r <= b.len(),
        forall|p: int, q: int|
            0 <= p < r && 0 <= q < b[p]@.len() ==> !(#[trigger] b[p]@[q]).mine,
    ensures
        rows_mines(b, r) == 0,
    decreases r,
{
    if r > 0 {
        lemma_rows_mines_zero(b, r - 1);
        lemma_row_mines_zero(b[r - 1]@, b[r - 1]@.len() as int);
    }
}

pub proof fn lemma_row_mines_agree(r1: Seq<Tile>, r2: Seq<Tile>, n: int)
    requires
        forall|i: int| 0 <= i < n ==> (#[trigger] r1[i]).mine == r2[i].mine,
    ensures
        row_mines(r1, n) == row_mines(r2, n),
    decreases n,
{
    if n > 0 {
        lemma_row_mines_agree(r1, r2, n - 1);
    }
}

pub proof fn lemma_row_mines_update(r1: Seq<Tile>, r2: Seq<Tile>, x: int, n: int)
    requires
        0 <= x < n,
        forall|i: int| 0 <= i < n && i != x ==> (#[trigger] r1[i]).mine == r2[i].mine,
    ensures
        row_mines(r2, n) == row_mines(r1, n) - (if r1[x].mine { 1int } else { 0int })
            + (if r2[x].mine { 1int } else { 0int }),
    decreases n,
{
    if x == n - 1 {
        lemma_row_mines_agree(r1, r2, n - 1);
    } else {
        lemma_row_mines_update(r1, r2, x, n - 1);
    }
}

pub proof fn lemma_rows_mines_agree(b1: Seq<Vec<Tile>>, b2: Seq<Vec<Tile>>, r: int)
    requires
        r <= b1.len(),
        r <= b2.len(),
        forall|y: int| 0 <= y < r ==> (#[trigger] b2[y])@.len() == b1[y]@.len(),
        forall|y: int, i: int|
            0 <= y < r && 0 <= i < b1[y]@.len() ==> (#[trigger] b1[y]@[i]).mine == b2[y]@[i].mine,
    ensures
        rows_mines(b1, r) == rows_mines(b2, r),
    decreases r,
{
    if r > 0 {
        lemma_rows_mines_agree(b1, b2, r - 1);
        lemma_row_mines_agree(b1[r - 1]@, b2[r - 1]@, b1[r - 1]@.len() as int);
    }
}

/// Changing one tile changes the total mine count by that tile's contribution.
pub proof fn lemma_total_mines_update(b1: Seq<Vec<Tile>>, b2: Seq<Vec<Tile>>, y: int, x: int)
    requires
        b1.len() == b2.len(),
        forall|p: int| 0 <= p < b1.len() ==> (#[trigger] b2[p])@.len() == b1[p]@.len(),
        0 <= y < b1.len(),
        0 <= x < b1[y]@.len(),
        forall|p: int, q: int|
            0 <= p < b1.len() && 0 <= q < b1[p]@.len() && !(p == y && q == x)
                ==> (#[trigger] b1[p]@[q]).mine == b2[p]@[q].mine,
    ensures
        total_mines(b2) == total_mines(b1) - (if b1[y]@[x].mine { 1int } else { 0int })
            + (if b2[y]@[x].mine { 1int } else { 0int }),
{
    lemma_rows_mines_update(b1, b2, y, x, b1.len() as int);
}

proof fn lemma_rows_mines_update(b1: Seq<Vec<Tile>>, b2: Seq<Vec<Tile>>, y: int, x: int, r: int)
    requires
        b1.len() == b2.len(),
        forall|p: int| 0 <= p < b1.len() ==> (#[trigger] b2[p])@.len() == b1[p]@.len(),
        0 <= y < r <= b1.len(),
        0 <= x < b1[y]@.len(),
        forall|p: int, q: int|
            0 <= p < b1.len() && 0 <= q < b1[p]@.len() && !(p == y && q == x)
                ==> (#[trigger] b1[p]@[q]).mine == b2[p]@[q].mine,
    ensures
        rows_mines(b2, r) == rows_mines(b1, r) - (if b1[y]@[x].mine { 1int } else { 0int })
            + (if b2[y]@[x].mine { 1int } else { 0int }),
    decreases r,
{
    if y == r - 1 {
        lemma_rows_mines_agree_upto(b1, b2, r - 1);
        lemma_row_mines_update(b1[r - 1]@, b2[r - 1]@, x, b1[r - 1]@.len() as int);
    } else {
        lemma_rows_mines_update(b1, b2, y, x, r - 1);
        lemma_row_mines_agree(b1[r - 1]@, b2[r - 1]@, b1[r - 1]@.len() as int);
    }
}

proof fn lemma_rows_mines_agree_upto(b1: Seq<Vec<Tile>>, b2: Seq<Vec<Tile>>, r: int)
    requires
        r <= b1.len(),
        b1.len() == b2.len(),
        forall|p: int| 0 <= p < b1.len() ==> (#[trigger] b2[p])@.len() == b1[p]@.len(),
        forall|p: int, q: int|
            0 <= p < r && 0 <= q < b1[p]@.len() ==> (#[trigger] b1[p]@[q]).mine == b2[p]@[q].mine,
    ensures
        rows_mines(b1, r) == rows_mines(b2, r),
    decreases r,
{
    if r > 0 {
        lemma_rows_mines_agree_upto(b1, b2, r - 1);
        lemma_row_mines_agree(b1[r - 1]@, b2[r - 1]@, b1[r - 1]@.len() as int);
    }
}

// ---------------------------------------------------------------------------
// Counting revealed non-mine tiles (progress toward a win)
// ---------------------------------------------------------------------------

/// The number of revealed non-mine tiles among the first `n` tiles of a row.
pub open spec fn row_cleared(row: Seq<Tile>, n: int) -> int
    decreases n,
{
    if n <= 0 {
        0
    } else {
        row_cleared(row, n - 1) + if row[n - 1].revealed && !row[n - 1].mine {
            1int
        } else {
            0int
        }
    }
}

/// The number of revealed non-mine tiles in the first `r` rows.
pub open spec fn rows_cleared(b: Seq<Vec<Tile>>, r: int) -> int
    decreases r,
{
    if r <= 0 {
        0
    } else {
        rows_cleared(b, r - 1) + row_cleared(b[r - 1]@, b[r - 1]@.len() as int)
    }
}

/// The number of revealed non-mine tiles of the whole board.
pub open spec fn cleared_count(b: Seq<Vec<Tile>>) -> int {
    rows_cleared(b, b.len() as int)
}

pub proof fn lemma_row_cleared_agree(r1: Seq<Tile>, r2: Seq<Tile>, n: int)
    requires
        forall|i: int|
            0 <= i < n ==> (#[trigger] r1[i]).mine == r2[i].mine && r1[i].revealed
                == r2[i].revealed,
    ensures
        row_cleared(r1, n) == row_cleared(r2, n),
    decreases n,
{
    if n > 0 {
        lemma_row_cleared_agree(r1, r2, n - 1);
    }
}

pub proof fn lemma_row_cleared_update(r1: Seq<Tile>, r2: Seq<Tile>, x: int, n: int)
    requires
        0 <= x < n,
        forall|i: int|
            0 <= i < n && i != x ==> (#[trigger] r1[i]).mine == r2[i].mine && r1[i].revealed
                == r2[i].revealed,
    ensures
        row_cleared(r2, n) == row_cleared(r1, n) - (if r1[x].revealed && !r1[x].mine {
            1int
        } else {
            0int
        }) + (if r2[x].revealed && !r2[x].mine {
            1int
        } else {
            0int
        }),
    decreases n,
{
    if x == n - 1 {
        lemma_row_cleared_agree(r1, r2, n - 1);
    } else {
        lemma_row_cleared_update(r1, r2, x, n - 1);
    }
}

/// Changing one tile changes the cleared count by that tile's contribution.
pub proof fn lemma_cleared_count_update(b1: Seq<Vec<Tile>>, b2: Seq<Vec<Tile>>, y: int, x: int)
    requires
        b1.len() == b2.len(),
        forall|p: int| 0 <= p < b1.len() ==> (#[trigger] b2[p])@.len() == b1[p]@.len(),
        0 <= y < b1.len(),
        0 <= x < b1[y]@.len(),
        forall|p: int, q: int|
            0 <= p < b1.len() && 0 <= q < b1[p]@.len() && !(p == y && q == x)
                ==> (#[trigger] b1[p]@[q]).mine == b2[p]@[q].mine && b1[p]@[q].revealed
                == b2[p]@[q].revealed,
    ensures
        cleared_count(b2) == cleared_count(b1) - (if b1[y]@[x].revealed && !b1[y]@[x].mine {
            1int
        } else {
            0int
        }) + (if b2[y]@[x].revealed && !b2[y]@[x].mine {
            1int
        } else {
            0int
        }),
{
    lemma_rows_cleared_update(b1, b2, y, x, b1.len() as int);
}

proof fn lemma_rows_cleared_update(b1: Seq<Vec<Tile>>, b2: Seq<Vec<Tile>>, y: int, x: int, r: int)
    requires
        b1.len() == b2.len(),
        forall|p: int| 0 <= p < b1.len() ==> (#[trigger] b2[p])@.len() == b1[p]@.len(),
        0 <= y < r <= b1.len(),
        0 <= x < b1[y]@.len(),
        forall|p: int, q: int|
            0 <= p < b1.len() && 0 <= q < b1[p]@.len() && !(p == y && q == x)
                ==> (#[trigger] b1[p]@[q]).mine == b2[p]@[q].mine && b1[p]@[q].revealed
                == b2[p]@[q].revealed,
    ensures
        rows_cleared(b2, r) == rows_cleared(b1, r) - (if b1[y]@[x].revealed && !b1[y]@[x].mine {
            1int
        } else {
            0int
        }) + (if b2[y]@[x].revealed && !b2[y]@[x].mine {
            1int
        } else {
            0int
        }),
    decreases r,
{
    if y == r - 1 {
        lemma_rows_cleared_agree_upto(b1, b2, r - 1);
        lemma_row_cleared_update(b1[r - 1]@, b2[r - 1]@, x, b1[r - 1]@.len() as int);
    } else {
        lemma_rows_cleared_update(b1, b2, y, x, r - 1);
        lemma_row_cleared_agree(b1[r - 1]@, b2[r - 1]@, b1[r - 1]@.len() as int);
    }
}

proof fn lemma_rows_cleared_agree_upto(b1: Seq<Vec<Tile>>, b2: Seq<Vec<Tile>>, r: int)
    requires
        r <= b1.len(),
        b1.len() == b2.len(),
        forall|p: int| 0 <= p < b1.len() ==> (#[trigger] b2[p])@.len() == b1[p]@.len(),
        forall|p: int, q: int|
            0 <= p < r && 0 <= q < b1[p]@.len() ==> (#[trigger] b1[p]@[q]).mine == b2[p]@[q].mine
                && b1[p]@[q].revealed == b2[p]@[q].revealed,
    ensures
        rows_cleared(b1, r) == rows_cleared(b2, r),
    decreases r,
{
    if r > 0 {
        lemma_rows_cleared_agree_upto(b1, b2, r - 1);
        lemma_row_cleared_agree(b1[r - 1]@, b2[r - 1]@, b1[r - 1]@.len() as int);
    }
}

/// Two boards that agree tile for tile on mines and reveal state have the
/// same cleared count.
pub proof fn lemma_cleared_count_agree(b1: Seq<Vec<Tile>>, b2: Seq<Vec<Tile>>)
    requires
        b1.len() == b2.len(),
        forall|p: int| 0 <= p < b1.len() ==> (#[trigger] b2[p])@.len() == b1[p]@.len(),
        forall|p: int, q: int|
            0 <= p < b1.len() && 0 <= q < b1[p]@.len() ==> (#[trigger] b1[p]@[q]).mine
                == b2[p]@[q].mine && b1[p]@[q].revealed == b2[p]@[q].revealed,
    ensures
        cleared_count(b1) == cleared_count(b2),
{
    lemma_rows_cleared_agree_upto(b1, b2, b1.len() as int);
}

pub proof fn lemma_row_cleared_bounds(row: Seq<Tile>, n: int)
    requires
        0 <= n,
    ensures
        0 <= row_cleared(row, n) <= n,
    decreases n,
{
    if n > 0 {
        lemma_row_cleared_bounds(row, n - 1);
    }
}

/// The cleared count of the first `r` rows of a rectangular board lies in
/// [0, r * width].
pub proof fn lemma_rows_cleared_bounds(b: Seq<Vec<Tile>>, r: int)
    requires
        0 <= r <= b.len(),
        rectangular(b),
    ensures
        0 <= rows_cleared(b, r) <= r * width_of(b),
    decreases r,
{
    if r > 0 {
        lemma_rows_cleared_bounds(b, r - 1);
        lemma_row_cleared_bounds(b[r - 1]@, b[r - 1]@.len() as int);
        assert((r - 1) * width_of(b) + width_of(b) == r * width_of(b)) by (nonlinear_arith);
        assert(0 <= (r - 1) * width_of(b)) by (nonlinear_arith)
            requires 0 <= r - 1 && 0 <= width_of(b);
    }
}

} // verus!
