//! The board engine: construction, adjacency numbering, flood-fill reveal
//! with the first-click guarantee, chording, and flagging.

use vstd::prelude::*;
use crate::tile::Tile;
use crate::grid::{
    rows_mines,
    adjacent_flags, adjacent_mines, boards_eq, cleared_count, counts_consistent, flags_unchanged,
    height_of, in_bounds, is_neighbor, lemma_cleared_count_update, lemma_no_adjacent_mines,
    lemma_rows_cleared_bounds, lemma_total_mines_update, mines_unchanged, nums_unchanged,
    pos_unchanged, rectangular, revealed_monotone, revealed_unchanged, same_dims, spec_num,
    tile_at, total_mines, wf, width_of,
};

verus! {

pub type MinesweeperBoard = Vec<Vec<Tile>>;

// ---------------------------------------------------------------------------
// Flagging
// ---------------------------------------------------------------------------

/// What flagging does to one tile and to the mine budget: a no-op on a
/// revealed tile, otherwise a toggle of the flag, giving the budget back on
/// un-flagging and taking from it on flagging.
pub open spec fn flag_spec_tile(t: Tile, budget: int) -> (Tile, int) {
    if t.revealed {
        (t, budget)
    } else if t.flagged {
        ((Tile { flagged: false, ..t }), budget + 1)
    } else {
        ((Tile { flagged: true, ..t }), budget - 1)
    }
}

/// Toggles the flag on an unrevealed tile and adjusts the mine budget; a
/// no-op on a revealed or out-of-bounds target. The budget is advisory and
/// may go negative.
pub fn flag_tile(board: &mut MinesweeperBoard, x: i32, y: i32, mine_count: i32) -> (r: i32)
    requires
        wf(old(board)@),
        i32::MIN < mine_count < i32::MAX,
    ensures
        wf(final(board)@),
        same_dims(old(board)@, final(board)@),
        !in_bounds(old(board)@, y as int, x as int) ==> boards_eq(old(board)@, final(board)@)
            && r == mine_count,
        in_bounds(old(board)@, y as int, x as int) ==> {
            &&& tile_at(final(board)@, y as int, x as int) == flag_spec_tile(
                tile_at(old(board)@, y as int, x as int),
                mine_count as int,
            ).0
            &&& r as int == flag_spec_tile(
                tile_at(old(board)@, y as int, x as int),
                mine_count as int,
            ).1
            &&& forall|p: int, q: int|
                in_bounds(old(board)@, p, q) && !(p == y as int && q == x as int)
                    ==> #[trigger] tile_at(final(board)@, p, q) == tile_at(old(board)@, p, q)
        },
{
    if y < 0 || x < 0 || y as usize >= board.len() {
        return mine_count;
    }
    let yu = y as usize;
    let xu = x as usize;
    if xu >= board[yu].len() {
        return mine_count;
    }

    let mut selected_tile = board[yu][xu];
    let mut budget = mine_count;

    if !selected_tile.is_revealed() {
        if selected_tile.is_flagged() {
            selected_tile.set_flagged(false);
            budget = budget + 1;
        } else {
            selected_tile.set_flagged(true);
            budget = budget - 1;
        }
    }

    board[yu][xu] = selected_tile;
    budget
}

// ---------------------------------------------------------------------------
// Adjacency numbering
// ---------------------------------------------------------------------------

/// Recomputes every tile's stored number from the current mine placement:
/// non-mine tiles get their count of adjacent mines, mine tiles get 0. Must
/// be re-run whenever mine placement changes.
#[verifier::rlimit(100)]
pub fn determine_tile_number(board: &mut MinesweeperBoard)
    requires
        wf(old(board)@),
    ensures
        wf(final(board)@),
        same_dims(old(board)@, final(board)@),
        counts_consistent(final(board)@),
        mines_unchanged(old(board)@, final(board)@),
        flags_unchanged(old(board)@, final(board)@),
        revealed_unchanged(old(board)@, final(board)@),
        pos_unchanged(old(board)@, final(board)@),
{
    let height = board.len();
    let mut j: usize = 0;
    while j < height
        invariant
            height == board@.len(),
            j <= height,
            wf(board@),
            same_dims(old(board)@, board@),
            mines_unchanged(old(board)@, board@),
            flags_unchanged(old(board)@, board@),
            revealed_unchanged(old(board)@, board@),
            pos_unchanged(old(board)@, board@),
            forall|p: int, q: int|
                in_bounds(board@, p, q) && p < j ==> (#[trigger] tile_at(board@, p, q)).num
                    == spec_num(board@, p, q),
        decreases height - j,
    {
        let width = board[j].len();
        let mut i: usize = 0;
        while i < width
            invariant
                height == board@.len(),
                j < height,
                width == board@[j as int]@.len(),
                i <= width,
                wf(board@),
                same_dims(old(board)@, board@),
                mines_unchanged(old(board)@, board@),
                flags_unchanged(old(board)@, board@),
                revealed_unchanged(old(board)@, board@),
                pos_unchanged(old(board)@, board@),
                forall|p: int, q: int|
                    in_bounds(board@, p, q) && (p < j || (p == j && q < i))
                        ==> (#[trigger] tile_at(board@, p, q)).num == spec_num(board@, p, q),
            decreases width - i,
        {
            let ghost prev = board@;
            let mut number: i32 = 0;

            if !board[j][i].has_mine() {
                if j + 1 < height {
                    if i + 1 < width && board[j + 1][i + 1].has_mine() {
                        number = number + 1;
                    }
                    if i >= 1 && board[j + 1][i - 1].has_mine() {
                        number = number + 1;
                    }
                    if board[j + 1][i].has_mine() {
                        number = number + 1;
                    }
                }
                if j >= 1 {
                    if i + 1 < width && board[j - 1][i + 1].has_mine() {
                        number = number + 1;
                    }
                    if i >= 1 && board[j - 1][i - 1].has_mine() {
                        number = number + 1;
                    }
                    if board[j - 1][i].has_mine() {
                        number = number + 1;
                    }
                }
                if i + 1 < width && board[j][i + 1].has_mine() {
                    number = number + 1;
                }
                if i >= 1 && board[j][i - 1].has_mine() {
                    number = number + 1;
                }
                assert(number == adjacent_mines(board@, j as int, i as int));
            }
            assert(number == spec_num(board@, j as int, i as int));

            let mut t = board[j][i];
            t.set_num(number);
            board[j][i] = t;

            assert forall|p: int, q: int| in_bounds(board@, p, q) implies
                (#[trigger] tile_at(board@, p, q)).mine == tile_at(prev, p, q).mine
                    && tile_at(board@, p, q).flagged == tile_at(prev, p, q).flagged
                    && tile_at(board@, p, q).revealed == tile_at(prev, p, q).revealed
                    && tile_at(board@, p, q).pos == tile_at(prev, p, q).pos by {};
            assert forall|p: int, q: int| in_bounds(board@, p, q) implies
                adjacent_mines(board@, p, q) == adjacent_mines(prev, p, q) by {};

            i = i + 1;
        }
        j = j + 1;
    }
}

// ---------------------------------------------------------------------------
// Flood-fill reveal
// ---------------------------------------------------------------------------

/// `path` steps from the flood's target (y, x) through neighboring newly
/// revealed zero tiles to its last coordinate.
pub open spec fn zero_path(
    b0: Seq<Vec<Tile>>,
    b: Seq<Vec<Tile>>,
    y: int,
    x: int,
    path: Seq<(int, int)>,
) -> bool
    decreases path.len(),
{
    if path.len() == 0 {
        false
    } else {
        let p = path.last().0;
        let q = path.last().1;
        &&& in_bounds(b, p, q)
        &&& tile_at(b, p, q).revealed
        &&& !tile_at(b0, p, q).revealed
        &&& tile_at(b, p, q).num == 0
        &&& if path.len() == 1 {
            p == y && q == x
        } else {
            is_neighbor(p, q, path[path.len() - 2].0, path[path.len() - 2].1) && zero_path(
                b0,
                b,
                y,
                x,
                path.drop_last(),
            )
        }
    }
}

/// (p, q) is a newly revealed zero tile of the region grown from the target
/// (y, x): joined to the target by a path of newly revealed zero tiles.
pub open spec fn reaches_zero(
    b0: Seq<Vec<Tile>>,
    b: Seq<Vec<Tile>>,
    y: int,
    x: int,
    p: int,
    q: int,
) -> bool {
    exists|path: Seq<(int, int)>| #[trigger] zero_path(b0, b, y, x, path) && path.last() == (p, q)
}

/// (p, q) borders a newly revealed zero tile of the region grown from (y, x).
pub open spec fn borders_flood_zero(
    b0: Seq<Vec<Tile>>,
    b: Seq<Vec<Tile>>,
    y: int,
    x: int,
    p: int,
    q: int,
) -> bool {
    exists|c: int, d: int| is_neighbor(p, q, c, d) && #[trigger] reaches_zero(b0, b, y, x, c, d)
}

/// No tile beyond the flood region grown from the target is revealed: every
/// tile the call newly revealed is the target itself or borders a newly
/// revealed zero tile connected to the target through such tiles, so a
/// disconnected zero region elsewhere can never be touched.
pub open spec fn flood_sound(b0: Seq<Vec<Tile>>, b: Seq<Vec<Tile>>, y: int, x: int) -> bool {
    forall|p: int, q: int|
        in_bounds(b, p, q) && (#[trigger] tile_at(b, p, q)).revealed && !tile_at(b0, p, q).revealed
            && !(p == y && q == x) ==> borders_flood_zero(b0, b, y, x, p, q)
}

/// Every in-bounds neighbor of (p, q) that was not flagged is revealed.
pub open spec fn neighbors_pulled(b0: Seq<Vec<Tile>>, b: Seq<Vec<Tile>>, p: int, q: int) -> bool {
    forall|c: int, d: int|
        in_bounds(b, c, d) && is_neighbor(p, q, c, d) && !(#[trigger] tile_at(b0, c, d)).flagged
            ==> tile_at(b, c, d).revealed
}

/// The flood region is closed: every newly revealed zero tile has pulled in
/// all of its unflagged in-bounds neighbors.
pub open spec fn flood_complete(b0: Seq<Vec<Tile>>, b: Seq<Vec<Tile>>) -> bool {
    forall|p: int, q: int|
        in_bounds(b, p, q) && (#[trigger] tile_at(b, p, q)).revealed && !tile_at(b0, p, q).revealed
            && tile_at(b, p, q).num == 0 ==> neighbors_pulled(b0, b, p, q)
}

/// Newly revealed tiles never hold a mine and were never flagged.
pub open spec fn new_reveals_clean(b0: Seq<Vec<Tile>>, b: Seq<Vec<Tile>>) -> bool {
    forall|p: int, q: int|
        in_bounds(b, p, q) && (#[trigger] tile_at(b, p, q)).revealed && !tile_at(b0, p, q).revealed
            ==> !tile_at(b, p, q).mine && !tile_at(b0, p, q).flagged
}

/// (p, q) is one of the coordinates waiting on the flood work stack.
pub open spec fn on_stack(st: Seq<(usize, usize)>, p: int, q: int) -> bool {
    exists|k: int| 0 <= k < st.len() && (#[trigger] st[k]).0 as int == p && st[k].1 as int == q
}

proof fn lemma_on_stack_push(st: Seq<(usize, usize)>, e: (usize, usize))
    ensures
        forall|p: int, q: int| #[trigger] on_stack(st, p, q) ==> on_stack(st.push(e), p, q),
        on_stack(st.push(e), e.0 as int, e.1 as int),
        forall|p: int, q: int|
            #[trigger] on_stack(st.push(e), p, q) ==> on_stack(st, p, q) || (p == e.0 as int && q
                == e.1 as int),
{
    assert forall|p: int, q: int| #[trigger] on_stack(st, p, q) implies on_stack(
        st.push(e),
        p,
        q,
    ) by {
        let k = choose|k: int| 0 <= k < st.len() && (#[trigger] st[k]).0 as int == p && st[k].1 as int == q;
        assert(st.push(e)[k] == st[k]);
    }
    assert(st.push(e)[st.len() as int] == e);
    assert forall|p: int, q: int| #[trigger] on_stack(st.push(e), p, q) implies on_stack(st, p, q)
        || (p == e.0 as int && q == e.1 as int) by {
        let k = choose|k: int|
            0 <= k < st.push(e).len() && (#[trigger] st.push(e)[k]).0 as int == p && st.push(
                e,
            )[k].1 as int == q;
        if k < st.len() {
            assert(st[k] == st.push(e)[k]);
        }
    }
}

proof fn lemma_on_stack_pop(st: Seq<(usize, usize)>)
    requires
        st.len() > 0,
    ensures
        forall|p: int, q: int| #[trigger] on_stack(st.drop_last(), p, q) ==> on_stack(st, p, q),
        forall|p: int, q: int|
            #[trigger] on_stack(st, p, q) ==> on_stack(st.drop_last(), p, q) || (p
                == st.last().0 as int && q == st.last().1 as int),
        on_stack(st, st.last().0 as int, st.last().1 as int),
{
    assert forall|p: int, q: int| #[trigger] on_stack(st.drop_last(), p, q) implies on_stack(
        st,
        p,
        q,
    ) by {
        let k = choose|k: int|
            0 <= k < st.drop_last().len() && (#[trigger] st.drop_last()[k]).0 as int == p
                && st.drop_last()[k].1 as int == q;
        assert(st[k] == st.drop_last()[k]);
    }
    assert forall|p: int, q: int| #[trigger] on_stack(st, p, q) implies on_stack(
        st.drop_last(),
        p,
        q,
    ) || (p == st.last().0 as int && q == st.last().1 as int) by {
        let k = choose|k: int| 0 <= k < st.len() && (#[trigger] st[k]).0 as int == p && st[k].1 as int == q;
        if k < st.len() - 1 {
            assert(st.drop_last()[k] == st[k]);
        }
    }
    assert(st[st.len() - 1] == st.last());
}

proof fn lemma_zero_path_monotone(
    b0: Seq<Vec<Tile>>,
    b1: Seq<Vec<Tile>>,
    b2: Seq<Vec<Tile>>,
    y: int,
    x: int,
    path: Seq<(int, int)>,
)
    requires
        same_dims(b1, b2),
        width_of(b2) == width_of(b1),
        nums_unchanged(b1, b2),
        revealed_monotone(b1, b2),
        zero_path(b0, b1, y, x, path),
    ensures
        zero_path(b0, b2, y, x, path),
    decreases path.len(),
{
    let p = path.last().0;
    let q = path.last().1;
    assert(in_bounds(b1, p, q));
    assert(in_bounds(b2, p, q));
    assert(tile_at(b2, p, q).revealed && tile_at(b2, p, q).num == 0);
    if path.len() > 1 {
        lemma_zero_path_monotone(b0, b1, b2, y, x, path.drop_last());
    }
}

/// Lifts the flood-region predicates across a step that only reveals more
/// tiles and keeps every number.
proof fn lemma_flood_zone_monotone(
    b0: Seq<Vec<Tile>>,
    b1: Seq<Vec<Tile>>,
    b2: Seq<Vec<Tile>>,
    y: int,
    x: int,
)
    requires
        same_dims(b1, b2),
        width_of(b2) == width_of(b1),
        nums_unchanged(b1, b2),
        revealed_monotone(b1, b2),
    ensures
        forall|p: int, q: int|
            #[trigger] reaches_zero(b0, b1, y, x, p, q) ==> reaches_zero(b0, b2, y, x, p, q),
        forall|p: int, q: int|
            #[trigger] borders_flood_zero(b0, b1, y, x, p, q) ==> borders_flood_zero(
                b0,
                b2,
                y,
                x,
                p,
                q,
            ),
{
    assert forall|p: int, q: int| #[trigger] reaches_zero(b0, b1, y, x, p, q) implies reaches_zero(
        b0,
        b2,
        y,
        x,
        p,
        q,
    ) by {
        let path = choose|path: Seq<(int, int)>|
            #[trigger] zero_path(b0, b1, y, x, path) && path.last() == (p, q);
        lemma_zero_path_monotone(b0, b1, b2, y, x, path);
        assert(zero_path(b0, b2, y, x, path) && path.last() == (p, q));
    }
    assert forall|p: int, q: int| #[trigger] borders_flood_zero(b0, b1, y, x, p, q) implies
        borders_flood_zero(b0, b2, y, x, p, q) by {
        let (c, d) = choose|c: int, d: int|
            is_neighbor(p, q, c, d) && #[trigger] reaches_zero(b0, b1, y, x, c, d);
        assert(reaches_zero(b0, b2, y, x, c, d));
        assert(is_neighbor(p, q, c, d) && reaches_zero(b0, b2, y, x, c, d));
    }
}

/// A newly revealed zero tile that is the target or borders the region
/// grown from the target belongs to that region itself.
proof fn lemma_reach_extend(
    b0: Seq<Vec<Tile>>,
    b: Seq<Vec<Tile>>,
    y: int,
    x: int,
    cy: int,
    cx: int,
)
    requires
        in_bounds(b, cy, cx),
        tile_at(b, cy, cx).revealed,
        !tile_at(b0, cy, cx).revealed,
        tile_at(b, cy, cx).num == 0,
        (cy == y && cx == x) || borders_flood_zero(b0, b, y, x, cy, cx),
    ensures
        reaches_zero(b0, b, y, x, cy, cx),
{
    if cy == y && cx == x {
        let path = seq![(y, x)];
        assert(path.last() == (cy, cx));
        assert(zero_path(b0, b, y, x, path));
    } else {
        let (c, d) = choose|c: int, d: int|
            is_neighbor(cy, cx, c, d) && #[trigger] reaches_zero(b0, b, y, x, c, d);
        let path = choose|path: Seq<(int, int)>|
            #[trigger] zero_path(b0, b, y, x, path) && path.last() == (c, d);
        let path2 = path.push((cy, cx));
        assert(path2.drop_last() =~= path);
        assert(path2.last() == (cy, cx));
        assert(path2[path2.len() - 2] == path.last());
        assert(zero_path(b0, b, y, x, path2));
        assert(zero_path(b0, b, y, x, path2) && path2.last() == (cy, cx));
    }
}

/// The path predicate reads the starting board only through its reveal
/// state, so it carries over to any starting board with the same one.
proof fn lemma_zero_path_transfer(
    b0a: Seq<Vec<Tile>>,
    b0b: Seq<Vec<Tile>>,
    b: Seq<Vec<Tile>>,
    y: int,
    x: int,
    path: Seq<(int, int)>,
)
    requires
        same_dims(b0a, b0b),
        width_of(b0b) == width_of(b0a),
        revealed_unchanged(b0a, b0b),
        same_dims(b0b, b),
        width_of(b) == width_of(b0b),
        zero_path(b0b, b, y, x, path),
    ensures
        zero_path(b0a, b, y, x, path),
    decreases path.len(),
{
    let p = path.last().0;
    let q = path.last().1;
    assert(in_bounds(b0a, p, q));
    assert(!tile_at(b0a, p, q).revealed);
    if path.len() > 1 {
        lemma_zero_path_transfer(b0a, b0b, b, y, x, path.drop_last());
    }
}

/// Every coordinate waiting on the flood work stack: in bounds, mine-free,
/// and either the flood's target or adjacent to a zero tile of the region
/// grown from the target.
spec fn stack_entries_ok(
    b0: Seq<Vec<Tile>>,
    b: Seq<Vec<Tile>>,
    st: Seq<(usize, usize)>,
    y: int,
    x: int,
) -> bool {
    forall|p: int, q: int|
        #[trigger] on_stack(st, p, q) ==> in_bounds(b, p, q) && !tile_at(b, p, q).mine && ((p == y
            && q == x) || borders_flood_zero(b0, b, y, x, p, q))
}

/// Every newly revealed zero tile has each unflagged in-bounds neighbor
/// already revealed or still waiting on the work stack.
spec fn pending_complete(b0: Seq<Vec<Tile>>, b: Seq<Vec<Tile>>, st: Seq<(usize, usize)>) -> bool {
    forall|p: int, q: int|
        in_bounds(b, p, q) && (#[trigger] tile_at(b, p, q)).revealed && !tile_at(b0, p, q).revealed
            && tile_at(b, p, q).num == 0 ==> pulled_or_pending(b0, b, st, p, q)
}

spec fn pulled_or_pending(
    b0: Seq<Vec<Tile>>,
    b: Seq<Vec<Tile>>,
    st: Seq<(usize, usize)>,
    p: int,
    q: int,
) -> bool {
    forall|c: int, d: int|
        in_bounds(b, c, d) && is_neighbor(p, q, c, d) && !(#[trigger] tile_at(b0, c, d)).flagged
            ==> tile_at(b, c, d).revealed || on_stack(st, c, d)
}

/// Re-establishes every board-state invariant of the flood loop after one
/// tile at (cy, cx) goes from unrevealed to revealed.
#[verifier::rlimit(100)]
proof fn lemma_reveal_step(
    b0: Seq<Vec<Tile>>,
    prev: Seq<Vec<Tile>>,
    cur: Seq<Vec<Tile>>,
    y: int,
    x: int,
    cy: int,
    cx: int,
)
    requires
        wf(prev),
        counts_consistent(prev),
        same_dims(b0, prev),
        mines_unchanged(b0, prev),
        nums_unchanged(b0, prev),
        flags_unchanged(b0, prev),
        pos_unchanged(b0, prev),
        revealed_monotone(b0, prev),
        new_reveals_clean(b0, prev),
        flood_sound(b0, prev, y, x),
        in_bounds(prev, cy, cx),
        !tile_at(prev, cy, cx).revealed,
        !tile_at(prev, cy, cx).flagged,
        !tile_at(prev, cy, cx).mine,
        (cy == y && cx == x) || borders_flood_zero(b0, prev, y, x, cy, cx),
        same_dims(prev, cur),
        forall|p: int, q: int|
            in_bounds(prev, p, q) && !(p == cy && q == cx) ==> #[trigger] tile_at(cur, p, q)
                == tile_at(prev, p, q),
        tile_at(cur, cy, cx) == (Tile { revealed: true, ..tile_at(prev, cy, cx) }),
    ensures
        wf(cur),
        counts_consistent(cur),
        same_dims(b0, cur),
        mines_unchanged(b0, cur),
        nums_unchanged(b0, cur),
        flags_unchanged(b0, cur),
        pos_unchanged(b0, cur),
        revealed_monotone(b0, cur),
        new_reveals_clean(b0, cur),
        flood_sound(b0, cur, y, x),
        mines_unchanged(prev, cur),
        nums_unchanged(prev, cur),
        revealed_monotone(prev, cur),
        width_of(cur) == width_of(prev),
        forall|p: int, q: int|
            #[trigger] borders_flood_zero(b0, prev, y, x, p, q) ==> borders_flood_zero(
                b0,
                cur,
                y,
                x,
                p,
                q,
            ),
        tile_at(cur, cy, cx).revealed,
        !tile_at(b0, cy, cx).revealed,
        forall|p: int, q: int|
            in_bounds(cur, p, q) && (#[trigger] tile_at(cur, p, q)).revealed && !tile_at(
                prev,
                p,
                q,
            ).revealed ==> (p == cy && q == cx),
{
    assert(width_of(cur) == width_of(prev));
    assert forall|p: int, q: int| in_bounds(cur, p, q) implies adjacent_mines(cur, p, q)
        == adjacent_mines(prev, p, q) by {};
    lemma_flood_zone_monotone(b0, prev, cur, y, x);
    assert forall|p: int, q: int|
        in_bounds(cur, p, q) && (#[trigger] tile_at(cur, p, q)).revealed && !tile_at(
            b0,
            p,
            q,
        ).revealed && !(p == y && q == x) implies borders_flood_zero(b0, cur, y, x, p, q) by {
        if !(p == cy && q == cx) {
            assert(tile_at(prev, p, q).revealed);
            assert(borders_flood_zero(b0, prev, y, x, p, q));
        }
    }
}

/// Re-establishes the stack invariant of the flood loop: old entries are
/// lifted across the reveal step, new entries border the new zero tile.
proof fn lemma_stack_ok_after(
    b0: Seq<Vec<Tile>>,
    prev: Seq<Vec<Tile>>,
    cur: Seq<Vec<Tile>>,
    st_prev: Seq<(usize, usize)>,
    st_new: Seq<(usize, usize)>,
    y: int,
    x: int,
    cy: int,
    cx: int,
    zero: bool,
)
    requires
        stack_entries_ok(b0, prev, st_prev, y, x),
        same_dims(prev, cur),
        width_of(cur) == width_of(prev),
        mines_unchanged(prev, cur),
        forall|p: int, q: int|
            #[trigger] borders_flood_zero(b0, prev, y, x, p, q) ==> borders_flood_zero(
                b0,
                cur,
                y,
                x,
                p,
                q,
            ),
        forall|p: int, q: int|
            #[trigger] on_stack(st_new, p, q) ==> on_stack(st_prev, p, q) || (zero && in_bounds(
                cur,
                p,
                q,
            ) && is_neighbor(cy, cx, p, q)),
        zero ==> reaches_zero(b0, cur, y, x, cy, cx),
        zero ==> forall|c: int, d: int|
            in_bounds(cur, c, d) && is_neighbor(cy, cx, c, d) ==> !(#[trigger] tile_at(
                cur,
                c,
                d,
            )).mine,
    ensures
        stack_entries_ok(b0, cur, st_new, y, x),
{
    assert forall|p: int, q: int| #[trigger] on_stack(st_new, p, q) implies in_bounds(cur, p, q)
        && !tile_at(cur, p, q).mine && ((p == y && q == x) || borders_flood_zero(
        b0,
        cur,
        y,
        x,
        p,
        q,
    )) by {
        if on_stack(st_prev, p, q) {
            assert(in_bounds(prev, p, q));
            assert(in_bounds(cur, p, q));
            assert(!tile_at(cur, p, q).mine);
        } else {
            assert(zero && in_bounds(cur, p, q) && is_neighbor(cy, cx, p, q));
            assert(is_neighbor(p, q, cy, cx) && reaches_zero(b0, cur, y, x, cy, cx));
            assert(borders_flood_zero(b0, cur, y, x, p, q));
        }
    }
}

/// Re-establishes the pending-neighbor obligations of the flood loop after
/// one pop, an optional reveal at (cy, cx), and the pushes that follow it.
proof fn lemma_pending_after(
    b0: Seq<Vec<Tile>>,
    prev: Seq<Vec<Tile>>,
    cur: Seq<Vec<Tile>>,
    st_prev: Seq<(usize, usize)>,
    st_new: Seq<(usize, usize)>,
    cy: int,
    cx: int,
)
    requires
        pending_complete(b0, prev, st_prev),
        same_dims(prev, cur),
        width_of(cur) == width_of(prev),
        nums_unchanged(prev, cur),
        revealed_monotone(prev, cur),
        forall|p: int, q: int|
            #[trigger] on_stack(st_prev, p, q) ==> on_stack(st_new, p, q) || (p == cy && q == cx),
        tile_at(cur, cy, cx).revealed || tile_at(b0, cy, cx).flagged,
        forall|p: int, q: int|
            in_bounds(cur, p, q) && (#[trigger] tile_at(cur, p, q)).revealed && !tile_at(
                prev,
                p,
                q,
            ).revealed ==> (p == cy && q == cx),
        (tile_at(cur, cy, cx).revealed && !tile_at(prev, cy, cx).revealed && tile_at(
            cur,
            cy,
            cx,
        ).num == 0) ==> forall|c: int, d: int|
            in_bounds(cur, c, d) && is_neighbor(cy, cx, c, d) ==> #[trigger] on_stack(st_new, c, d),
    ensures
        pending_complete(b0, cur, st_new),
{
    assert forall|p: int, q: int|
        in_bounds(cur, p, q) && (#[trigger] tile_at(cur, p, q)).revealed && !tile_at(
            b0,
            p,
            q,
        ).revealed && tile_at(cur, p, q).num == 0 implies pulled_or_pending(
        b0,
        cur,
        st_new,
        p,
        q,
    ) by {
        assert(in_bounds(prev, p, q));
        if tile_at(prev, p, q).revealed {
            assert(tile_at(prev, p, q).num == 0);
            assert(pulled_or_pending(b0, prev, st_prev, p, q));
            assert forall|c: int, d: int|
                in_bounds(cur, c, d) && is_neighbor(p, q, c, d) && !(#[trigger] tile_at(
                    b0,
                    c,
                    d,
                )).flagged implies tile_at(cur, c, d).revealed || on_stack(st_new, c, d) by {
                if !tile_at(cur, c, d).revealed {
                    assert(in_bounds(prev, c, d));
                    assert(!tile_at(prev, c, d).revealed);
                    assert(on_stack(st_prev, c, d));
                    if c == cy && d == cx {
                        assert(tile_at(cur, cy, cx).revealed || tile_at(b0, cy, cx).flagged);
                        assert(false);
                    }
                }
            }
        } else {
            assert(p == cy && q == cx);
        }
    }
}

fn push_coord(stack: &mut Vec<(usize, usize)>, e: (usize, usize))
    ensures
        final(stack)@ == old(stack)@.push(e),
        forall|p: int, q: int|
            #[trigger] on_stack(old(stack)@, p, q) ==> on_stack(final(stack)@, p, q),
        on_stack(final(stack)@, e.0 as int, e.1 as int),
        forall|p: int, q: int|
            #[trigger] on_stack(final(stack)@, p, q) ==> on_stack(old(stack)@, p, q) || (p
                == e.0 as int && q == e.1 as int),
{
    proof {
        lemma_on_stack_push(stack@, e);
    }
    stack.push(e);
}

/// Pushes every in-bounds neighbor of (cy, cx) onto the work stack.
#[verifier::rlimit(100)]
fn push_neighbors(
    stack: &mut Vec<(usize, usize)>,
    cy: usize,
    cx: usize,
    height: usize,
    width: usize,
)
    requires
        cy < height,
        cx < width,
    ensures
        forall|p: int, q: int|
            #[trigger] on_stack(old(stack)@, p, q) ==> on_stack(final(stack)@, p, q),
        forall|p: int, q: int|
            #[trigger] on_stack(final(stack)@, p, q) ==> on_stack(old(stack)@, p, q) || (0 <= p
                < height && 0 <= q < width && is_neighbor(cy as int, cx as int, p, q)),
        forall|p: int, q: int|
            0 <= p < height && 0 <= q < width && is_neighbor(cy as int, cx as int, p, q)
                ==> #[trigger] on_stack(final(stack)@, p, q),
{
    if cy >= 1 {
        if cx >= 1 {
            push_coord(stack, (cy - 1, cx - 1));
        }
        push_coord(stack, (cy - 1, cx));
        if cx + 1 < width {
            push_coord(stack, (cy - 1, cx + 1));
        }
    }
    if cx >= 1 {
        push_coord(stack, (cy, cx - 1));
    }
    if cx + 1 < width {
        push_coord(stack, (cy, cx + 1));
    }
    if cy + 1 < height {
        if cx >= 1 {
            push_coord(stack, (cy + 1, cx - 1));
        }
        push_coord(stack, (cy + 1, cx));
        if cx + 1 < width {
            push_coord(stack, (cy + 1, cx + 1));
        }
    }
}

/// Reveals the valid, unrevealed, unflagged, mine-free tile at (cy, cx) and
/// reports whether it shows 0, re-establishing the flood loop's board
/// invariants relative to the board `b0` the flood started from.
#[verifier::rlimit(100)]
fn reveal_step(
    board: &mut MinesweeperBoard,
    cy: usize,
    cx: usize,
    Ghost(b0): Ghost<Seq<Vec<Tile>>>,
    Ghost(y): Ghost<int>,
    Ghost(x): Ghost<int>,
) -> (zero: bool)
    requires
        wf(old(board)@),
        counts_consistent(old(board)@),
        same_dims(b0, old(board)@),
        mines_unchanged(b0, old(board)@),
        nums_unchanged(b0, old(board)@),
        flags_unchanged(b0, old(board)@),
        pos_unchanged(b0, old(board)@),
        revealed_monotone(b0, old(board)@),
        new_reveals_clean(b0, old(board)@),
        flood_sound(b0, old(board)@, y, x),
        in_bounds(old(board)@, cy as int, cx as int),
        !tile_at(old(board)@, cy as int, cx as int).revealed,
        !tile_at(old(board)@, cy as int, cx as int).flagged,
        !tile_at(old(board)@, cy as int, cx as int).mine,
        (cy as int == y && cx as int == x) || borders_flood_zero(
            b0,
            old(board)@,
            y,
            x,
            cy as int,
            cx as int,
        ),
    ensures
        wf(final(board)@),
        counts_consistent(final(board)@),
        same_dims(b0, final(board)@),
        same_dims(old(board)@, final(board)@),
        width_of(final(board)@) == width_of(old(board)@),
        final(board)@.len() == old(board)@.len(),
        mines_unchanged(b0, final(board)@),
        nums_unchanged(b0, final(board)@),
        flags_unchanged(b0, final(board)@),
        pos_unchanged(b0, final(board)@),
        revealed_monotone(b0, final(board)@),
        new_reveals_clean(b0, final(board)@),
        flood_sound(b0, final(board)@, y, x),
        mines_unchanged(old(board)@, final(board)@),
        nums_unchanged(old(board)@, final(board)@),
        revealed_monotone(old(board)@, final(board)@),
        forall|p: int, q: int|
            #[trigger] borders_flood_zero(b0, old(board)@, y, x, p, q) ==> borders_flood_zero(
                b0,
                final(board)@,
                y,
                x,
                p,
                q,
            ),
        zero ==> reaches_zero(b0, final(board)@, y, x, cy as int, cx as int),
        forall|p: int, q: int|
            in_bounds(final(board)@, p, q) && (#[trigger] tile_at(final(board)@, p, q)).revealed
                && !tile_at(old(board)@, p, q).revealed ==> (p == cy as int && q == cx as int),
        tile_at(final(board)@, cy as int, cx as int).revealed,
        !tile_at(b0, cy as int, cx as int).revealed,
        cleared_count(final(board)@) == cleared_count(old(board)@) + 1,
        zero <==> tile_at(final(board)@, cy as int, cx as int).num == 0,
        zero ==> forall|c: int, d: int|
            in_bounds(final(board)@, c, d) && is_neighbor(cy as int, cx as int, c, d) ==> !(
            #[trigger] tile_at(final(board)@, c, d)).mine,
{
    let ghost prev = board@;
    let mut t = board[cy][cx];
    t.uncover();
    board[cy][cx] = t;

    proof {
        assert forall|p: int, q: int|
            in_bounds(prev, p, q) && !(p == cy as int && q == cx as int) implies #[trigger] tile_at(
            board@,
            p,
            q,
        ) == tile_at(prev, p, q) by {};
        lemma_cleared_count_update(prev, board@, cy as int, cx as int);
        lemma_reveal_step(b0, prev, board@, y, x, cy as int, cx as int);
    }

    let zero = board[cy][cx].get_num() == 0;
    proof {
        if zero {
            lemma_no_adjacent_mines(board@, cy as int, cx as int);
            lemma_reach_extend(b0, board@, y, x, cy as int, cx as int);
        }
    }
    zero
}

/// The zero-expansion flood fill, run on a valid, unrevealed, unflagged,
/// mine-free target with an explicit work stack in place of call recursion.
#[verifier::rlimit(100)]
fn flood_reveal(board: &mut MinesweeperBoard, y: usize, x: usize)
    requires
        wf(old(board)@),
        counts_consistent(old(board)@),
        in_bounds(old(board)@, y as int, x as int),
        !tile_at(old(board)@, y as int, x as int).revealed,
        !tile_at(old(board)@, y as int, x as int).flagged,
        !tile_at(old(board)@, y as int, x as int).mine,
    ensures
        wf(final(board)@),
        counts_consistent(final(board)@),
        same_dims(old(board)@, final(board)@),
        mines_unchanged(old(board)@, final(board)@),
        nums_unchanged(old(board)@, final(board)@),
        flags_unchanged(old(board)@, final(board)@),
        pos_unchanged(old(board)@, final(board)@),
        revealed_monotone(old(board)@, final(board)@),
        tile_at(final(board)@, y as int, x as int).revealed,
        new_reveals_clean(old(board)@, final(board)@),
        flood_sound(old(board)@, final(board)@, y as int, x as int),
        flood_complete(old(board)@, final(board)@),
{
    let height = board.len();
    let width = board[y].len();
    let mut stack: Vec<(usize, usize)> = Vec::new();
    push_coord(&mut stack, (y, x));

    while stack.len() > 0
        invariant
            wf(old(board)@),
            counts_consistent(old(board)@),
            in_bounds(old(board)@, y as int, x as int),
            !tile_at(old(board)@, y as int, x as int).flagged,
            !tile_at(old(board)@, y as int, x as int).mine,
            height == board@.len(),
            width as int == width_of(board@),
            wf(board@),
            counts_consistent(board@),
            same_dims(old(board)@, board@),
            mines_unchanged(old(board)@, board@),
            nums_unchanged(old(board)@, board@),
            flags_unchanged(old(board)@, board@),
            pos_unchanged(old(board)@, board@),
            revealed_monotone(old(board)@, board@),
            new_reveals_clean(old(board)@, board@),
            flood_sound(old(board)@, board@, y as int, x as int),
            stack_entries_ok(old(board)@, board@, stack@, y as int, x as int),
            pending_complete(old(board)@, board@, stack@),
            tile_at(board@, y as int, x as int).revealed || on_stack(stack@, y as int, x as int),
        decreases
            height_of(board@) * width_of(board@) - cleared_count(board@),
            stack@.len(),
    {
        proof {
            lemma_rows_cleared_bounds(board@, board@.len() as int);
        }
        let ghost prev = board@;
        let ghost prev_stack = stack@;
        proof {
            lemma_on_stack_pop(prev_stack);
        }
        let e = stack.pop().unwrap();
        let cy = e.0;
        let cx = e.1;
        assert(on_stack(prev_stack, cy as int, cx as int));
        assert(in_bounds(board@, cy as int, cx as int) && !tile_at(
            board@,
            cy as int,
            cx as int,
        ).mine);

        if !board[cy][cx].is_revealed() && !board[cy][cx].is_flagged() {
            let zero = reveal_step(
                board,
                cy,
                cx,
                Ghost(old(board)@),
                Ghost(y as int),
                Ghost(x as int),
            );
            proof {
                lemma_rows_cleared_bounds(board@, board@.len() as int);
            }
            if zero {
                push_neighbors(&mut stack, cy, cx, height, width);
                proof {
                    assert forall|p: int, q: int| #[trigger] on_stack(stack@, p, q) implies
                        on_stack(prev_stack, p, q) || (in_bounds(board@, p, q) && is_neighbor(
                        cy as int,
                        cx as int,
                        p,
                        q,
                    )) by {};
                    assert forall|p: int, q: int| #[trigger] on_stack(prev_stack, p, q) implies
                        on_stack(stack@, p, q) || (p == cy as int && q == cx as int) by {
                        if !(p == cy as int && q == cx as int) {
                            assert(on_stack(prev_stack.drop_last(), p, q));
                        }
                    };
                    assert forall|c: int, d: int|
                        in_bounds(board@, c, d) && is_neighbor(cy as int, cx as int, c, d) implies
                        #[trigger] on_stack(stack@, c, d) by {};
                    lemma_stack_ok_after(
                        old(board)@,
                        prev,
                        board@,
                        prev_stack,
                        stack@,
                        y as int,
                        x as int,
                        cy as int,
                        cx as int,
                        true,
                    );
                    lemma_pending_after(
                        old(board)@,
                        prev,
                        board@,
                        prev_stack,
                        stack@,
                        cy as int,
                        cx as int,
                    );
                }
            } else {
                proof {
                    assert forall|p: int, q: int| #[trigger] on_stack(stack@, p, q) implies
                        on_stack(prev_stack, p, q) || (false && in_bounds(board@, p, q)
                        && is_neighbor(cy as int, cx as int, p, q)) by {
                        assert(on_stack(prev_stack.drop_last(), p, q));
                    };
                    assert forall|p: int, q: int| #[trigger] on_stack(prev_stack, p, q) implies
                        on_stack(stack@, p, q) || (p == cy as int && q == cx as int) by {
                        if !(p == cy as int && q == cx as int) {
                            assert(on_stack(prev_stack.drop_last(), p, q));
                        }
                    };
                    lemma_stack_ok_after(
                        old(board)@,
                        prev,
                        board@,
                        prev_stack,
                        stack@,
                        y as int,
                        x as int,
                        cy as int,
                        cx as int,
                        false,
                    );
                    lemma_pending_after(
                        old(board)@,
                        prev,
                        board@,
                        prev_stack,
                        stack@,
                        cy as int,
                        cx as int,
                    );
                }
            }
        } else {
            proof {
                assert(tile_at(board@, cy as int, cx as int).revealed || tile_at(
                    old(board)@,
                    cy as int,
                    cx as int,
                ).flagged);
                assert forall|p: int, q: int| #[trigger] on_stack(prev_stack, p, q) implies
                    on_stack(stack@, p, q) || (p == cy as int && q == cx as int) by {
                    if !(p == cy as int && q == cx as int) {
                        assert(on_stack(prev_stack.drop_last(), p, q));
                    }
                };
                assert forall|p: int, q: int| #[trigger] on_stack(stack@, p, q) implies on_stack(
                    prev_stack,
                    p,
                    q,
                ) by {};
                lemma_pending_after(
                    old(board)@,
                    board@,
                    board@,
                    prev_stack,
                    stack@,
                    cy as int,
                    cx as int,
                );
            }
        }
        proof {
            if !tile_at(board@, y as int, x as int).revealed {
                assert(on_stack(prev_stack, y as int, x as int));
                assert(!(cy as int == y as int && cx as int == x as int));
                assert(on_stack(prev_stack.drop_last(), y as int, x as int));
            }
        }
    }
}

// ---------------------------------------------------------------------------
// First-click mine relocation
// ---------------------------------------------------------------------------

/// Some in-bounds cell other than (y, x) is free of mines.
pub open spec fn has_clean_spot(b: Seq<Vec<Tile>>, y: int, x: int) -> bool {
    exists|a: int, c: int|
        in_bounds(b, a, c) && !(a == y && c == x) && !(#[trigger] tile_at(b, a, c)).mine
}

/// (a, c) is the first cell in row-major order that holds no mine and is not
/// the clicked cell (y, x).
pub open spec fn relocation_spot(b: Seq<Vec<Tile>>, y: int, x: int, a: int, c: int) -> bool {
    &&& in_bounds(b, a, c)
    &&& !(a == y && c == x)
    &&& !tile_at(b, a, c).mine
    &&& forall|p: int, q: int|
        in_bounds(b, p, q) && !(p == y && q == x) && !(#[trigger] tile_at(b, p, q)).mine ==> a < p
            || (a == p && c <= q)
}

/// The mine set of `b2` is that of `b1` with the mine at (y, x) moved to (a, c).
pub open spec fn mine_moved(
    b1: Seq<Vec<Tile>>,
    b2: Seq<Vec<Tile>>,
    y: int,
    x: int,
    a: int,
    c: int,
) -> bool {
    forall|p: int, q: int|
        in_bounds(b1, p, q) ==> (#[trigger] tile_at(b2, p, q)).mine == (if p == a && q == c {
            true
        } else if p == y && q == x {
            false
        } else {
            tile_at(b1, p, q).mine
        })
}

/// Moves the mine under the first click to the first mine-free cell in
/// row-major order and recomputes every number; reports false, changing
/// nothing, when every other cell already holds a mine.
#[verifier::rlimit(100)]
fn relocate_mine(board: &mut MinesweeperBoard, y: usize, x: usize) -> (relocated: bool)
    requires
        wf(old(board)@),
        in_bounds(old(board)@, y as int, x as int),
        tile_at(old(board)@, y as int, x as int).mine,
    ensures
        wf(final(board)@),
        same_dims(old(board)@, final(board)@),
        flags_unchanged(old(board)@, final(board)@),
        revealed_unchanged(old(board)@, final(board)@),
        pos_unchanged(old(board)@, final(board)@),
        relocated <==> has_clean_spot(old(board)@, y as int, x as int),
        !relocated ==> boards_eq(old(board)@, final(board)@),
        relocated ==> {
            &&& !tile_at(final(board)@, y as int, x as int).mine
            &&& counts_consistent(final(board)@)
            &&& total_mines(final(board)@) == total_mines(old(board)@)
            &&& exists|a: int, c: int|
                #[trigger] relocation_spot(old(board)@, y as int, x as int, a, c) && mine_moved(
                    old(board)@,
                    final(board)@,
                    y as int,
                    x as int,
                    a,
                    c,
                )
        },
{
    let height = board.len();
    let mut a: usize = 0;
    while a < height
        invariant
            wf(old(board)@),
            in_bounds(old(board)@, y as int, x as int),
            tile_at(old(board)@, y as int, x as int).mine,
            board@ == old(board)@,
            height == board@.len(),
            a <= height,
            forall|p: int, q: int|
                in_bounds(board@, p, q) && p < a && !(p == y as int && q == x as int)
                    ==> (#[trigger] tile_at(board@, p, q)).mine,
        decreases height - a,
    {
        let width = board[a].len();
        let mut c: usize = 0;
        while c < width
            invariant
                wf(old(board)@),
                in_bounds(old(board)@, y as int, x as int),
                tile_at(old(board)@, y as int, x as int).mine,
                board@ == old(board)@,
                height == board@.len(),
                a < height,
                width == board@[a as int]@.len(),
                c <= width,
                forall|p: int, q: int|
                    in_bounds(board@, p, q) && p < a && !(p == y as int && q == x as int)
                        ==> (#[trigger] tile_at(board@, p, q)).mine,
                forall|q: int|
                    0 <= q < c && !(a as int == y as int && q == x as int) ==> (#[trigger] tile_at(
                        board@,
                        a as int,
                        q,
                    )).mine,
            decreases width - c,
        {
            if !board[a][c].has_mine() && !(a == y && c == x) {
                let ghost b_start = board@;
                let mut t1 = board[a][c];
                t1.set_mine(true);
                board[a][c] = t1;
                let ghost b_mid = board@;
                let mut t2 = board[y][x];
                t2.set_mine(false);
                board[y][x] = t2;
                proof {
                    lemma_total_mines_update(b_start, b_mid, a as int, c as int);
                    lemma_total_mines_update(b_mid, board@, y as int, x as int);
                    assert(relocation_spot(b_start, y as int, x as int, a as int, c as int));
                    assert(mine_moved(b_start, board@, y as int, x as int, a as int, c as int));
                }
                let ghost b_moved = board@;
                determine_tile_number(board);
                proof {
                    assert forall|p: int, q: int|
                        0 <= p < b_moved.len() && 0 <= q < b_moved[p]@.len() implies (
                    #[trigger] b_moved[p]@[q]).mine == board@[p]@[q].mine by {
                        assert(in_bounds(b_moved, p, q));
                        assert(tile_at(board@, p, q).mine == tile_at(b_moved, p, q).mine);
                    }
                    crate::grid::lemma_rows_mines_agree(b_moved, board@, board@.len() as int);
                    assert(mine_moved(b_start, board@, y as int, x as int, a as int, c as int));
                    assert(b_start == old(board)@);
                    assert(!tile_at(board@, y as int, x as int).mine);
                    assert(total_mines(b_mid) == total_mines(b_start) + 1);
                    assert(b_mid[y as int]@[x as int].mine);
                    assert(!b_moved[y as int]@[x as int].mine);
                    assert(total_mines(b_moved) == total_mines(b_mid) - 1);
                    assert(total_mines(b_moved) == total_mines(b_start));
                    assert(rows_mines(b_moved, b_moved.len() as int) == rows_mines(
                        board@,
                        board@.len() as int,
                    ));
                    assert(total_mines(board@) == total_mines(b_moved));
                    assert(total_mines(board@) == total_mines(old(board)@));
                    assert(relocation_spot(old(board)@, y as int, x as int, a as int, c as int));
                    assert(mine_moved(old(board)@, board@, y as int, x as int, a as int, c as int));
                    assert(exists|aa: int, cc: int|
                        #[trigger] relocation_spot(old(board)@, y as int, x as int, aa, cc)
                            && mine_moved(old(board)@, board@, y as int, x as int, aa, cc));
                    assert(has_clean_spot(old(board)@, y as int, x as int));
                }
                return true;
            }
            c = c + 1;
        }
        a = a + 1;
    }
    false
}

/// The three ways a reveal can be blocked without touching the board: the
/// target is out of bounds, already revealed, or flagged.
pub open spec fn reveal_target_valid(b: Seq<Vec<Tile>>, y: int, x: int) -> bool {
    in_bounds(b, y, x) && !tile_at(b, y, x).revealed && !tile_at(b, y, x).flagged
}

/// Carries the flood-fill postconditions from the board the flood actually
/// started on to an earlier board with the same reveal and flag state.
proof fn lemma_flood_preds_transfer(
    b0a: Seq<Vec<Tile>>,
    b0b: Seq<Vec<Tile>>,
    b: Seq<Vec<Tile>>,
    y: int,
    x: int,
)
    requires
        same_dims(b0a, b0b),
        revealed_unchanged(b0a, b0b),
        flags_unchanged(b0a, b0b),
        same_dims(b0b, b),
        flood_sound(b0b, b, y, x),
        flood_complete(b0b, b),
        new_reveals_clean(b0b, b),
    ensures
        flood_sound(b0a, b, y, x),
        flood_complete(b0a, b),
        new_reveals_clean(b0a, b),
{
    assert(width_of(b0b) == width_of(b0a));
    assert(width_of(b) == width_of(b0b));
    assert forall|p: int, q: int|
        in_bounds(b, p, q) && (#[trigger] tile_at(b, p, q)).revealed && !tile_at(
            b0a,
            p,
            q,
        ).revealed && !(p == y && q == x) implies borders_flood_zero(b0a, b, y, x, p, q) by {
        assert(!tile_at(b0b, p, q).revealed);
        assert(borders_flood_zero(b0b, b, y, x, p, q));
        let (c, d) = choose|c: int, d: int|
            is_neighbor(p, q, c, d) && #[trigger] reaches_zero(b0b, b, y, x, c, d);
        let path = choose|path: Seq<(int, int)>|
            #[trigger] zero_path(b0b, b, y, x, path) && path.last() == (c, d);
        lemma_zero_path_transfer(b0a, b0b, b, y, x, path);
        assert(zero_path(b0a, b, y, x, path) && path.last() == (c, d));
        assert(is_neighbor(p, q, c, d) && reaches_zero(b0a, b, y, x, c, d));
    }
    assert forall|p: int, q: int|
        in_bounds(b, p, q) && (#[trigger] tile_at(b, p, q)).revealed && !tile_at(
            b0a,
            p,
            q,
        ).revealed && tile_at(b, p, q).num == 0 implies neighbors_pulled(b0a, b, p, q) by {
        assert(!tile_at(b0b, p, q).revealed);
        assert(neighbors_pulled(b0b, b, p, q));
        assert forall|c: int, d: int|
            in_bounds(b, c, d) && is_neighbor(p, q, c, d) && !(#[trigger] tile_at(
                b0a,
                c,
                d,
            )).flagged implies tile_at(b, c, d).revealed by {
            assert(!tile_at(b0b, c, d).flagged);
        }
    }
}

/// Attempts to reveal the tile at column `x`, row `y`. Returns 2 (blocked)
/// on an out-of-bounds, already revealed, or flagged target; 1 (mine hit) on
/// a mined target outside the first click; 0 (continue) after a successful
/// reveal, flood-filling the connected zero region and, on a first-click
/// mine, relocating that mine first.
pub fn reveal_tile(board: &mut MinesweeperBoard, x: i32, y: i32, first_click: bool) -> (r: i32)
    requires
        wf(old(board)@),
        counts_consistent(old(board)@),
    ensures
        wf(final(board)@),
        counts_consistent(final(board)@),
        same_dims(old(board)@, final(board)@),
        flags_unchanged(old(board)@, final(board)@),
        pos_unchanged(old(board)@, final(board)@),
        revealed_monotone(old(board)@, final(board)@),
        r == 0 || r == 1 || r == 2,
        (r == 2) <==> !reveal_target_valid(old(board)@, y as int, x as int),
        (r == 1) <==> (reveal_target_valid(old(board)@, y as int, x as int) && tile_at(
            old(board)@,
            y as int,
            x as int,
        ).mine && !first_click),
        r == 1 || r == 2 ==> boards_eq(old(board)@, final(board)@),
        r == 0 ==> tile_at(final(board)@, y as int, x as int).revealed,
        r == 0 && !tile_at(old(board)@, y as int, x as int).mine ==> mines_unchanged(
            old(board)@,
            final(board)@,
        ) && nums_unchanged(old(board)@, final(board)@) && new_reveals_clean(
            old(board)@,
            final(board)@,
        ) && flood_sound(old(board)@, final(board)@, y as int, x as int) && flood_complete(
            old(board)@,
            final(board)@,
        ),
        r == 0 && tile_at(old(board)@, y as int, x as int).mine && has_clean_spot(
            old(board)@,
            y as int,
            x as int,
        ) ==> {
            &&& !tile_at(final(board)@, y as int, x as int).mine
            &&& total_mines(final(board)@) == total_mines(old(board)@)
            &&& exists|a: int, c: int|
                #[trigger] relocation_spot(old(board)@, y as int, x as int, a, c) && mine_moved(
                    old(board)@,
                    final(board)@,
                    y as int,
                    x as int,
                    a,
                    c,
                )
            &&& new_reveals_clean(old(board)@, final(board)@)
            &&& flood_sound(old(board)@, final(board)@, y as int, x as int)
            &&& flood_complete(old(board)@, final(board)@)
        },
        r == 0 && tile_at(old(board)@, y as int, x as int).mine && !has_clean_spot(
            old(board)@,
            y as int,
            x as int,
        ) ==> {
            &&& mines_unchanged(old(board)@, final(board)@)
            &&& nums_unchanged(old(board)@, final(board)@)
            &&& tile_at(final(board)@, y as int, x as int) == (Tile {
                revealed: true,
                ..tile_at(old(board)@, y as int, x as int)
            })
            &&& forall|p: int, q: int|
                in_bounds(old(board)@, p, q) && !(p == y as int && q == x as int)
                    ==> #[trigger] tile_at(final(board)@, p, q) == tile_at(old(board)@, p, q)
        },
{
    if y < 0 || x < 0 || y as usize >= board.len() {
        return 2;
    }
    let yu = y as usize;
    let xu = x as usize;
    if xu >= board[yu].len() {
        return 2;
    }
    if board[yu][xu].is_revealed() || board[yu][xu].is_flagged() {
        return 2;
    }
    if board[yu][xu].has_mine() && !first_click {
        return 1;
    }

    if board[yu][xu].has_mine() {
        let relocated = relocate_mine(board, yu, xu);
        if !relocated {
            // every other cell holds a mine: reveal the clicked tile alone
            let ghost prev = board@;
            let mut t = board[yu][xu];
            t.uncover();
            board[yu][xu] = t;
            proof {
                assert forall|p: int, q: int|
                    in_bounds(prev, p, q) && !(p == yu as int && q == xu as int) implies
                    #[trigger] tile_at(board@, p, q) == tile_at(prev, p, q) by {};
                assert(tile_at(board@, yu as int, xu as int) == (Tile {
                    revealed: true,
                    ..tile_at(prev, yu as int, xu as int)
                }));
                assert forall|p: int, q: int| in_bounds(board@, p, q) implies adjacent_mines(
                    board@,
                    p,
                    q,
                ) == adjacent_mines(prev, p, q) by {};
                assert(counts_consistent(board@));
            }
            return 0;
        }
        let ghost b1 = board@;
        flood_reveal(board, yu, xu);
        proof {
            lemma_flood_preds_transfer(old(board)@, b1, board@, yu as int, xu as int);
            assert forall|p: int, q: int|
                0 <= p < b1.len() && 0 <= q < b1[p]@.len() implies (#[trigger] b1[p]@[q]).mine
                    == board@[p]@[q].mine by {
                assert(in_bounds(b1, p, q));
                assert(tile_at(board@, p, q).mine == tile_at(b1, p, q).mine);
            }
            crate::grid::lemma_rows_mines_agree(b1, board@, board@.len() as int);
        }
        return 0;
    }

    flood_reveal(board, yu, xu);
    0
}

// ---------------------------------------------------------------------------
// Chording
// ---------------------------------------------------------------------------

/// The neighbors of (x, y) as (column, row) pairs, in the order a chord
/// attempts to reveal them.
pub open spec fn chord_nbr(x: int, y: int, k: int) -> (int, int) {
    if k == 0 {
        (x - 1, y - 1)
    } else if k == 1 {
        (x + 1, y - 1)
    } else if k == 2 {
        (x, y - 1)
    } else if k == 3 {
        (x - 1, y + 1)
    } else if k == 4 {
        (x + 1, y + 1)
    } else if k == 5 {
        (x, y + 1)
    } else if k == 6 {
        (x - 1, y)
    } else {
        (x + 1, y)
    }
}

/// Revealing column `cx`, row `cy` would hit a mine: an in-bounds,
/// unflagged, unrevealed tile holding one.
pub open spec fn chord_fatal(b: Seq<Vec<Tile>>, cx: int, cy: int) -> bool {
    in_bounds(b, cy, cx) && !tile_at(b, cy, cx).flagged && !tile_at(b, cy, cx).revealed && tile_at(
        b,
        cy,
        cx,
    ).mine
}

/// The first position at or after `k` in the chord order whose reveal would
/// hit a mine; 8 when none would.
pub open spec fn first_fatal_from(b: Seq<Vec<Tile>>, x: int, y: int, k: int) -> int
    decreases 8 - k,
{
    if k < 0 || k >= 8 {
        8
    } else if chord_fatal(b, chord_nbr(x, y, k).0, chord_nbr(x, y, k).1) {
        k
    } else {
        first_fatal_from(b, x, y, k + 1)
    }
}

proof fn lemma_first_fatal(b: Seq<Vec<Tile>>, x: int, y: int, k: int)
    requires
        0 <= k <= 8,
    ensures
        k <= first_fatal_from(b, x, y, k) <= 8,
        forall|j: int|
            k <= j < first_fatal_from(b, x, y, k) ==> !chord_fatal(
                b,
                (#[trigger] chord_nbr(x, y, j)).0,
                chord_nbr(x, y, j).1,
            ),
        first_fatal_from(b, x, y, k) < 8 ==> chord_fatal(
            b,
            chord_nbr(x, y, first_fatal_from(b, x, y, k)).0,
            chord_nbr(x, y, first_fatal_from(b, x, y, k)).1,
        ),
    decreases 8 - k,
{
    if k < 8 && !chord_fatal(b, chord_nbr(x, y, k).0, chord_nbr(x, y, k).1) {
        lemma_first_fatal(b, x, y, k + 1);
    }
}

/// Chains "newly revealed tiles are clean" across two successive steps.
proof fn lemma_clean_trans(b0: Seq<Vec<Tile>>, b1: Seq<Vec<Tile>>, b2: Seq<Vec<Tile>>)
    requires
        same_dims(b0, b1),
        same_dims(b1, b2),
        new_reveals_clean(b0, b1),
        new_reveals_clean(b1, b2),
        mines_unchanged(b1, b2),
        flags_unchanged(b0, b1),
    ensures
        new_reveals_clean(b0, b2),
{
    assert forall|p: int, q: int|
        in_bounds(b2, p, q) && (#[trigger] tile_at(b2, p, q)).revealed && !tile_at(
            b0,
            p,
            q,
        ).revealed implies !tile_at(b2, p, q).mine && !tile_at(b0, p, q).flagged by {
        assert(in_bounds(b1, p, q));
        if tile_at(b1, p, q).revealed {
            assert(!tile_at(b1, p, q).mine && !tile_at(b0, p, q).flagged);
        } else {
            assert(!tile_at(b2, p, q).mine && !tile_at(b1, p, q).flagged);
        }
    }
}

/// Two boards that agree tile for tile see the same first fatal chord entry.
pub proof fn lemma_first_fatal_agree(
    b1: Seq<Vec<Tile>>,
    b2: Seq<Vec<Tile>>,
    x: int,
    y: int,
    k: int,
)
    requires
        0 <= k <= 8,
        same_dims(b1, b2),
        width_of(b2) == width_of(b1),
        forall|p: int, q: int|
            in_bounds(b1, p, q) ==> #[trigger] tile_at(b2, p, q) == tile_at(b1, p, q),
    ensures
        first_fatal_from(b1, x, y, k) == first_fatal_from(b2, x, y, k),
    decreases 8 - k,
{
    if k < 8 {
        let cx = chord_nbr(x, y, k).0;
        let cy = chord_nbr(x, y, k).1;
        assert(chord_fatal(b1, cx, cy) == chord_fatal(b2, cx, cy));
        lemma_first_fatal_agree(b1, b2, x, y, k + 1);
    }
}

fn chord_offset(x: i32, y: i32, k: usize) -> (r: (i32, i32))
    requires
        k < 8,
        0 <= x < i32::MAX,
        0 <= y < i32::MAX,
    ensures
        (r.0 as int, r.1 as int) == chord_nbr(x as int, y as int, k as int),
{
    match k {
        0 => (x - 1, y - 1),
        1 => (x + 1, y - 1),
        2 => (x, y - 1),
        3 => (x - 1, y + 1),
        4 => (x + 1, y + 1),
        5 => (x, y + 1),
        6 => (x - 1, y),
        _ => (x + 1, y),
    }
}

/// Counts the flags among the up to 8 neighbors of row `yu`, column `xu`.
fn count_adjacent_flags(board: &MinesweeperBoard, yu: usize, xu: usize) -> (r: i32)
    requires
        wf(board@),
        in_bounds(board@, yu as int, xu as int),
    ensures
        r == adjacent_flags(board@, yu as int, xu as int),
{
    let height = board.len();
    let width = board[yu].len();
    let mut num_flagged: i32 = 0;
    if yu >= 1 {
        if xu >= 1 && board[yu - 1][xu - 1].is_flagged() {
            num_flagged = num_flagged + 1;
        }
        if xu + 1 < width && board[yu - 1][xu + 1].is_flagged() {
            num_flagged = num_flagged + 1;
        }
        if board[yu - 1][xu].is_flagged() {
            num_flagged = num_flagged + 1;
        }
    }
    if yu + 1 < height {
        if xu >= 1 && board[yu + 1][xu - 1].is_flagged() {
            num_flagged = num_flagged + 1;
        }
        if xu + 1 < width && board[yu + 1][xu + 1].is_flagged() {
            num_flagged = num_flagged + 1;
        }
        if board[yu + 1][xu].is_flagged() {
            num_flagged = num_flagged + 1;
        }
    }
    if xu >= 1 && board[yu][xu - 1].is_flagged() {
        num_flagged = num_flagged + 1;
    }
    if xu + 1 < width && board[yu][xu + 1].is_flagged() {
        num_flagged = num_flagged + 1;
    }
    num_flagged
}

/// Chords the numbered tile at column `x`, row `y`: when the count of
/// flagged neighbors equals the tile's number, attempts to reveal every
/// neighbor in a fixed order, stopping at the first mine hit and reporting
/// that neighbor's [column, row]. Reports Err([-1, -1]) on an out-of-bounds
/// or zero-numbered target, Ok(false) when the flag count does not match,
/// and Ok(true) when every reveal went through.
#[verifier::rlimit(100)]
pub fn cord_tile(board: &mut MinesweeperBoard, x: i32, y: i32) -> (r: Result<bool, [i32; 2]>)
    requires
        wf(old(board)@),
        counts_consistent(old(board)@),
    ensures
        wf(final(board)@),
        counts_consistent(final(board)@),
        same_dims(old(board)@, final(board)@),
        mines_unchanged(old(board)@, final(board)@),
        nums_unchanged(old(board)@, final(board)@),
        flags_unchanged(old(board)@, final(board)@),
        pos_unchanged(old(board)@, final(board)@),
        revealed_monotone(old(board)@, final(board)@),
        new_reveals_clean(old(board)@, final(board)@),
        (!in_bounds(old(board)@, y as int, x as int) || tile_at(
            old(board)@,
            y as int,
            x as int,
        ).num == 0) ==> (r matches Err(e) && e[0] == -1 && e[1] == -1) && boards_eq(
            old(board)@,
            final(board)@,
        ),
        in_bounds(old(board)@, y as int, x as int) && tile_at(old(board)@, y as int, x as int).num
            != 0 ==> {
            let fatal = first_fatal_from(old(board)@, x as int, y as int, 0);
            &&& (adjacent_flags(old(board)@, y as int, x as int) != tile_at(
                old(board)@,
                y as int,
                x as int,
            ).num ==> (r matches Ok(b) && b == false) && boards_eq(old(board)@, final(board)@))
            &&& (adjacent_flags(old(board)@, y as int, x as int) == tile_at(
                old(board)@,
                y as int,
                x as int,
            ).num ==> {
                &&& (fatal == 8 ==> (r matches Ok(b) && b == true) && neighbors_pulled(
                    old(board)@,
                    final(board)@,
                    y as int,
                    x as int,
                ))
                &&& (fatal < 8 ==> (r matches Err(e) && e[0] as int == chord_nbr(
                    x as int,
                    y as int,
                    fatal,
                ).0 && e[1] as int == chord_nbr(x as int, y as int, fatal).1) && chord_fatal(
                    old(board)@,
                    chord_nbr(x as int, y as int, fatal).0,
                    chord_nbr(x as int, y as int, fatal).1,
                ) && tile_at(
                    final(board)@,
                    chord_nbr(x as int, y as int, fatal).1,
                    chord_nbr(x as int, y as int, fatal).0,
                ).mine && !tile_at(
                    final(board)@,
                    chord_nbr(x as int, y as int, fatal).1,
                    chord_nbr(x as int, y as int, fatal).0,
                ).revealed && (forall|j: int|
                    0 <= j < fatal && in_bounds(
                        old(board)@,
                        (#[trigger] chord_nbr(x as int, y as int, j)).1,
                        chord_nbr(x as int, y as int, j).0,
                    ) && !tile_at(
                        old(board)@,
                        chord_nbr(x as int, y as int, j).1,
                        chord_nbr(x as int, y as int, j).0,
                    ).flagged ==> tile_at(
                        final(board)@,
                        chord_nbr(x as int, y as int, j).1,
                        chord_nbr(x as int, y as int, j).0,
                    ).revealed))
            })
        },
{
    let height = board.len();
    if y < 0 || x < 0 || y as usize >= height {
        return Err([-1, -1]);
    }
    let yu = y as usize;
    let xu = x as usize;
    if xu >= board[yu].len() {
        return Err([-1, -1]);
    }
    if board[yu][xu].get_num() == 0 {
        return Err([-1, -1]);
    }

    let num_flagged = count_adjacent_flags(board, yu, xu);

    if num_flagged != board[yu][xu].get_num() {
        return Ok(false);
    }

    let ghost kf = first_fatal_from(old(board)@, x as int, y as int, 0);
    proof {
        lemma_first_fatal(old(board)@, x as int, y as int, 0);
    }

    let mut k: usize = 0;
    while k < 8
        invariant
            wf(old(board)@),
            counts_consistent(old(board)@),
            in_bounds(old(board)@, y as int, x as int),
            tile_at(old(board)@, y as int, x as int).num != 0,
            adjacent_flags(old(board)@, y as int, x as int) == tile_at(
                old(board)@,
                y as int,
                x as int,
            ).num,
            0 <= y && y < i32::MAX,
            0 <= x && x < i32::MAX,
            k <= 8,
            k as int <= kf,
            kf == first_fatal_from(old(board)@, x as int, y as int, 0),
            kf <= 8,
            forall|j: int|
                0 <= j < kf ==> !chord_fatal(
                    old(board)@,
                    (#[trigger] chord_nbr(x as int, y as int, j)).0,
                    chord_nbr(x as int, y as int, j).1,
                ),
            kf < 8 ==> chord_fatal(
                old(board)@,
                chord_nbr(x as int, y as int, kf).0,
                chord_nbr(x as int, y as int, kf).1,
            ),
            wf(board@),
            counts_consistent(board@),
            same_dims(old(board)@, board@),
            mines_unchanged(old(board)@, board@),
            nums_unchanged(old(board)@, board@),
            flags_unchanged(old(board)@, board@),
            pos_unchanged(old(board)@, board@),
            revealed_monotone(old(board)@, board@),
            new_reveals_clean(old(board)@, board@),
            forall|j: int|
                0 <= j < k && in_bounds(
                    old(board)@,
                    (#[trigger] chord_nbr(x as int, y as int, j)).1,
                    chord_nbr(x as int, y as int, j).0,
                ) && !tile_at(
                    old(board)@,
                    chord_nbr(x as int, y as int, j).1,
                    chord_nbr(x as int, y as int, j).0,
                ).flagged ==> tile_at(
                    board@,
                    chord_nbr(x as int, y as int, j).1,
                    chord_nbr(x as int, y as int, j).0,
                ).revealed,
        decreases 8 - k,
    {
        let (nx, ny) = chord_offset(x, y, k);
        let ghost pre = board@;
        let res = reveal_tile(board, nx, ny, false);
        proof {
            // a mine hit here matches exactly a fatal entry in the original board
            if chord_fatal(old(board)@, nx as int, ny as int) {
                assert(in_bounds(pre, ny as int, nx as int));
                assert(tile_at(pre, ny as int, nx as int).mine);
                assert(!tile_at(pre, ny as int, nx as int).flagged);
                if tile_at(pre, ny as int, nx as int).revealed {
                    assert(!tile_at(pre, ny as int, nx as int).mine);
                }
                assert(res == 1);
            }
            if res == 1 {
                assert(!tile_at(pre, ny as int, nx as int).revealed);
                assert(!tile_at(old(board)@, ny as int, nx as int).revealed);
                assert(chord_fatal(old(board)@, nx as int, ny as int));
            }
            lemma_clean_trans(old(board)@, pre, board@);
        }
        if res == 1 {
            proof {
                assert(kf == k as int);
                assert(tile_at(board@, ny as int, nx as int).mine);
                if tile_at(board@, ny as int, nx as int).revealed {
                    assert(!tile_at(board@, ny as int, nx as int).mine);
                }
            }
            return Err([nx, ny]);
        }
        proof {
            assert(!chord_fatal(old(board)@, nx as int, ny as int));
            if kf == k as int {
                assert(chord_fatal(
                    old(board)@,
                    chord_nbr(x as int, y as int, kf).0,
                    chord_nbr(x as int, y as int, kf).1,
                ));
            }
            // an unflagged in-bounds neighbor is revealed now
            if in_bounds(old(board)@, ny as int, nx as int) && !tile_at(
                old(board)@,
                ny as int,
                nx as int,
            ).flagged {
                if res == 2 {
                    assert(tile_at(pre, ny as int, nx as int).revealed || tile_at(
                        pre,
                        ny as int,
                        nx as int,
                    ).flagged);
                    assert(tile_at(board@, ny as int, nx as int).revealed);
                } else {
                    assert(res == 0);
                    assert(tile_at(board@, ny as int, nx as int).revealed);
                }
            }
        }
        k = k + 1;
    }

    proof {
        assert(kf == 8);
        assert forall|c: int, d: int|
            in_bounds(board@, c, d) && is_neighbor(y as int, x as int, c, d) && !(
            #[trigger] tile_at(old(board)@, c, d)).flagged implies tile_at(
            board@,
            c,
            d,
        ).revealed by {
            assert(chord_nbr(x as int, y as int, 0) == (x - 1, y - 1));
            assert(chord_nbr(x as int, y as int, 1) == (x + 1, y - 1));
            assert(chord_nbr(x as int, y as int, 2) == (x as int, y - 1));
            assert(chord_nbr(x as int, y as int, 3) == (x - 1, y + 1));
            assert(chord_nbr(x as int, y as int, 4) == (x + 1, y + 1));
            assert(chord_nbr(x as int, y as int, 5) == (x as int, y + 1));
            assert(chord_nbr(x as int, y as int, 6) == (x - 1, y as int));
            assert(chord_nbr(x as int, y as int, 7) == (x + 1, y as int));
        }
    }
    Ok(true)
}

// ---------------------------------------------------------------------------
// Board construction
// ---------------------------------------------------------------------------

/// How many mines a board of h x w cells actually receives when m are asked
/// for: placement is capped by the number of cells, and a negative request
/// places none.
pub open spec fn clamped_mines(h: int, w: int, m: int) -> int {
    if m < 0 {
        0
    } else if m <= h * w {
        m
    } else {
        h * w
    }
}

/// Relies on rand::Rng::gen_range on rand::thread_rng: returns a uniformly
/// random value inside the given non-empty range. Panics on an empty range,
/// which the precondition rules out.
#[verifier::external_body]
fn sample_range(lo: usize, hi: usize) -> (r: usize)
    requires
        lo < hi,
    ensures
        lo <= r < hi,
{
    rand::Rng::gen_range(&mut rand::thread_rng(), lo..hi)
}

/// Builds a fresh height x width board: every tile unrevealed and unflagged
/// with its coordinates stamped, `mine_count` mines (capped by the cell
/// count) placed by a uniformly random partial shuffle of the cells, and
/// every number computed from the placement.
#[verifier::rlimit(100)]
pub fn build_minesweeper_board(height: i32, width: i32, mine_count: i32) -> (board:
    MinesweeperBoard)
    requires
        0 <= height,
        0 <= width,
        height as int * width as int <= i32::MAX,
    ensures
        wf(board@),
        board@.len() == height as int,
        height > 0 ==> width_of(board@) == width as int,
        counts_consistent(board@),
        forall|p: int, q: int|
            in_bounds(board@, p, q) ==> !(#[trigger] tile_at(board@, p, q)).revealed && !tile_at(
                board@,
                p,
                q,
            ).flagged,
        forall|p: int, q: int|
            in_bounds(board@, p, q) ==> (#[trigger] tile_at(board@, p, q)).pos[0] == p && tile_at(
                board@,
                p,
                q,
            ).pos[1] == q,
        total_mines(board@) == clamped_mines(height as int, width as int, mine_count as int),
{
    let hu = height as usize;
    let wu = width as usize;

    // the empty board, each tile stamped with its coordinates
    let mut board: MinesweeperBoard = Vec::new();
    let mut i: usize = 0;
    while i < hu
        invariant
            hu == height as int,
            wu == width as int,
            height as int * width as int <= i32::MAX,
            i <= hu,
            board@.len() == i,
            forall|p: int| 0 <= p < i ==> (#[trigger] board@[p])@.len() == wu,
            forall|p: int, q: int|
                0 <= p < i && 0 <= q < wu ==> {
                    let t = #[trigger] board@[p]@[q];
                    !t.mine && !t.revealed && !t.flagged && t.num == 0 && t.pos[0] == p && t.pos[1]
                        == q
                },
        decreases hu - i,
    {
        let mut row: Vec<Tile> = Vec::new();
        let mut j: usize = 0;
        while j < wu
            invariant
                hu == height as int,
                wu == width as int,
                height as int * width as int <= i32::MAX,
                i < hu,
                j <= wu,
                row@.len() == j,
                forall|q: int|
                    0 <= q < j ==> {
                        let t = #[trigger] row@[q];
                        !t.mine && !t.revealed && !t.flagged && t.num == 0 && t.pos[0] == i && t.pos[1]
                            == q
                    },
            decreases wu - j,
        {
            let mut t = Tile::empty();
            t.set_pos([i as i32, j as i32]);
            row.push(t);
            j = j + 1;
        }
        board.push(row);
        i = i + 1;
    }

    // all cell coordinates, as (row, column) pairs
    let mut cells: Vec<(usize, usize)> = Vec::new();
    let mut a: usize = 0;
    while a < hu
        invariant
            a <= hu,
            cells@.len() == a * wu,
            forall|t: int|
                0 <= t < cells@.len() ==> (#[trigger] cells@[t]).0 < a && cells@[t].1 < wu,
            forall|t1: int, t2: int|
                #![trigger cells@[t1], cells@[t2]]
                0 <= t1 < t2 < cells@.len() ==> cells@[t1] != cells@[t2],
        decreases hu - a,
    {
        let mut b: usize = 0;
        while b < wu
            invariant
                a < hu,
                b <= wu,
                cells@.len() == a * wu + b,
                forall|t: int|
                    0 <= t < cells@.len() ==> ((#[trigger] cells@[t]).0 < a || (cells@[t].0 == a
                        && cells@[t].1 < b)) && cells@[t].1 < wu,
                forall|t1: int, t2: int|
                    #![trigger cells@[t1], cells@[t2]]
                    0 <= t1 < t2 < cells@.len() ==> cells@[t1] != cells@[t2],
            decreases wu - b,
        {
            cells.push((a, b));
            b = b + 1;
        }
        proof {
            assert(a * wu + wu == (a + 1) * wu) by (nonlinear_arith);
        }
        a = a + 1;
    }
    let total = cells.len();
    proof {
        assert(total == hu * wu);
    }

    let m: usize = if mine_count < 0 {
        0
    } else if (mine_count as usize) <= total {
        mine_count as usize
    } else {
        total
    };

    // partial shuffle: after step k, the first k cells are a uniformly random
    // sample without replacement
    let mut k: usize = 0;
    while k < m
        invariant
            m <= total,
            k <= m,
            cells@.len() == total,
            forall|t: int| 0 <= t < cells@.len() ==> (#[trigger] cells@[t]).0 < hu && cells@[t].1 < wu,
            forall|t1: int, t2: int|
                #![trigger cells@[t1], cells@[t2]]
                0 <= t1 < t2 < cells@.len() ==> cells@[t1] != cells@[t2],
        decreases m - k,
    {
        let j = sample_range(k, total);
        let ca = cells[k];
        let cb = cells[j];
        cells[k] = cb;
        cells[j] = ca;
        k = k + 1;
    }

    proof {
        crate::grid::lemma_rows_mines_zero(board@, board@.len() as int);
    }

    // place a mine on each of the first m sampled cells
    let mut k: usize = 0;
    while k < m
        invariant
            m <= total,
            k <= m,
            cells@.len() == total,
            hu == height as int,
            wu == width as int,
            forall|t: int| 0 <= t < cells@.len() ==> (#[trigger] cells@[t]).0 < hu && cells@[t].1 < wu,
            forall|t1: int, t2: int|
                #![trigger cells@[t1], cells@[t2]]
                0 <= t1 < t2 < cells@.len() ==> cells@[t1] != cells@[t2],
            board@.len() == hu,
            forall|p: int| 0 <= p < hu ==> (#[trigger] board@[p])@.len() == wu,
            forall|p: int, q: int|
                0 <= p < hu && 0 <= q < wu ==> {
                    let t = #[trigger] board@[p]@[q];
                    !t.revealed && !t.flagged && t.num == 0 && t.pos[0] == p && t.pos[1] == q
                },
            forall|p: int, q: int|
                0 <= p < hu && 0 <= q < wu ==> ((#[trigger] board@[p]@[q]).mine <==> exists|t: int|
                    0 <= t < k && (#[trigger] cells@[t]) == (p as usize, q as usize)),
            total_mines(board@) == k,
        decreases m - k,
    {
        let (cy, cx) = cells[k];
        let ghost prev = board@;
        proof {
            if board@[cy as int]@[cx as int].mine {
                let t = choose|t: int|
                    0 <= t < k && (#[trigger] cells@[t]) == (cy as usize, cx as usize);
                assert(cells@[t] == cells@[k as int]);
                assert(false);
            }
        }
        let mut t = board[cy][cx];
        t.set_mine(true);
        board[cy][cx] = t;
        proof {
            lemma_total_mines_update(prev, board@, cy as int, cx as int);
            assert(cells@[k as int] == (cy, cx));
            assert forall|p: int, q: int| 0 <= p < hu && 0 <= q < wu implies ((#[trigger] board@[p]@[q]).mine
                <==> exists|t: int|
                0 <= t < k + 1 && (#[trigger] cells@[t]) == (p as usize, q as usize)) by {
                if p == cy as int && q == cx as int {
                    assert(cells@[k as int] == (p as usize, q as usize));
                } else {
                    assert(board@[p]@[q] == prev[p]@[q]);
                    if exists|t: int| 0 <= t < k + 1 && (#[trigger] cells@[t]) == (
                        p as usize,
                        q as usize,
                    ) {
                        let t = choose|t: int|
                            0 <= t < k + 1 && (#[trigger] cells@[t]) == (p as usize, q as usize);
                        assert(t != k as int);
                    }
                }
            }
        }
        k = k + 1;
    }

    let ghost b_mined = board@;
    determine_tile_number(&mut board);
    proof {
        assert forall|p: int, q: int|
            0 <= p < b_mined.len() && 0 <= q < b_mined[p]@.len() implies (
        #[trigger] b_mined[p]@[q]).mine == board@[p]@[q].mine by {
            assert(in_bounds(b_mined, p, q));
            assert(tile_at(board@, p, q).mine == tile_at(b_mined, p, q).mine);
        }
        crate::grid::lemma_rows_mines_agree(b_mined, board@, board@.len() as int);
        assert(total_mines(board@) == m as int);
        assert(m as int == clamped_mines(height as int, width as int, mine_count as int));
    }
    board
}

} // verus!
