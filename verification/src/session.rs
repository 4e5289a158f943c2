//! The game session: derived state over one board — mine budget, win/loss
//! result, first-click tracking, elapsed time — with every action gated once
//! the game has ended.

use vstd::prelude::*;
use crate::tile::Tile;
use crate::engine::{
    build_minesweeper_board, chord_fatal, chord_nbr, clamped_mines, cord_tile, first_fatal_from,
    flag_spec_tile, flag_tile, flood_complete, flood_sound, has_clean_spot, neighbors_pulled,
    new_reveals_clean, reveal_target_valid, reveal_tile, MinesweeperBoard,
};
use crate::grid::{
    adjacent_flags, boards_eq, cleared_count, counts_consistent, flags_unchanged, height_of,
    in_bounds, lemma_row_cleared_bounds, lemma_rows_cleared_bounds, mines_unchanged,
    nums_unchanged, pos_unchanged, revealed_monotone, row_cleared, rows_cleared, tile_at,
    total_mines, wf, width_of,
};

verus! {

#[derive(Copy, Clone, PartialEq, Eq, Structural, Debug)]
pub enum GameResult {
    InProgress,
    Lost,
    Won,
}

/// One game in play: the board plus the session bookkeeping layered over it.
pub struct Game {
    pub board: MinesweeperBoard,
    pub height: i32,
    pub width: i32,
    pub start_mine_count: i32,
    pub current_mine_count: i32,
    pub tiles_to_win: i32,
    pub game_result: GameResult,
    pub hit_mine: [i32; 2],
    pub first_click: bool,
    pub elapsed_ticks: u64,
}

impl Game {
    /// The session invariant: a well-formed, consistently numbered board
    /// whose dimensions match the stored ones, and the win threshold fixed
    /// at cells minus starting mines.
    pub open spec fn wf_game(self) -> bool {
        &&& wf(self.board@)
        &&& counts_consistent(self.board@)
        &&& self.height as int == height_of(self.board@)
        &&& self.width as int == width_of(self.board@)
        &&& self.height > 0
        &&& self.width > 0
        &&& 0 <= self.start_mine_count
        &&& self.tiles_to_win as int == self.height as int * self.width as int
            - self.start_mine_count as int
    }

    /// Starts a session over a freshly built board.
    pub fn new(board: MinesweeperBoard, mine_count: i32) -> (g: Game)
        requires
            wf(board@),
            counts_consistent(board@),
            board@.len() > 0,
            width_of(board@) > 0,
            0 <= mine_count,
        ensures
            g.wf_game(),
            g.board@ == board@,
            g.start_mine_count == mine_count,
            g.current_mine_count == mine_count,
            g.game_result == GameResult::InProgress,
            g.first_click,
            g.elapsed_ticks == 0,
            g.tiles_to_win as int == height_of(board@) * width_of(board@) - mine_count,
    {
        let height = board.len() as i32;
        let width = board[0].len() as i32;
        let tiles_to_win = height * width - mine_count;
        Game {
            board,
            height,
            width,
            start_mine_count: mine_count,
            current_mine_count: mine_count,
            tiles_to_win,
            game_result: GameResult::InProgress,
            hit_mine: [-1, -1],
            first_click: true,
            elapsed_ticks: 0,
        }
    }

    /// A left click on column `x`, row `y`: reveals the tile (with the
    /// first-click guarantee on the session's first reveal), falls back to a
    /// chord on an already revealed numbered tile, and ends the game on any
    /// mine hit, recording where it happened. Suppressed once the game is
    /// over.
    #[verifier::rlimit(100)]
    pub fn reveal_at(&mut self, x: i32, y: i32)
        requires
            old(self).wf_game(),
        ensures
            final(self).wf_game(),
            old(self).game_result != GameResult::InProgress ==> *final(self) == *old(self),
            final(self).height == old(self).height && final(self).width == old(self).width
                && final(self).start_mine_count == old(self).start_mine_count
                && final(self).tiles_to_win == old(self).tiles_to_win
                && final(self).current_mine_count == old(self).current_mine_count
                && final(self).elapsed_ticks == old(self).elapsed_ticks,
            final(self).game_result == GameResult::InProgress || final(self).game_result
                == GameResult::Lost || final(self).game_result == old(self).game_result,
            old(self).game_result == GameResult::InProgress ==> !final(self).first_click,
            // a reveal that hits a mine loses at once, recording the click
            old(self).game_result == GameResult::InProgress && reveal_target_valid(
                old(self).board@,
                y as int,
                x as int,
            ) && tile_at(old(self).board@, y as int, x as int).mine && !old(self).first_click ==> {
                &&& final(self).game_result == GameResult::Lost
                &&& final(self).hit_mine[0] == x
                &&& final(self).hit_mine[1] == y
                &&& boards_eq(old(self).board@, final(self).board@)
            },
            // a reveal that goes through leaves the game running and the
            // board related to the old one as the engine's reveal promises
            old(self).game_result == GameResult::InProgress && reveal_target_valid(
                old(self).board@,
                y as int,
                x as int,
            ) && (!tile_at(old(self).board@, y as int, x as int).mine || old(self).first_click)
                ==> {
                &&& final(self).game_result == old(self).game_result
                &&& final(self).hit_mine == old(self).hit_mine
                &&& tile_at(final(self).board@, y as int, x as int).revealed
                &&& flags_unchanged(old(self).board@, final(self).board@)
                &&& pos_unchanged(old(self).board@, final(self).board@)
                &&& revealed_monotone(old(self).board@, final(self).board@)
                &&& (!tile_at(old(self).board@, y as int, x as int).mine ==> mines_unchanged(
                    old(self).board@,
                    final(self).board@,
                ) && nums_unchanged(old(self).board@, final(self).board@) && new_reveals_clean(
                    old(self).board@,
                    final(self).board@,
                ) && flood_sound(old(self).board@, final(self).board@, y as int, x as int)
                    && flood_complete(old(self).board@, final(self).board@))
                &&& (tile_at(old(self).board@, y as int, x as int).mine && has_clean_spot(
                    old(self).board@,
                    y as int,
                    x as int,
                ) ==> !tile_at(final(self).board@, y as int, x as int).mine && total_mines(
                    final(self).board@,
                ) == total_mines(old(self).board@) && new_reveals_clean(
                    old(self).board@,
                    final(self).board@,
                ) && flood_sound(old(self).board@, final(self).board@, y as int, x as int)
                    && flood_complete(old(self).board@, final(self).board@))
            },
            // a blocked click on a revealed numbered tile falls back to a
            // chord, losing exactly when the chord reports a mine hit
            old(self).game_result == GameResult::InProgress && !reveal_target_valid(
                old(self).board@,
                y as int,
                x as int,
            ) && in_bounds(old(self).board@, y as int, x as int) && tile_at(
                old(self).board@,
                y as int,
                x as int,
            ).num != 0 && tile_at(old(self).board@, y as int, x as int).revealed ==> {
                let fatal = first_fatal_from(old(self).board@, x as int, y as int, 0);
                &&& mines_unchanged(old(self).board@, final(self).board@)
                &&& nums_unchanged(old(self).board@, final(self).board@)
                &&& flags_unchanged(old(self).board@, final(self).board@)
                &&& pos_unchanged(old(self).board@, final(self).board@)
                &&& revealed_monotone(old(self).board@, final(self).board@)
                &&& new_reveals_clean(old(self).board@, final(self).board@)
                &&& (adjacent_flags(old(self).board@, y as int, x as int) != tile_at(
                    old(self).board@,
                    y as int,
                    x as int,
                ).num ==> boards_eq(old(self).board@, final(self).board@) && final(self).game_result == old(self).game_result && final(self).hit_mine == old(self).hit_mine)
                &&& (adjacent_flags(old(self).board@, y as int, x as int) == tile_at(
                    old(self).board@,
                    y as int,
                    x as int,
                ).num && fatal == 8 ==> final(self).game_result == old(self).game_result && final(self).hit_mine == old(self).hit_mine && neighbors_pulled(
                    old(self).board@,
                    final(self).board@,
                    y as int,
                    x as int,
                ))
                &&& (adjacent_flags(old(self).board@, y as int, x as int) == tile_at(
                    old(self).board@,
                    y as int,
                    x as int,
                ).num && fatal < 8 ==> final(self).game_result == GameResult::Lost && final(self).hit_mine[0] as int == chord_nbr(x as int, y as int, fatal).0 && final(self).hit_mine[1] as int == chord_nbr(x as int, y as int, fatal).1 && chord_fatal(
                    old(self).board@,
                    chord_nbr(x as int, y as int, fatal).0,
                    chord_nbr(x as int, y as int, fatal).1,
                ) && !tile_at(
                    final(self).board@,
                    chord_nbr(x as int, y as int, fatal).1,
                    chord_nbr(x as int, y as int, fatal).0,
                ).revealed)
            },
            // any other blocked click changes nothing but the first-click flag
            old(self).game_result == GameResult::InProgress && !reveal_target_valid(
                old(self).board@,
                y as int,
                x as int,
            ) && !(in_bounds(old(self).board@, y as int, x as int) && tile_at(
                old(self).board@,
                y as int,
                x as int,
            ).num != 0 && tile_at(old(self).board@, y as int, x as int).revealed) ==> boards_eq(
                old(self).board@,
                final(self).board@,
            ) && final(self).game_result == old(self).game_result && final(self).hit_mine == old(self).hit_mine,
    {
        if !matches!(self.game_result, GameResult::InProgress) {
            return ;
        }
        let r = reveal_tile(&mut self.board, x, y, self.first_click);
        if r == 1 {
            self.hit_mine = [x, y];
            self.game_result = GameResult::Lost;
        } else if r == 2 {
            if y >= 0 && y < self.height && x >= 0 && x < self.width {
                assert(in_bounds(old(self).board@, y as int, x as int));
                assert(tile_at(self.board@, y as int, x as int) == tile_at(
                    old(self).board@,
                    y as int,
                    x as int,
                ));
                if self.board[y as usize][x as usize].get_num() != 0
                    && self.board[y as usize][x as usize].is_revealed() {
                    let ghost pre = self.board@;
                    proof {
                        assert(boards_eq(old(self).board@, pre));
                    }
                    match cord_tile(&mut self.board, x, y) {
                        Ok(_triggered) => {},
                        Err(c) => {
                            if !(c[0] == -1 && c[1] == -1) {
                                self.hit_mine = c;
                                self.game_result = GameResult::Lost;
                            }
                        },
                    }
                    proof {
                        crate::engine::lemma_first_fatal_agree(
                            old(self).board@,
                            pre,
                            x as int,
                            y as int,
                            0,
                        );
                        assert(adjacent_flags(old(self).board@, y as int, x as int)
                            == adjacent_flags(pre, y as int, x as int));
                        assert forall|p: int, q: int|
                            in_bounds(self.board@, p, q) && (#[trigger] tile_at(
                                self.board@,
                                p,
                                q,
                            )).revealed && !tile_at(old(self).board@, p, q).revealed implies
                            !tile_at(self.board@, p, q).mine && !tile_at(
                            old(self).board@,
                            p,
                            q,
                        ).flagged by {
                            assert(tile_at(pre, p, q) == tile_at(old(self).board@, p, q));
                        };
                        assert forall|c2: int, d2: int|
                            in_bounds(self.board@, c2, d2) && crate::grid::is_neighbor(
                                y as int,
                                x as int,
                                c2,
                                d2,
                            ) && !(#[trigger] tile_at(old(self).board@, c2, d2)).flagged
                            && neighbors_pulled(pre, self.board@, y as int, x as int) implies
                            tile_at(self.board@, c2, d2).revealed by {
                            assert(tile_at(pre, c2, d2) == tile_at(old(self).board@, c2, d2));
                        };
                    }
                }
            }
        }
        self.first_click = false;
    }

    /// A flag toggle on column `x`, row `y`, adjusting the advisory mine
    /// budget; suppressed once the game is over, and skipped at the budget
    /// counter's extremes.
    #[verifier::rlimit(100)]
    pub fn flag_at(&mut self, x: i32, y: i32)
        requires
            old(self).wf_game(),
        ensures
            final(self).wf_game(),
            old(self).game_result != GameResult::InProgress ==> *final(self) == *old(self),
            final(self).height == old(self).height && final(self).width == old(self).width
                && final(self).start_mine_count == old(self).start_mine_count
                && final(self).tiles_to_win == old(self).tiles_to_win
                && final(self).game_result == old(self).game_result
                && final(self).first_click == old(self).first_click
                && final(self).hit_mine == old(self).hit_mine
                && final(self).elapsed_ticks == old(self).elapsed_ticks,
            old(self).game_result == GameResult::InProgress && !(i32::MIN
                < old(self).current_mine_count < i32::MAX) ==> *final(self) == *old(self),
            (old(self).game_result == GameResult::InProgress && i32::MIN
                < old(self).current_mine_count < i32::MAX && !in_bounds(
                old(self).board@,
                y as int,
                x as int,
            )) ==> boards_eq(old(self).board@, final(self).board@) && final(self).current_mine_count
                == old(self).current_mine_count,
            (old(self).game_result == GameResult::InProgress && i32::MIN
                < old(self).current_mine_count < i32::MAX && in_bounds(
                old(self).board@,
                y as int,
                x as int,
            )) ==> {
                &&& tile_at(final(self).board@, y as int, x as int) == flag_spec_tile(
                    tile_at(old(self).board@, y as int, x as int),
                    old(self).current_mine_count as int,
                ).0
                &&& final(self).current_mine_count as int == flag_spec_tile(
                    tile_at(old(self).board@, y as int, x as int),
                    old(self).current_mine_count as int,
                ).1
                &&& forall|p: int, q: int|
                    in_bounds(old(self).board@, p, q) && !(p == y as int && q == x as int)
                        ==> #[trigger] tile_at(final(self).board@, p, q) == tile_at(
                        old(self).board@,
                        p,
                        q,
                    )
            },
    {
        if !matches!(self.game_result, GameResult::InProgress) {
            return ;
        }
        if self.current_mine_count > i32::MIN && self.current_mine_count < i32::MAX {
            self.current_mine_count = flag_tile(&mut self.board, x, y, self.current_mine_count);
        }
    }

    /// Win detection, run after each action: once every non-mine tile is
    /// revealed, the result becomes Won and every tile is flagged as an
    /// end-of-game marker, whatever its flag was before.
    #[verifier::rlimit(100)]
    pub fn check_win(&mut self)
        requires
            old(self).wf_game(),
        ensures
            final(self).wf_game(),
            final(self).height == old(self).height && final(self).width == old(self).width
                && final(self).start_mine_count == old(self).start_mine_count
                && final(self).tiles_to_win == old(self).tiles_to_win
                && final(self).current_mine_count == old(self).current_mine_count
                && final(self).first_click == old(self).first_click
                && final(self).hit_mine == old(self).hit_mine
                && final(self).elapsed_ticks == old(self).elapsed_ticks,
            mines_unchanged(old(self).board@, final(self).board@),
            nums_unchanged(old(self).board@, final(self).board@),
            crate::grid::revealed_unchanged(old(self).board@, final(self).board@),
            pos_unchanged(old(self).board@, final(self).board@),
            cleared_count(old(self).board@) == old(self).tiles_to_win ==> final(self).game_result
                == GameResult::Won && forall|p: int, q: int|
                in_bounds(final(self).board@, p, q) ==> (#[trigger] tile_at(
                    final(self).board@,
                    p,
                    q,
                )).flagged,
            cleared_count(old(self).board@) != old(self).tiles_to_win ==> *final(self) == *old(
                self,
            ),
    {
        let height = self.height as usize;
        let width = self.width as usize;
        let mut revealed_tiles: i32 = 0;
        let mut j: usize = 0;
        while j < height
            invariant
                old(self).wf_game(),
                *self == *old(self),
                height == height_of(self.board@),
                width == width_of(self.board@),
                j <= height,
                revealed_tiles == rows_cleared(self.board@, j as int),
            decreases height - j,
        {
            let mut i: usize = 0;
            while i < width
                invariant
                    old(self).wf_game(),
                    *self == *old(self),
                    height == height_of(self.board@),
                    width == width_of(self.board@),
                    j < height,
                    i <= width,
                    revealed_tiles == rows_cleared(self.board@, j as int) + row_cleared(
                        self.board@[j as int]@,
                        i as int,
                    ),
                decreases width - i,
            {
                proof {
                    lemma_rows_cleared_bounds(self.board@, j as int);
                    lemma_row_cleared_bounds(self.board@[j as int]@, i as int);
                    assert(j as int * width as int + i < height as int * width as int)
                        by (nonlinear_arith)
                        requires
                            0 <= j < height as int,
                            0 <= i < width as int,
                    ;
                    assert(revealed_tiles < i32::MAX);
                }
                if !self.board[j][i].has_mine() && self.board[j][i].is_revealed() {
                    revealed_tiles = revealed_tiles + 1;
                }
                i = i + 1;
            }
            j = j + 1;
        }
        assert(revealed_tiles == cleared_count(self.board@));

        if self.tiles_to_win == revealed_tiles {
            let mut j: usize = 0;
            while j < height
                invariant
                    wf(self.board@),
                    counts_consistent(self.board@),
                    height == height_of(self.board@),
                    width == width_of(self.board@),
                    height == height_of(old(self).board@),
                    width == width_of(old(self).board@),
                    j <= height,
                    self.height == old(self).height && self.width == old(self).width
                        && self.start_mine_count == old(self).start_mine_count
                        && self.tiles_to_win == old(self).tiles_to_win
                        && self.current_mine_count == old(self).current_mine_count
                        && self.first_click == old(self).first_click && self.hit_mine == old(
                        self,
                    ).hit_mine && self.elapsed_ticks == old(self).elapsed_ticks
                        && self.game_result == old(self).game_result,
                    mines_unchanged(old(self).board@, self.board@),
                    nums_unchanged(old(self).board@, self.board@),
                    crate::grid::revealed_unchanged(old(self).board@, self.board@),
                    pos_unchanged(old(self).board@, self.board@),
                    forall|p: int, q: int|
                        in_bounds(self.board@, p, q) && p < j ==> (#[trigger] tile_at(
                            self.board@,
                            p,
                            q,
                        )).flagged,
                decreases height - j,
            {
                let mut i: usize = 0;
                while i < width
                    invariant
                        wf(self.board@),
                        counts_consistent(self.board@),
                        height == height_of(self.board@),
                        width == width_of(self.board@),
                        height == height_of(old(self).board@),
                        width == width_of(old(self).board@),
                        j < height,
                        i <= width,
                        self.height == old(self).height && self.width == old(self).width
                            && self.start_mine_count == old(self).start_mine_count
                            && self.tiles_to_win == old(self).tiles_to_win
                            && self.current_mine_count == old(self).current_mine_count
                            && self.first_click == old(self).first_click && self.hit_mine == old(
                            self,
                        ).hit_mine && self.elapsed_ticks == old(self).elapsed_ticks
                            && self.game_result == old(self).game_result,
                        mines_unchanged(old(self).board@, self.board@),
                        nums_unchanged(old(self).board@, self.board@),
                        crate::grid::revealed_unchanged(old(self).board@, self.board@),
                        pos_unchanged(old(self).board@, self.board@),
                        forall|p: int, q: int|
                            in_bounds(self.board@, p, q) && (p < j || (p == j && q < i)) ==> (
                            #[trigger] tile_at(self.board@, p, q)).flagged,
                    decreases width - i,
                {
                    let ghost prev = self.board@;
                    let mut t = self.board[j][i];
                    t.set_flagged(true);
                    self.board[j][i] = t;
                    proof {
                        assert forall|p: int, q: int|
                            in_bounds(prev, p, q) && !(p == j as int && q == i as int) implies
                            #[trigger] tile_at(self.board@, p, q) == tile_at(prev, p, q) by {};
                        assert(tile_at(self.board@, j as int, i as int) == (Tile {
                            flagged: true,
                            ..tile_at(prev, j as int, i as int)
                        }));
                        assert forall|p: int, q: int| in_bounds(self.board@, p, q) implies
                            crate::grid::adjacent_mines(self.board@, p, q)
                                == crate::grid::adjacent_mines(prev, p, q) by {};
                        assert(counts_consistent(self.board@));
                        assert forall|p: int, q: int|
                            in_bounds(old(self).board@, p, q) implies {
                            let t = #[trigger] tile_at(self.board@, p, q);
                            t.num == tile_at(old(self).board@, p, q).num && t.mine == tile_at(
                                old(self).board@,
                                p,
                                q,
                            ).mine && t.revealed == tile_at(old(self).board@, p, q).revealed
                                && t.pos == tile_at(old(self).board@, p, q).pos
                        } by {
                            assert(in_bounds(prev, p, q));
                            if !(p == j as int && q == i as int) {
                                assert(tile_at(self.board@, p, q) == tile_at(prev, p, q));
                            }
                        };
                    }
                    i = i + 1;
                }
                j = j + 1;
            }
            self.game_result = GameResult::Won;
        }
    }

    /// Adds wall-clock ticks to the elapsed counter, but only while a game
    /// is running and the first move has been made; saturates at the top.
    pub fn add_time(&mut self, ticks: u64)
        requires
            old(self).wf_game(),
        ensures
            final(self).wf_game(),
            *final(self) == (Game { elapsed_ticks: final(self).elapsed_ticks, ..*old(self) }),
            old(self).game_result == GameResult::InProgress && !old(self).first_click ==> final(self).elapsed_ticks as int == if old(self).elapsed_ticks + ticks <= u64::MAX {
                old(self).elapsed_ticks + ticks
            } else {
                u64::MAX as int
            },
            !(old(self).game_result == GameResult::InProgress && !old(self).first_click) ==> final(self).elapsed_ticks == old(self).elapsed_ticks,
    {
        if matches!(self.game_result, GameResult::InProgress) && !self.first_click {
            if self.elapsed_ticks <= u64::MAX - ticks {
                self.elapsed_ticks = self.elapsed_ticks + ticks;
            } else {
                self.elapsed_ticks = u64::MAX;
            }
        }
    }

    /// Rebuilds the board from the stored dimensions and starting mine count
    /// and resets every derived field to its initial value.
    pub fn reset(&mut self)
        requires
            old(self).wf_game(),
        ensures
            final(self).wf_game(),
            final(self).height == old(self).height && final(self).width == old(self).width
                && final(self).start_mine_count == old(self).start_mine_count,
            final(self).game_result == GameResult::InProgress,
            final(self).first_click,
            final(self).elapsed_ticks == 0,
            final(self).current_mine_count == old(self).start_mine_count,
            forall|p: int, q: int|
                in_bounds(final(self).board@, p, q) ==> !(#[trigger] tile_at(
                    final(self).board@,
                    p,
                    q,
                )).revealed && !tile_at(final(self).board@, p, q).flagged,
            crate::grid::total_mines(final(self).board@) == clamped_mines(
                old(self).height as int,
                old(self).width as int,
                old(self).start_mine_count as int,
            ),
    {
        self.game_result = GameResult::InProgress;
        self.elapsed_ticks = 0;
        self.first_click = true;
        self.current_mine_count = self.start_mine_count;
        self.hit_mine = [-1, -1];
        self.board = build_minesweeper_board(self.height, self.width, self.start_mine_count);
    }
}

} // verus!
