use vstd::prelude::*;

verus! {

/// One grid cell: whether it hides a mine, the count of mines among its up
/// to 8 neighbors (left at 0 for mine tiles), flag and reveal state, and the
/// cell's own coordinates, stored as `[row, column]`.
#[derive(Copy, Clone)]
pub struct Tile {
    pub mine: bool,
    pub num: i32,
    pub flagged: bool,
    pub revealed: bool,
    pub pos: [i32; 2],
}

impl Tile {
    /// A default tile: no mine, count 0, unflagged, unrevealed, at [0, 0].
    pub fn empty() -> (t: Tile)
        ensures
            !t.mine,
            t.num == 0,
            !t.flagged,
            !t.revealed,
            t.pos[0] == 0,
            t.pos[1] == 0,
    {
        Tile { mine: false, num: 0, flagged: false, revealed: false, pos: [0, 0] }
    }

    /// A tile with every field given.
    pub fn new(mine: bool, num: i32, flagged: bool, revealed: bool, pos: [i32; 2]) -> (t: Tile)
        ensures
            t.mine == mine,
            t.num == num,
            t.flagged == flagged,
            t.revealed == revealed,
            t.pos == pos,
    {
        Tile { mine, num, flagged, revealed, pos }
    }

    pub fn set_mine(&mut self, mine: bool)
        ensures
            *final(self) == (Tile { mine, ..*old(self) }),
    {
        self.mine = mine;
    }

    pub fn set_num(&mut self, num: i32)
        ensures
            *final(self) == (Tile { num, ..*old(self) }),
    {
        self.num = num;
    }

    pub fn set_flagged(&mut self, flagged: bool)
        ensures
            *final(self) == (Tile { flagged, ..*old(self) }),
    {
        self.flagged = flagged;
    }

    /// Marks the tile revealed; a no-op on an already revealed tile.
    pub fn uncover(&mut self)
        ensures
            *final(self) == (Tile { revealed: true, ..*old(self) }),
    {
        if !self.revealed {
            self.revealed = true;
        }
    }

    pub fn set_pos(&mut self, pos: [i32; 2])
        ensures
            *final(self) == (Tile { pos, ..*old(self) }),
    {
        self.pos = pos;
    }

    pub fn has_mine(&self) -> (r: bool)
        ensures
            r == self.mine,
    {
        self.mine
    }

    pub fn get_num(&self) -> (r: i32)
        ensures
            r == self.num,
    {
        self.num
    }

    pub fn is_flagged(&self) -> (r: bool)
        ensures
            r == self.flagged,
    {
        self.flagged
    }

    pub fn is_revealed(&self) -> (r: bool)
        ensures
            r == self.revealed,
    {
        self.revealed
    }

    pub fn get_pos(&self) -> (r: [i32; 2])
        ensures
            r == self.pos,
    {
        self.pos
    }
}

} // verus!
