//! The board, its cells, the side to move and board coordinates.
use vstd::prelude::*;

verus! {

/// The content of one cell.
#[derive(Debug, Copy, Clone, PartialEq, Eq, Structural)]
pub enum Stone {
    Empty,
    Black,
    White,
}

/// The side to move.
#[derive(Debug, Copy, Clone, PartialEq, Eq, Structural)]
pub enum Turn {
    Black,
    White,
}

pub type Player = Turn;

/// A cell coordinate; `Move::new` only builds coordinates inside the board.
#[derive(Debug, Copy, Clone, PartialEq, Eq, Structural)]
pub struct Move {
    pub x: usize,
    pub y: usize,
}

/// The board: one stone per cell, row after row, and the number of stones
/// played so far. The side to move is derived from the parity of that count,
/// so it can never disagree with it.
#[derive(Debug, Copy, Clone)]
pub struct Board {
    v: [Stone; 225],
    ply: u32,
}

/// The mathematical content of a board.
pub struct BoardModel {
    pub cells: Seq<Stone>,
    pub ply: nat,
}

pub open spec fn turn_of_ply(ply: nat) -> Turn {
    if ply % 2 == 0 {
        Turn::Black
    } else {
        Turn::White
    }
}

impl Turn {
    pub open spec fn next_spec(self) -> Turn {
        match self {
            Turn::Black => Turn::White,
            Turn::White => Turn::Black,
        }
    }

    pub open spec fn stone_spec(self) -> Stone {
        match self {
            Turn::Black => Stone::Black,
            Turn::White => Stone::White,
        }
    }

    /// The other side.
    pub fn next(&self) -> (r: Self)
        ensures
            r == self.next_spec(),
    {
        match self {
            Turn::Black => Turn::White,
            Turn::White => Turn::Black,
        }
    }

    /// The stone this side places.
    pub fn to_stone(&self) -> (r: Stone)
        ensures
            r == self.stone_spec(),
    {
        match self {
            Turn::Black => Stone::Black,
            Turn::White => Stone::White,
        }
    }
}

impl Move {
    /// Both coordinates lie on the board.
    pub open spec fn wf(self) -> bool {
        self.x < 15 && self.y < 15
    }

    /// Position of the cell in row-major order.
    pub open spec fn index(self) -> int {
        self.y as int * 15 + self.x as int
    }

    /// The move at a row-major cell position.
    pub open spec fn at_index(i: int) -> Move {
        Move { x: (i % 15) as usize, y: (i / 15) as usize }
    }

    /// The coordinate `(x, y)`, or `None` when it lies off the board.
    pub fn new(x: usize, y: usize) -> (r: Option<Self>)
        ensures
            r == (if x < 15 && y < 15 {
                Some(Move { x, y })
            } else {
                None
            }),
    {
        if x >= 15 || y >= 15 {
            return None;
        }
        Some(Self { x, y })
    }

    /// The coordinate `(x - dx, y - dy)`, or `None` when it lies off the board.
    pub fn shift(&self, dx: i32, dy: i32) -> (r: Option<Self>)
        requires
            self.wf(),
        ensures
            r == (if 0 <= self.x - dx < 15 && 0 <= self.y - dy < 15 {
                Some(Move { x: (self.x - dx) as usize, y: (self.y - dy) as usize })
            } else {
                None
            }),
    {
        let x: i64 = self.x as i64 - dx as i64;
        let y: i64 = self.y as i64 - dy as i64;
        if x < 0 || y < 0 || x >= 15 || y >= 15 {
            return None;
        }
        Some(Self { x: x as usize, y: y as usize })
    }
}

impl BoardModel {
    pub open spec fn wf(self) -> bool {
        self.cells.len() == 225
    }

    pub open spec fn turn(self) -> Turn {
        turn_of_ply(self.ply)
    }

    /// The stone at a coordinate.
    pub open spec fn at(self, mv: Move) -> Stone {
        self.cells[mv.index()]
    }

    /// The stone at a coordinate given as integers; off the board it reads
    /// as `None`.
    pub open spec fn at_xy(self, x: int, y: int) -> Option<Stone> {
        if 0 <= x < 15 && 0 <= y < 15 {
            Some(self.cells[y * 15 + x])
        } else {
            None
        }
    }

    /// The board after `stone` is put at `mv` and the turn passes.
    pub open spec fn placed(self, mv: Move, stone: Stone) -> BoardModel {
        BoardModel { cells: self.cells.update(mv.index(), stone), ply: self.ply + 1 }
    }

    /// The board after the stone at `mv` is taken back and the turn returns.
    pub open spec fn removed(self, mv: Move) -> BoardModel {
        BoardModel { cells: self.cells.update(mv.index(), Stone::Empty), ply: (self.ply - 1) as nat }
    }

    /// No cell is empty.
    pub open spec fn is_full(self) -> bool {
        forall|i: int| 0 <= i < 225 ==> self.cells[i] != Stone::Empty
    }
}

impl View for Board {
    type V = BoardModel;

    closed spec fn view(&self) -> BoardModel {
        BoardModel { cells: self.v@, ply: self.ply as nat }
    }
}

/// Every board holds exactly one stone per cell.
pub broadcast proof fn lemma_board_wf(b: &Board)
    ensures
        (#[trigger] b@).wf(),
{
    assert(b.v@.len() == 225);
}

impl Board {
    /// The empty board, Black to move.
    pub fn blank() -> (r: Self)
        ensures
            r@.ply == 0,
            forall|i: int| 0 <= i < 225 ==> r@.cells[i] == Stone::Empty,
    {
        Self { v: [Stone::Empty; 225], ply: 0 }
    }

    /// The stone at `mv`.
    pub fn get(&self, mv: Move) -> (r: Stone)
        requires
            mv.wf(),
        ensures
            r == self@.at(mv),
    {
        self.v[mv.y * 15 + mv.x]
    }

    /// The side to move: Black after an even number of stones.
    pub fn turn(&self) -> (r: Turn)
        ensures
            r == self@.turn(),
    {
        if self.ply % 2 == 0 {
            Turn::Black
        } else {
            Turn::White
        }
    }

    /// Number of stones played so far.
    pub fn ply(&self) -> (r: u32)
        ensures
            r as nat == self@.ply,
    {
        self.ply
    }

    /// Puts `stone` at `mv` without any rule check and passes the turn.
    pub fn put_force(&mut self, mv: Move, stone: Stone)
        requires
            mv.wf(),
            old(self)@.ply < u32::MAX,
        ensures
            final(self)@ == old(self)@.placed(mv, stone),
    {
        self.ply = self.ply + 1;
        self.v[mv.y * 15 + mv.x] = stone;
        assert(self.v@ =~= old(self).v@.update(mv.index(), stone));
    }

    /// Takes back the stone at `mv` and returns the turn: the inverse of
    /// `put_force` on a cell that was empty.
    pub fn undo(&mut self, mv: Move)
        requires
            mv.wf(),
            old(self)@.ply > 0,
        ensures
            final(self)@ == old(self)@.removed(mv),
    {
        self.ply = self.ply - 1;
        self.v[mv.y * 15 + mv.x] = Stone::Empty;
        assert(self.v@ =~= old(self).v@.update(mv.index(), Stone::Empty));
    }
}

/// Putting a stone on an empty cell and taking it back restores every cell,
/// the side to move and the stone count.
pub proof fn lemma_put_undo(b: BoardModel, mv: Move, stone: Stone)
    requires
        b.wf(),
        mv.wf(),
        b.at(mv) == Stone::Empty,
    ensures
        b.placed(mv, stone).removed(mv) == b,
        b.placed(mv, stone).removed(mv).turn() == b.turn(),
{
    assert(b.placed(mv, stone).removed(mv).cells =~= b.cells);
}

} // verus!
