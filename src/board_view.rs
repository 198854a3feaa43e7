//! Read-only views of a board turned by quarter turns.
use crate::game::Board;
use crate::parser::Color;
use vstd::prelude::*;

verus! {

/// A board seen turned by `rotation` quarter turns.
pub struct BoardView<'a> {
    pub board: &'a Board,
    /// Quarter turns, in `0..4` when made by `new`.
    pub rotation: u8,
}

/// The board point (row, column) that view point (`vr`, `vc`) shows under
/// `rot` quarter turns, on a board of side `size`.
pub open spec fn rotate(rot: int, size: int, vr: int, vc: int) -> (int, int) {
    let m = size - 1;
    if rot == 1 {
        (vc, m - vr)
    } else if rot == 2 {
        (m - vr, m - vc)
    } else if rot == 3 {
        (m - vc, vr)
    } else {
        (vr, vc)
    }
}

/// What view point (`vr`, `vc`) shows of board `b` under `rot` quarter turns.
pub open spec fn view_cell(b: Seq<Seq<Option<Color>>>, rot: int, vr: int, vc: int) -> Option<Color> {
    let p = rotate(rot, b.len() as int, vr, vc);
    b[p.0][p.1]
}

/// Turning by `r` and by `r + 4` quarter turns makes the same view: the
/// rotation that `new` keeps is the same, and so is every point shown.
pub proof fn lemma_rotation_period(b: Seq<Seq<Option<Color>>>, r: nat, vr: int, vc: int)
    ensures
        (r + 4) % 4 == r % 4,
        view_cell(b, ((r + 4) % 4) as int, vr, vc) == view_cell(b, (r % 4) as int, vr, vc),
{
}

/// Quarter turns compose as addition modulo 4: turning the view of `a`
/// quarter turns by `b` more is the view of `a + b` quarter turns. With the
/// identity at 0, the rotations form a group of order 4.
pub proof fn lemma_rotation_compose(size: int, a: int, b: int, vr: int, vc: int)
    requires
        0 <= a < 4,
        0 <= b < 4,
    ensures
        ({
            let p = rotate(b, size, vr, vc);
            rotate(a, size, p.0, p.1)
        }) == rotate((a + b) % 4, size, vr, vc),
{
}

/// Two half turns give back the original point.
pub proof fn lemma_half_turn_twice(size: int, vr: int, vc: int)
    ensures
        ({
            let p = rotate(2, size, vr, vc);
            rotate(2, size, p.0, p.1)
        }) == (vr, vc),
{
}

/// The view with no turn shows every point where the board has it.
pub proof fn lemma_no_turn_is_identity(b: Seq<Seq<Option<Color>>>, r: int, c: int)
    ensures
        view_cell(b, 0, r, c) == b[r][c],
{
}

impl<'a> BoardView<'a> {
    /// A view of `board` turned by `rotation` quarter turns (taken modulo 4).
    pub fn new(board: &'a Board, rotation: u8) -> (v: Self)
        ensures
            v.board == board,
            v.rotation == rotation % 4,
    {
        BoardView { board, rotation: rotation % 4 }
    }

    /// The side length of the board.
    pub fn size(&self) -> (r: u8)
        ensures
            r == self.board.size,
    {
        self.board.size
    }

    /// The point shown at view row `view_row`, view column `view_col`.
    pub fn get(&self, view_row: u8, view_col: u8) -> (r: Option<Color>)
        requires
            self.board.wf(),
            view_row < self.board.size,
            view_col < self.board.size,
        ensures
            r == view_cell(self.board@, self.rotation as int, view_row as int, view_col as int),
    {
        let size = self.board.size - 1;
        let (board_row, board_col) = match self.rotation {
            1 => (view_col, size - view_row),
            2 => (size - view_row, size - view_col),
            3 => (size - view_col, view_row),
            _ => (view_row, view_col),
        };
        self.board.get(board_row, board_col)
    }
}

} // verus!
