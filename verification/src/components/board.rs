//! Arrows on the board, and the style classes that place a piece or a marker
//! on its square.

use crate::rules::{Ply, Role, Square};
use vstd::prelude::*;
use vstd::string::StringExecFns;

verus! {

/// An arrow on the board, from one square to another.
#[derive(Clone, Copy, PartialEq, Eq, Structural, Debug)]
pub struct Arrow(pub Square, pub Square);

impl Arrow {
    /// Both squares of the arrow lie on the board: they are below 64.
    pub open spec fn in_range(self) -> bool {
        self.0 < 64 && self.1 < 64
    }

    /// The arrow along a move, which a move that starts from no square has not.
    pub open spec fn along(ply: Ply) -> Option<Arrow> {
        match ply.origin() {
            Some(from) => Some(Arrow(from, ply.target())),
            None => None,
        }
    }

    /// The arrow from where a move starts to where it goes.
    pub fn of_ply(ply: &Ply) -> (arrow: Option<Arrow>)
        ensures
            arrow == Arrow::along(*ply),
            ply.in_range() ==> (arrow matches Some(made) ==> made.in_range()),
    {
        match ply.from() {
            Some(from) => Some(Arrow(from, ply.to())),
            None => None,
        }
    }
}

/// The two sides of the board.
#[derive(Clone, Copy, PartialEq, Eq, Structural, Debug)]
pub enum Color {
    Black,
    White,
}

/// A piece: its side and its kind.
#[derive(Clone, Copy, PartialEq, Eq, Structural, Debug)]
pub struct Piece {
    pub color: Color,
    pub role: Role,
}

/// The class of a kind of piece. Only the numbers 1 to 6 are kinds.
pub open spec fn role_class(role: Role) -> Seq<char> {
    if role == 1 {
        "pawn"@
    } else if role == 2 {
        "knight"@
    } else if role == 3 {
        "bishop"@
    } else if role == 4 {
        "rook"@
    } else if role == 5 {
        "queen"@
    } else {
        "king"@
    }
}

/// The class of a side, with the spaces around it.
pub open spec fn color_class(color: Color) -> Seq<char> {
    match color {
        Color::Black => " black "@,
        Color::White => " white "@,
    }
}

/// The class of a column of the board as it is shown, counted from 0 at the left.
pub open spec fn column_class(column: int) -> Seq<char> {
    if column == 0 {
        "a"@
    } else if column == 1 {
        "b"@
    } else if column == 2 {
        "c"@
    } else if column == 3 {
        "d"@
    } else if column == 4 {
        "e"@
    } else if column == 5 {
        "f"@
    } else if column == 6 {
        "g"@
    } else {
        "h"@
    }
}

/// The class of a row of the board as it is shown, counted from 0 at the
/// bottom, with the space before it.
pub open spec fn row_class(row: int) -> Seq<char> {
    if row == 0 {
        " row1"@
    } else if row == 1 {
        " row2"@
    } else if row == 2 {
        " row3"@
    } else if row == 3 {
        " row4"@
    } else if row == 4 {
        " row5"@
    } else if row == 5 {
        " row6"@
    } else if row == 6 {
        " row7"@
    } else {
        " row8"@
    }
}

/// The column in which a square is shown: its file, counted from the other
/// side if the board is turned.
pub open spec fn shown_column(square: Square, reverse: bool) -> int {
    if reverse {
        7 - square % 8
    } else {
        (square % 8) as int
    }
}

/// The row in which a square is shown: its rank, counted from the other side
/// if the board is turned.
pub open spec fn shown_row(square: Square, reverse: bool) -> int {
    if reverse {
        7 - square / 8
    } else {
        (square / 8) as int
    }
}

/// The classes that place a marker on a square: column and row.
pub open spec fn position_class(square: Square, reverse: bool) -> Seq<char> {
    column_class(shown_column(square, reverse)) + row_class(shown_row(square, reverse))
}

/// The classes that show a piece on a square: kind, side, column and row.
pub open spec fn piece_class(piece: Piece, square: Square, reverse: bool) -> Seq<char> {
    role_class(piece.role) + color_class(piece.color) + position_class(square, reverse)
}

fn column_name(column: u8) -> (name: &'static str)
    ensures
        name@ == column_class(column as int),
{
    if column == 0 {
        "a"
    } else if column == 1 {
        "b"
    } else if column == 2 {
        "c"
    } else if column == 3 {
        "d"
    } else if column == 4 {
        "e"
    } else if column == 5 {
        "f"
    } else if column == 6 {
        "g"
    } else {
        "h"
    }
}

fn row_name(row: u8) -> (name: &'static str)
    ensures
        name@ == row_class(row as int),
{
    if row == 0 {
        " row1"
    } else if row == 1 {
        " row2"
    } else if row == 2 {
        " row3"
    } else if row == 3 {
        " row4"
    } else if row == 4 {
        " row5"
    } else if row == 5 {
        " row6"
    } else if row == 6 {
        " row7"
    } else {
        " row8"
    }
}

fn role_name(role: Role) -> (name: &'static str)
    ensures
        name@ == role_class(role),
{
    if role == 1 {
        "pawn"
    } else if role == 2 {
        "knight"
    } else if role == 3 {
        "bishop"
    } else if role == 4 {
        "rook"
    } else if role == 5 {
        "queen"
    } else {
        "king"
    }
}

/// The classes that show a piece on a square, as `"bishop black a row8"`.
pub fn get_class_for_piece(piece: Piece, square: Square, reverse: bool) -> (class: String)
    requires
        1 <= piece.role <= 6,
        square < 64,
    ensures
        class@ == piece_class(piece, square, reverse),
{
    let mut result = String::from_str(role_name(piece.role));
    match piece.color {
        Color::Black => result.append(" black "),
        Color::White => result.append(" white "),
    }
    let col = if reverse {
        7 - square % 8
    } else {
        square % 8
    };
    let row = if reverse {
        7 - square / 8
    } else {
        square / 8
    };
    result.append(column_name(col));
    result.append(row_name(row));
    proof {
        assert(result@ =~= piece_class(piece, square, reverse));
    }
    result
}

/// The classes that place a marker on a square, as `"a row8"`.
pub fn get_class_for_position(square: Square, reverse: bool) -> (class: String)
    requires
        square < 64,
    ensures
        class@ == position_class(square, reverse),
{
    let col = if reverse {
        7 - square % 8
    } else {
        square % 8
    };
    let row = if reverse {
        7 - square / 8
    } else {
        square / 8
    };
    let mut result = String::from_str(column_name(col));
    result.append(row_name(row));
    result
}

} // verus!
