//! What the player has picked with the mouse, and what each cell shows
//! while a move is being put together.

use vstd::prelude::*;
use crate::board::{in_grid, open_path, set_slot, slot, square, Board, BoardSlot, Move, Pos, Team};

verus! {

/// The mouse state of a game in progress: where the mouse is, the piece
/// picked to move, and the destination picked for it.
#[derive(Clone, Copy, Debug, PartialEq, Eq, Structural)]
pub struct Selection {
    pub mouse: Pos,
    pub piece: Option<Pos>,
    pub target: Option<Pos>,
}

/// What to draw in a cell.
#[derive(Clone, Copy, Debug, PartialEq, Eq, Structural)]
pub struct Token {
    pub wall: bool,
    pub hover: bool,
    pub piece: Option<Team>,
}

/// The grid with the contents of two cells exchanged.
pub open spec fn swap_slots(g: Seq<Seq<BoardSlot>>, a: Pos, b: Pos) -> Seq<Seq<BoardSlot>> {
    set_slot(set_slot(g, a, slot(g, b)), b, slot(g, a))
}

/// The selection after a click on `clicked`, and the move that the click
/// completes, if it completes one.
///
/// With a piece picked, a click on a cell that the piece reaches picks the
/// destination. With piece and destination picked, a click on a cell that
/// an arrow reaches from the destination, the piece thought of as standing
/// there already, completes the move and clears the selection. Any other
/// click clears the selection, and picks the clicked piece if it belongs
/// to the team to move.
pub open spec fn click_spec(g: Seq<Seq<BoardSlot>>, turn: Team, sel: Selection, clicked: Pos) -> (
    Selection,
    Option<Move>,
) {
    let fresh = Selection {
        mouse: sel.mouse,
        piece: if slot(g, clicked) == BoardSlot::Piece(turn) {
            Some(clicked)
        } else {
            None
        },
        target: None,
    };
    match (sel.piece, sel.target) {
        (Some(piece), None) => if open_path(g, piece, clicked, piece) {
            (Selection { target: Some(clicked), ..sel }, None)
        } else {
            (fresh, None)
        },
        (Some(piece), Some(mv)) => if open_path(swap_slots(g, piece, mv), mv, clicked, mv) {
            (
                Selection { mouse: sel.mouse, piece: None, target: None },
                Some(Move { old_pos: piece, new_pos: mv, new_shot: clicked }),
            )
        } else {
            (fresh, None)
        },
        _ => (fresh, None),
    }
}

/// What a cell shows when nothing special is going on there.
pub open spec fn plain_token(s: BoardSlot, hover: bool) -> Token {
    match s {
        BoardSlot::Empty => Token { wall: false, hover: false, piece: None },
        BoardSlot::Wall => Token { wall: true, hover: false, piece: None },
        BoardSlot::Piece(t) => Token { wall: false, hover, piece: Some(t) },
    }
}

/// What the cell at `location` shows.
///
/// With nothing picked, it shows what it holds. With a piece picked, the
/// picked piece is highlighted, and the empty cell under the mouse shows the
/// piece if the piece reaches it. With a destination picked too, the board
/// is drawn with the piece on the destination and highlighted there, and
/// the empty cell under the mouse shows an arrow if an arrow reaches it.
pub open spec fn token_spec(g: Seq<Seq<BoardSlot>>, sel: Selection, location: Pos) -> Token {
    match (sel.piece, sel.target) {
        (Some(piece), None) => match slot(g, location) {
            BoardSlot::Empty => if location == sel.mouse && open_path(g, piece, location, piece) {
                Token {
                    wall: false,
                    hover: true,
                    piece: match slot(g, piece) {
                        BoardSlot::Piece(t) => Some(t),
                        _ => None,
                    },
                }
            } else {
                plain_token(BoardSlot::Empty, false)
            },
            s => plain_token(s, piece == location),
        },
        (Some(piece), Some(mv)) => {
            let h = swap_slots(g, piece, mv);
            match slot(h, location) {
                BoardSlot::Empty => if location == sel.mouse && open_path(h, mv, location, mv) {
                    Token { wall: true, hover: true, piece: None }
                } else {
                    plain_token(BoardSlot::Empty, false)
                },
                s => plain_token(s, location == mv),
            }
        },
        _ => plain_token(slot(g, location), false),
    }
}

impl Selection {
    /// Whether the picked cells are cells of a board of side `n`.
    pub open spec fn fits(self, n: int) -> bool {
        &&& self.piece is Some ==> in_grid(n, self.piece->0)
        &&& self.target is Some ==> in_grid(n, self.target->0)
    }

    /// Nothing picked, the mouse in the corner.
    pub fn new() -> (s: Selection)
        ensures
            s == (Selection { mouse: Pos { row: 0, col: 0 }, piece: None, target: None }),
    {
        Selection { mouse: Pos { row: 0, col: 0 }, piece: None, target: None }
    }

    /// Drops what was picked and leaves the mouse where it is.
    pub fn clear(&mut self)
        ensures
            *final(self) == (Selection { mouse: old(self).mouse, piece: None, target: None }),
    {
        self.piece = None;
        self.target = None;
    }

    /// Takes a click on the cell `clicked` and returns the move that it
    /// completes, if it completes one.
    pub fn click(&mut self, board: &Board, turn: Team, clicked: Pos) -> (r: Option<Move>)
        requires
            square(board@),
            board@.len() <= 127,
            in_grid(board@.len() as int, clicked),
            old(self).fits(board@.len() as int),
        ensures
            *final(self) == click_spec(board@, turn, *old(self), clicked).0,
            r == click_spec(board@, turn, *old(self), clicked).1,
            final(self).fits(board@.len() as int),
    {
        match (self.piece, self.target) {
            (Some(piece), None) => {
                if board.path_open(piece, clicked, piece) {
                    self.target = Some(clicked);
                    return None;
                }
            },
            (Some(piece), Some(mv)) => {
                let mut moved = board.clone();
                moved.swap_pos(piece, mv);
                if moved.path_open(mv, clicked, mv) {
                    self.clear();
                    return Some(Move { old_pos: piece, new_pos: mv, new_shot: clicked });
                }
            },
            _ => {},
        }
        self.clear();
        match board.get(clicked) {
            BoardSlot::Piece(t) => {
                if t == turn {
                    self.piece = Some(clicked);
                }
            },
            _ => {},
        }
        None
    }

    /// What to draw in the cell at `location`.
    pub fn token(&self, board: &Board, location: Pos) -> (t: Token)
        requires
            square(board@),
            board@.len() <= 127,
            in_grid(board@.len() as int, location),
            self.fits(board@.len() as int),
        ensures
            t == token_spec(board@, *self, location),
    {
        let mut dt = Token { wall: false, hover: false, piece: None };
        match (self.piece, self.target) {
            (Some(piece), None) => {
                match board.get(location) {
                    BoardSlot::Empty => {
                        if location == self.mouse && board.path_open(piece, location, piece) {
                            match board.get(piece) {
                                BoardSlot::Piece(t) => {
                                    dt.piece = Some(t);
                                },
                                _ => {},
                            }
                            dt.hover = true;
                        }
                    },
                    BoardSlot::Wall => {
                        dt.wall = true;
                    },
                    BoardSlot::Piece(t) => {
                        if piece == location {
                            dt.hover = true;
                        }
                        dt.piece = Some(t);
                    },
                }
            },
            (Some(piece), Some(mv)) => {
                let mut moved = board.clone();
                moved.swap_pos(piece, mv);
                match moved.get(location) {
                    BoardSlot::Empty => {
                        if location == self.mouse && moved.path_open(mv, location, mv) {
                            dt.wall = true;
                            dt.hover = true;
                        }
                    },
                    BoardSlot::Wall => {
                        dt.wall = true;
                    },
                    BoardSlot::Piece(t) => {
                        if location == mv {
                            dt.hover = true;
                        }
                        dt.piece = Some(t);
                    },
                }
            },
            _ => {
                match board.get(location) {
                    BoardSlot::Empty => {},
                    BoardSlot::Wall => {
                        dt.wall = true;
                    },
                    BoardSlot::Piece(t) => {
                        dt.piece = Some(t);
                    },
                }
            },
        }
        dt
    }
}

} // verus!
