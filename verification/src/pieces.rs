//! How the pieces of a grid change when cells are written.

use vstd::prelude::*;
use crate::board::{
    grid_apply, grid_roster, grid_un_apply, has_cell, interior, on_border, roster, row_roster,
    set_slot, slot, square, standard_grid, walled, BoardSlot, Move, Pos,
};

verus! {

/// One for a slot that holds a piece, zero for any other.
pub open spec fn piece_weight(s: BoardSlot) -> int {
    if s is Piece {
        1
    } else {
        0
    }
}

proof fn lemma_row_roster_set(g: Seq<Seq<BoardSlot>>, p: Pos, s: BoardSlot, r: int, n: int)
    requires
        square(g),
        has_cell(g, p),
        0 <= r < g.len(),
        0 <= n <= g.len(),
    ensures
        row_roster(set_slot(g, p, s), r, n).len() == row_roster(g, r, n).len() + if r == p.row && n
            > p.col {
            piece_weight(s) - piece_weight(slot(g, p))
        } else {
            0
        },
    decreases n,
{
    if n > 0 {
        lemma_row_roster_set(g, p, s, r, n - 1);
    }
}

proof fn lemma_grid_roster_set(g: Seq<Seq<BoardSlot>>, p: Pos, s: BoardSlot, n: int)
    requires
        square(g),
        has_cell(g, p),
        0 <= n <= g.len(),
    ensures
        grid_roster(set_slot(g, p, s), n).len() == grid_roster(g, n).len() + if n > p.row {
            piece_weight(s) - piece_weight(slot(g, p))
        } else {
            0
        },
    decreases n,
{
    if n > 0 {
        lemma_grid_roster_set(g, p, s, n - 1);
        lemma_row_roster_set(g, p, s, n - 1, g.len() as int);
    }
}

/// Writing an inner cell of a walled grid leaves it walled, and changes the
/// number of pieces by what the new slot adds and the old one took along.
pub proof fn lemma_set_slot(g: Seq<Seq<BoardSlot>>, p: Pos, s: BoardSlot)
    requires
        walled(g),
        interior(g.len() as int, p),
    ensures
        walled(set_slot(g, p, s)),
        set_slot(g, p, s).len() == g.len(),
        slot(set_slot(g, p, s), p) == s,
        forall|q: Pos| has_cell(g, q) && q != p ==> slot(set_slot(g, p, s), q) == slot(g, q),
        roster(set_slot(g, p, s)).len() == roster(g).len() + piece_weight(s) - piece_weight(
            slot(g, p),
        ),
{
    let h = set_slot(g, p, s);
    assert(g[p.row as int].len() == g.len());
    lemma_grid_roster_set(g, p, s, g.len() as int);
    assert forall|r: int| 0 <= r < h.len() implies (#[trigger] h[r]).len() == h.len() by {
        assert(g[r].len() == g.len());
    }
    assert forall|q: Pos| #[trigger] on_border(h.len() as int, q) implies slot(h, q)
        == BoardSlot::Wall by {
        assert(on_border(g.len() as int, q));
    }
}

/// Carrying out a move between inner cells of a walled grid leaves the
/// grid walled and adds no piece.
pub proof fn lemma_grid_apply_keeps(g: Seq<Seq<BoardSlot>>, mv: Move)
    requires
        walled(g),
        interior(g.len() as int, mv.old_pos),
        interior(g.len() as int, mv.new_pos),
        interior(g.len() as int, mv.new_shot),
    ensures
        walled(grid_apply(g, mv)),
        grid_apply(g, mv).len() == g.len(),
        roster(grid_apply(g, mv)).len() <= roster(g).len(),
{
    let g1 = set_slot(g, mv.old_pos, BoardSlot::Empty);
    lemma_set_slot(g, mv.old_pos, BoardSlot::Empty);
    let g2 = set_slot(g1, mv.new_pos, slot(g, mv.old_pos));
    lemma_set_slot(g1, mv.new_pos, slot(g, mv.old_pos));
    lemma_set_slot(g2, mv.new_shot, BoardSlot::Wall);
}

/// Taking back a move between inner cells of a walled grid leaves the grid
/// walled and adds no piece.
pub proof fn lemma_grid_un_apply_keeps(g: Seq<Seq<BoardSlot>>, mv: Move)
    requires
        walled(g),
        interior(g.len() as int, mv.old_pos),
        interior(g.len() as int, mv.new_pos),
        interior(g.len() as int, mv.new_shot),
    ensures
        walled(grid_un_apply(g, mv)),
        grid_un_apply(g, mv).len() == g.len(),
        roster(grid_un_apply(g, mv)).len() <= roster(g).len(),
{
    let g1 = set_slot(g, mv.new_pos, BoardSlot::Empty);
    lemma_set_slot(g, mv.new_pos, BoardSlot::Empty);
    let g2 = set_slot(g1, mv.new_shot, BoardSlot::Empty);
    lemma_set_slot(g1, mv.new_shot, BoardSlot::Empty);
    lemma_set_slot(g2, mv.old_pos, slot(g, mv.new_pos));
}

proof fn lemma_standard_row(r: int, n: int)
    requires
        0 <= r < 10,
        0 <= n <= 10,
    ensures
        row_roster(standard_grid(), r, n).len() == if r == 3 || r == 6 {
            (if n > 3 {
                1int
            } else {
                0int
            }) + (if n > 6 {
                1int
            } else {
                0int
            })
        } else {
            0int
        },
    decreases n,
{
    if n > 0 {
        lemma_standard_row(r, n - 1);
    }
}

proof fn lemma_standard_rows(n: int)
    requires
        0 <= n <= 10,
    ensures
        grid_roster(standard_grid(), n).len() == (if n > 3 {
            2int
        } else {
            0int
        }) + (if n > 6 {
            2int
        } else {
            0int
        }),
    decreases n,
{
    if n > 0 {
        lemma_standard_rows(n - 1);
        lemma_standard_row(n - 1, 10);
    }
}

/// The starting layout is a walled grid of side ten with four pieces.
pub proof fn lemma_standard_grid()
    ensures
        walled(standard_grid()),
        standard_grid().len() == 10,
        roster(standard_grid()).len() == 4,
{
    lemma_standard_rows(10);
}

} // verus!
