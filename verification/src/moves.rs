//! What holds of every move that the packed board offers.

use vstd::prelude::*;
use crate::board::{
    check_move, grid_apply, grid_un_apply, has_cell, in_grid, interior, on_border, open_path,
    roster, slot, square, walled, BoardSlot, Move, Player, Pos, Team,
};
use crate::compact_board::{
    holds_piece, lemma_grid_roster, lemma_linear_bound, lemma_linear_injective, lemma_slot_of,
    lemma_unit_mul, live, queen_dir,
    CompactMove, Packed, MAX_NUM_PLAYERS,
};

verus! {

impl Packed {
    /// Whether a queen standing on `from` reaches `to` in one move: `to`
    /// lies some steps away in one of the eight directions, and every cell
    /// on the way, `to` included, is free. The cell `blank` counts as free.
    pub open spec fn reaches(self, from: Pos, to: Pos, blank: Pos) -> bool {
        exists|d: int, k: int| #[trigger] self.reaches_by(from, to, blank, d, k)
    }

    /// Whether `to` is the `k`-th cell from `from` in direction `d`, with
    /// the way there free.
    pub open spec fn reaches_by(self, from: Pos, to: Pos, blank: Pos, d: int, k: int) -> bool {
        &&& 0 <= d < 8
        &&& 1 <= k
        &&& to == from.offset(queen_dir(d), k)
        &&& forall|j: int| 1 <= j <= k ==> #[trigger] self.passable(from, queen_dir(d), j, blank)
    }

    /// Whether `mv` is a move of a piece of `team`: the roster slot holds a
    /// piece of `team` on the origin, the piece reaches the destination as a
    /// queen, and an arrow from the destination reaches the target, the
    /// vacated origin not standing in its way.
    pub open spec fn move_ok(self, team: Team, mv: CompactMove) -> bool {
        &&& mv.player_ix < MAX_NUM_PLAYERS
        &&& live(self.players[mv.player_ix as int])
        &&& self.players[mv.player_ix as int].team == team
        &&& self.players[mv.player_ix as int].pos == mv.old_pos
        &&& self.reaches(mv.old_pos, mv.new_pos, mv.old_pos)
        &&& self.reaches(mv.new_pos, mv.new_shot, mv.old_pos)
    }
}

proof fn lemma_ray_len_nonneg(b: Packed, from: Pos, dir: (i8, i8), blank: Pos, k: int)
    ensures
        b.ray_len(from, dir, blank, k) >= 0,
    decreases b.size - k,
{
    if 1 <= k < b.size && b.passable(from, dir, k, blank) {
        lemma_ray_len_nonneg(b, from, dir, blank, k + 1);
    }
}

proof fn lemma_ray_cells(b: Packed, from: Pos, dir: (i8, i8), blank: Pos, k: int, j: int)
    requires
        1 <= k <= j < k + b.ray_len(from, dir, blank, k),
    ensures
        b.passable(from, dir, j, blank),
    decreases j - k,
{
    if j > k {
        lemma_ray_cells(b, from, dir, blank, k + 1, j);
    }
}

proof fn lemma_range_member(b: Packed, from: Pos, blank: Pos, n: int, i: int)
    requires
        0 <= n <= 8,
        0 <= i < b.range_dirs(from, blank, n).len(),
    ensures
        b.reaches(from, b.range_dirs(from, blank, n)[i], blank),
    decreases n,
{
    let prev = b.range_dirs(from, blank, n - 1);
    if i < prev.len() {
        lemma_range_member(b, from, blank, n - 1, i);
    } else {
        let dir = queen_dir(n - 1);
        let k = i - prev.len() + 1;
        let to = b.range_dirs(from, blank, n)[i];
        lemma_ray_len_nonneg(b, from, dir, blank, 1);
        assert(to == b.ray(from, dir, blank)[k - 1]);
        assert forall|j: int| 1 <= j <= k implies #[trigger] b.passable(from, dir, j, blank) by {
            lemma_ray_cells(b, from, dir, blank, 1, j);
        }
        assert(b.reaches_by(from, to, blank, n - 1, k));
    }
}

/// A cell that a queen reaches from an inner cell of a playable board is an
/// inner cell other than the start, and it is free unless it is `blank`.
pub proof fn lemma_reaches_cell(b: Packed, from: Pos, to: Pos, blank: Pos)
    requires
        b.wf(),
        interior(b.size, from),
        interior(b.size, blank),
        b.reaches(from, to, blank),
    ensures
        interior(b.size, to),
        to != from,
        !b.occupied(to) || to == blank,
{
    let (d, k) = choose|d: int, k: int| #[trigger] b.reaches_by(from, to, blank, d, k);
    let dir = queen_dir(d);
    assert(b.passable(from, dir, k, blank));
    lemma_unit_mul(k, dir.0 as int);
    lemma_unit_mul(k, dir.1 as int);
    assert(to.row == from.row + k * dir.0);
    assert(to.col == from.col + k * dir.1);
    assert(to.linear(b.size) == (from.row + k * dir.0) * b.size + (from.col + k * dir.1));
    if !b.occupied(to) {
        assert(!on_border(b.size, to));
    }
}

proof fn lemma_player_moves_member(b: Packed, team: Team, ix: int, n: int, i: int)
    requires
        b.wf(),
        0 <= ix < MAX_NUM_PLAYERS,
        live(b.players[ix]),
        b.players[ix].team == team,
        0 <= n <= b.queen_range(b.players[ix].pos, b.players[ix].pos).len(),
        0 <= i < b.player_moves_upto(ix, n).len(),
    ensures
        b.move_ok(team, b.player_moves_upto(ix, n)[i]),
    decreases n,
{
    let origin = b.players[ix].pos;
    let prev = b.player_moves_upto(ix, n - 1);
    if i < prev.len() {
        lemma_player_moves_member(b, team, ix, n - 1, i);
    } else {
        let dest = b.queen_range(origin, origin)[n - 1];
        let mv = b.player_moves_upto(ix, n)[i];
        let s = i - prev.len();
        assert(mv == b.shots(ix, dest)[s]);
        lemma_range_member(b, origin, origin, 8, n - 1);
        lemma_range_member(b, dest, origin, 8, s);
    }
}

proof fn lemma_team_moves_member(b: Packed, team: Team, n: int, i: int)
    requires
        b.wf(),
        0 <= n <= MAX_NUM_PLAYERS,
        0 <= i < b.team_moves_upto(team, n).len(),
    ensures
        b.move_ok(team, b.team_moves_upto(team, n)[i]),
    decreases n,
{
    let prev = b.team_moves_upto(team, n - 1);
    if i < prev.len() {
        lemma_team_moves_member(b, team, n - 1, i);
    } else {
        let origin = b.players[n - 1].pos;
        lemma_player_moves_member(
            b,
            team,
            n - 1,
            b.queen_range(origin, origin).len() as int,
            i - prev.len(),
        );
    }
}

/// Every move that a playable board offers to a team is a move of one of
/// that team's pieces along free queen lines.
pub proof fn lemma_successor_ok(b: Packed, team: Team, i: int)
    requires
        b.wf(),
        0 <= i < b.successors(team).len(),
    ensures
        b.move_ok(team, b.successors(team)[i]),
{
    lemma_team_moves_member(b, team, MAX_NUM_PLAYERS as int, i);
}

/// The cells of a move on a playable board are inner cells; destination and
/// arrow are free before the move, but for an arrow shot back at the origin.
pub proof fn lemma_move_cells(b: Packed, team: Team, mv: CompactMove)
    requires
        b.wf(),
        b.move_ok(team, mv),
    ensures
        interior(b.size, mv.old_pos),
        interior(b.size, mv.new_pos),
        interior(b.size, mv.new_shot),
        b.occupied(mv.old_pos),
        !b.occupied(mv.new_pos),
        mv.new_pos != mv.old_pos,
        mv.new_shot != mv.new_pos,
        mv.new_shot == mv.old_pos || !b.occupied(mv.new_shot),
{
    assert(live(b.players[mv.player_ix as int]));
    lemma_reaches_cell(b, mv.old_pos, mv.new_pos, mv.old_pos);
    lemma_reaches_cell(b, mv.new_pos, mv.new_shot, mv.old_pos);
}

/// Carrying out a move of a playable board leaves a playable board, and
/// taking the move back restores the board it was made on, bit for bit and
/// roster slot for roster slot.
pub proof fn lemma_apply_un_apply(b: Packed, team: Team, mv: CompactMove)
    requires
        b.wf(),
        b.move_ok(team, mv),
    ensures
        b.apply(mv).wf(),
        b.apply(mv).un_apply(mv) == b,
{
    lemma_move_cells(b, team, mv);
    let n = b.size;
    let a = b.apply(mv);
    let ix = mv.player_ix as int;
    lemma_linear_bound(n, mv.old_pos);
    lemma_linear_bound(n, mv.new_pos);
    lemma_linear_bound(n, mv.new_shot);
    assert(mv.old_pos.linear(n) != mv.new_pos.linear(n)) by {
        if mv.old_pos.linear(n) == mv.new_pos.linear(n) {
            lemma_linear_injective(n, mv.old_pos, mv.new_pos);
        }
    }
    assert(mv.new_shot.linear(n) != mv.new_pos.linear(n)) by {
        if mv.new_shot.linear(n) == mv.new_pos.linear(n) {
            lemma_linear_injective(n, mv.new_shot, mv.new_pos);
        }
    }
    assert(mv.new_shot != mv.old_pos ==> mv.new_shot.linear(n) != mv.old_pos.linear(n)) by {
        if mv.new_shot.linear(n) == mv.old_pos.linear(n) {
            lemma_linear_injective(n, mv.new_shot, mv.old_pos);
        }
    }
    assert forall|p: Pos| #[trigger] on_border(a.size, p) implies a.occupied(p) by {
        assert(on_border(b.size, p));
        assert(b.occupied(p));
        lemma_linear_bound(n, p);
        if p.linear(n) == mv.old_pos.linear(n) {
            lemma_linear_injective(n, p, mv.old_pos);
        }
    }
    assert forall|i: int| 0 <= i < a.players.len() && live(#[trigger] a.players[i]) implies interior(
        a.size,
        a.players[i].pos,
    ) && a.occupied(a.players[i].pos) by {
        if i != ix {
            assert(a.players[i] == b.players[i]);
            assert(live(b.players[i]));
            let p = b.players[i].pos;
            lemma_linear_bound(n, p);
            if i < ix {
                assert(b.players[i].pos != b.players[ix].pos);
            } else {
                assert(b.players[ix].pos != b.players[i].pos);
            }
            if p.linear(n) == mv.old_pos.linear(n) {
                lemma_linear_injective(n, p, mv.old_pos);
            }
        }
    }
    assert forall|i: int, j: int|
        0 <= i < j < a.players.len() && live(#[trigger] a.players[j]) implies live(
        #[trigger] a.players[i],
    ) && a.players[i].pos != a.players[j].pos by {
        assert(live(b.players[ix]));
        assert(live(b.players[j]));
        assert(live(b.players[i]) && b.players[i].pos != b.players[j].pos);
    }
    let u = a.un_apply(mv);
    assert(u.walls =~= b.walls);
    assert(u.players =~= b.players);
}

/// Taking back a move that a playable board offers restores the board:
/// every occupancy bit and every roster slot is as before the move.
pub proof fn lemma_successor_round_trip(b: Packed, team: Team, i: int)
    requires
        b.wf(),
        0 <= i < b.successors(team).len(),
    ensures
        b.apply(b.successors(team)[i]).wf(),
        b.apply(b.successors(team)[i]).un_apply(b.successors(team)[i]) == b,
{
    lemma_successor_ok(b, team, i);
    lemma_apply_un_apply(b, team, b.successors(team)[i]);
}

proof fn lemma_reach_open(b: Packed, from: Pos, to: Pos, blank: Pos)
    requires
        b.wf(),
        interior(b.size, from),
        interior(b.size, blank),
        b.reaches(from, to, blank),
    ensures
        from != to,
        from.aligned(to),
        open_path(b.grid(), from, to, blank),
{
    let (d, k) = choose|d: int, k: int| #[trigger] b.reaches_by(from, to, blank, d, k);
    let dir = queen_dir(d);
    let g = b.grid();
    lemma_unit_mul(k, dir.0 as int);
    lemma_unit_mul(k, dir.1 as int);
    assert(b.passable(from, dir, k, blank));
    assert(to.row == from.row + k * dir.0);
    assert(to.col == from.col + k * dir.1);
    assert(from.line_len(to) == k);
    assert forall|j: int| 1 <= j <= from.line_len(to) implies {
        let c = #[trigger] from.line_cell(to, j);
        c == blank || slot(g, c) == BoardSlot::Empty
    } by {
        lemma_unit_mul(j, dir.0 as int);
        lemma_unit_mul(j, dir.1 as int);
        assert(b.passable(from, dir, j, blank));
        let c = from.line_cell(to, j);
        assert(c.row == from.row + j * dir.0);
        assert(c.col == from.col + j * dir.1);
        if c != blank {
            assert(c.linear(b.size) == (from.row + j * dir.0) * b.size + (from.col + j * dir.1));
            assert(!b.occupied(c));
            lemma_slot_of(b, c);
        }
    }
}

/// A move of a piece of `team` along free queen lines passes every check
/// that a move entered by hand must pass.
pub proof fn lemma_move_legal(b: Packed, team: Team, mv: CompactMove)
    requires
        b.wf(),
        b.move_ok(team, mv),
    ensures
        check_move(b.grid(), team, mv.to_move()) is Ok,
{
    lemma_move_cells(b, team, mv);
    lemma_reach_open(b, mv.old_pos, mv.new_pos, mv.old_pos);
    lemma_reach_open(b, mv.new_pos, mv.new_shot, mv.old_pos);
    lemma_slot_of(b, mv.old_pos);
    assert(live(b.players[mv.player_ix as int]));
}

/// Every move that a playable board offers to a team passes the checks
/// that a move entered by hand for that team must pass.
pub proof fn lemma_successor_legal(b: Packed, team: Team, i: int)
    requires
        b.wf(),
        0 <= i < b.successors(team).len(),
    ensures
        check_move(b.grid(), team, b.successors(team)[i].to_move()) is Ok,
{
    lemma_successor_ok(b, team, i);
    lemma_move_legal(b, team, b.successors(team)[i]);
}

/// The cells of a move that passes the checks lie on the grid; the
/// destination is empty, and so is the arrow's cell unless it is the origin.
pub proof fn lemma_legal_cells(g: Seq<Seq<BoardSlot>>, team: Team, mv: Move)
    requires
        square(g),
        check_move(g, team, mv) is Ok,
    ensures
        has_cell(g, mv.old_pos),
        has_cell(g, mv.new_pos),
        has_cell(g, mv.new_shot),
        slot(g, mv.old_pos) == BoardSlot::Piece(team),
        slot(g, mv.new_pos) == BoardSlot::Empty,
        mv.new_shot == mv.old_pos || slot(g, mv.new_shot) == BoardSlot::Empty,
        mv.old_pos != mv.new_pos,
        mv.new_pos != mv.new_shot,
{
    let k = mv.old_pos.line_len(mv.new_pos);
    assert(mv.old_pos.line_cell(mv.new_pos, k) == mv.new_pos);
    let k2 = mv.new_pos.line_len(mv.new_shot);
    assert(mv.new_pos.line_cell(mv.new_shot, k2) == mv.new_shot);
}

/// On a walled grid the cells of a move that passes the checks are inner cells.
pub proof fn lemma_legal_interior(g: Seq<Seq<BoardSlot>>, team: Team, mv: Move)
    requires
        walled(g),
        check_move(g, team, mv) is Ok,
    ensures
        interior(g.len() as int, mv.old_pos),
        interior(g.len() as int, mv.new_pos),
        interior(g.len() as int, mv.new_shot),
{
    lemma_legal_cells(g, team, mv);
    let n = g.len() as int;
    if on_border(n, mv.old_pos) {
        assert(slot(g, mv.old_pos) == BoardSlot::Wall);
    }
    if on_border(n, mv.new_pos) {
        assert(slot(g, mv.new_pos) == BoardSlot::Wall);
    }
    if on_border(n, mv.new_shot) {
        assert(slot(g, mv.new_shot) == BoardSlot::Wall);
    }
}

/// On the grid, taking back a move that passed the checks restores the
/// grid as it was before the move.
pub proof fn lemma_grid_round_trip(g: Seq<Seq<BoardSlot>>, team: Team, mv: Move)
    requires
        square(g),
        check_move(g, team, mv) is Ok,
    ensures
        grid_un_apply(grid_apply(g, mv), mv) == g,
{
    lemma_legal_cells(g, team, mv);
    let a = grid_apply(g, mv);
    let u = grid_un_apply(a, mv);
    assert(u.len() == g.len());
    assert forall|r: int| 0 <= r < g.len() implies #[trigger] u[r] =~= g[r] by {}
    assert(u =~= g);
}

proof fn lemma_ray_long(b: Packed, from: Pos, dir: (i8, i8), blank: Pos, s: int, k: int)
    requires
        1 <= s <= k < b.size,
        forall|j: int| s <= j <= k ==> #[trigger] b.passable(from, dir, j, blank),
    ensures
        b.ray_len(from, dir, blank, s) >= k - s + 1,
    decreases k - s,
{
    assert(b.passable(from, dir, s, blank));
    if s < k {
        lemma_ray_long(b, from, dir, blank, s + 1, k);
    } else {
        lemma_ray_len_nonneg(b, from, dir, blank, s + 1);
    }
}

proof fn lemma_range_has_ray(b: Packed, from: Pos, blank: Pos, n: int, d: int, i: int)
    requires
        0 <= d < n <= 8,
        0 <= i < b.ray(from, queen_dir(d), blank).len(),
    ensures
        b.range_dirs(from, blank, n).contains(b.ray(from, queen_dir(d), blank)[i]),
    decreases n,
{
    let prev = b.range_dirs(from, blank, n - 1);
    let cur = b.range_dirs(from, blank, n);
    let x = b.ray(from, queen_dir(d), blank)[i];
    if d < n - 1 {
        lemma_range_has_ray(b, from, blank, n - 1, d, i);
        let j = choose|j: int| 0 <= j < prev.len() && prev[j] == x;
        assert(cur[j] == x);
    } else {
        assert(cur[prev.len() + i] == x);
    }
}

/// A cell that a queen reaches along a free line is among the cells listed
/// for the start.
pub proof fn lemma_reaches_listed(b: Packed, from: Pos, to: Pos, blank: Pos)
    requires
        b.shaped(),
        in_grid(b.size, from),
        b.reaches(from, to, blank),
    ensures
        b.queen_range(from, blank).contains(to),
{
    let (d, k) = choose|d: int, k: int| #[trigger] b.reaches_by(from, to, blank, d, k);
    let dir = queen_dir(d);
    assert(b.passable(from, dir, k, blank));
    lemma_unit_mul(k, dir.0 as int);
    lemma_unit_mul(k, dir.1 as int);
    assert(k < b.size);
    lemma_ray_long(b, from, dir, blank, 1, k);
    assert(b.ray(from, dir, blank)[k - 1] == to);
    lemma_range_has_ray(b, from, blank, 8, d, k - 1);
}

proof fn lemma_player_moves_has(b: Packed, ix: int, n: int, di: int, si: int)
    requires
        0 <= di < n <= b.queen_range(b.players[ix].pos, b.players[ix].pos).len(),
        0 <= si < b.shots(ix, b.queen_range(b.players[ix].pos, b.players[ix].pos)[di]).len(),
    ensures
        b.player_moves_upto(ix, n).contains(
            b.shots(ix, b.queen_range(b.players[ix].pos, b.players[ix].pos)[di])[si],
        ),
    decreases n,
{
    let origin = b.players[ix].pos;
    let prev = b.player_moves_upto(ix, n - 1);
    let cur = b.player_moves_upto(ix, n);
    let x = b.shots(ix, b.queen_range(origin, origin)[di])[si];
    if di < n - 1 {
        lemma_player_moves_has(b, ix, n - 1, di, si);
        let j = choose|j: int| 0 <= j < prev.len() && prev[j] == x;
        assert(cur[j] == x);
    } else {
        assert(cur[prev.len() + si] == x);
    }
}

proof fn lemma_team_moves_has(b: Packed, team: Team, n: int, ix: int, x: CompactMove)
    requires
        0 <= ix < n <= MAX_NUM_PLAYERS,
        live(b.players[ix]),
        b.players[ix].team == team,
        b.player_moves(ix).contains(x),
    ensures
        b.team_moves_upto(team, n).contains(x),
    decreases n,
{
    let prev = b.team_moves_upto(team, n - 1);
    let cur = b.team_moves_upto(team, n);
    if ix < n - 1 {
        lemma_team_moves_has(b, team, n - 1, ix, x);
        let j = choose|j: int| 0 <= j < prev.len() && prev[j] == x;
        assert(cur[j] == x);
    } else {
        let j = choose|j: int| 0 <= j < b.player_moves(ix).len() && b.player_moves(ix)[j] == x;
        assert(cur[prev.len() + j] == x);
    }
}

/// Every move of a piece of `team` along free queen lines is among the
/// moves that a playable board offers to `team`.
pub proof fn lemma_move_ok_listed(b: Packed, team: Team, mv: CompactMove)
    requires
        b.wf(),
        b.move_ok(team, mv),
    ensures
        b.successors(team).contains(mv),
{
    lemma_move_cells(b, team, mv);
    let ix = mv.player_ix as int;
    let origin = mv.old_pos;
    lemma_reaches_listed(b, origin, mv.new_pos, origin);
    lemma_reaches_listed(b, mv.new_pos, mv.new_shot, origin);
    let dests = b.queen_range(origin, origin);
    let di = choose|di: int| 0 <= di < dests.len() && dests[di] == mv.new_pos;
    let shots = b.queen_range(mv.new_pos, origin);
    let si = choose|si: int| 0 <= si < shots.len() && shots[si] == mv.new_shot;
    assert(b.shots(ix, mv.new_pos)[si] == mv);
    lemma_player_moves_has(b, ix, dests.len() as int, di, si);
    lemma_team_moves_has(b, team, MAX_NUM_PLAYERS as int, ix, mv);
}

proof fn lemma_piece_at_found(b: Packed, p: Pos, n: int)
    requires
        0 <= n <= b.players.len(),
        b.piece_at(p, n) is Some,
    ensures
        exists|i: int|
            0 <= i < n && live(#[trigger] b.players[i]) && b.players[i].pos == p
                && b.players[i].team == b.piece_at(p, n)->0,
    decreases n,
{
    if b.piece_at(p, n - 1) is Some {
        lemma_piece_at_found(b, p, n - 1);
        let i = choose|i: int|
            0 <= i < n - 1 && live(#[trigger] b.players[i]) && b.players[i].pos == p
                && b.players[i].team == b.piece_at(p, n - 1)->0;
        assert(live(b.players[i]));
    } else {
        assert(live(b.players[n - 1]));
    }
}

/// The direction that leads from a cell to another one aligned with it.
spec fn dir_index(from: Pos, to: Pos) -> int {
    let r = to.row - from.row;
    let c = to.col - from.col;
    if r < 0 {
        if c < 0 {
            0
        } else if c == 0 {
            1
        } else {
            2
        }
    } else if r == 0 {
        if c < 0 {
            3
        } else {
            4
        }
    } else {
        if c < 0 {
            5
        } else if c == 0 {
            6
        } else {
            7
        }
    }
}

proof fn lemma_open_reaches(b: Packed, from: Pos, to: Pos, blank: Pos)
    requires
        b.wf(),
        in_grid(b.size, from),
        in_grid(b.size, to),
        open_path(b.grid(), from, to, blank),
    ensures
        b.reaches(from, to, blank),
{
    let d = dir_index(from, to);
    let dir = queen_dir(d);
    let k = from.line_len(to);
    let g = b.grid();
    lemma_unit_mul(k, dir.0 as int);
    lemma_unit_mul(k, dir.1 as int);
    assert(to == from.offset(dir, k));
    assert forall|j: int| 1 <= j <= k implies #[trigger] b.passable(from, dir, j, blank) by {
        lemma_unit_mul(j, dir.0 as int);
        lemma_unit_mul(j, dir.1 as int);
        let c = from.line_cell(to, j);
        assert(c.row == from.row + j * dir.0);
        assert(c.col == from.col + j * dir.1);
        assert(in_grid(b.size, c));
        assert(c.linear(b.size) == (from.row + j * dir.0) * b.size + (from.col + j * dir.1));
        if c != blank {
            assert(slot(g, c) == BoardSlot::Empty);
            lemma_slot_of(b, c);
        }
    }
    assert(b.reaches_by(from, to, blank, d, k));
}

/// A move that passes the checks of a move entered by hand is among the
/// moves that the playable board offers to the team.
pub proof fn lemma_legal_listed(b: Packed, team: Team, mv: Move)
    requires
        b.wf(),
        check_move(b.grid(), team, mv) is Ok,
    ensures
        exists|i: int|
            0 <= i < b.successors(team).len() && (#[trigger] b.successors(team)[i]).to_move() == mv,
{
    let g = b.grid();
    assert(g.len() == b.size);
    lemma_slot_of(b, mv.old_pos);
    assert(b.piece_at(mv.old_pos, MAX_NUM_PLAYERS as int) == Some(team));
    lemma_piece_at_found(b, mv.old_pos, MAX_NUM_PLAYERS as int);
    let ix = choose|i: int|
        0 <= i < MAX_NUM_PLAYERS && live(#[trigger] b.players[i]) && b.players[i].pos == mv.old_pos
            && b.players[i].team == team;
    let cm = CompactMove {
        player_ix: ix as usize,
        old_pos: mv.old_pos,
        new_pos: mv.new_pos,
        new_shot: mv.new_shot,
    };
    lemma_open_reaches(b, mv.old_pos, mv.new_pos, mv.old_pos);
    lemma_open_reaches(b, mv.new_pos, mv.new_shot, mv.old_pos);
    lemma_move_ok_listed(b, team, cm);
    let i = choose|i: int| 0 <= i < b.successors(team).len() && b.successors(team)[i] == cm;
    assert(b.successors(team)[i].to_move() == mv);
}

/// A playable board offers a team no move exactly when no move of that
/// team passes the checks of a move entered by hand.
pub proof fn lemma_no_successor_iff_no_legal(b: Packed, team: Team)
    requires
        b.wf(),
    ensures
        b.successors(team).len() == 0 <==> forall|mv: Move|
            !(#[trigger] check_move(b.grid(), team, mv) is Ok),
{
    if b.successors(team).len() > 0 {
        lemma_successor_legal(b, team, 0);
        assert(check_move(b.grid(), team, b.successors(team)[0].to_move()) is Ok);
    }
    if b.successors(team).len() == 0 {
        assert forall|mv: Move| !(#[trigger] check_move(b.grid(), team, mv) is Ok) by {
            if check_move(b.grid(), team, mv) is Ok {
                lemma_legal_listed(b, team, mv);
            }
        }
    }
}

/// On a square grid without a piece no move passes the checks.
pub proof fn lemma_no_piece_no_move(g: Seq<Seq<BoardSlot>>, team: Team, mv: Move)
    requires
        square(g),
        g.len() <= 127,
        roster(g).len() == 0,
    ensures
        !(check_move(g, team, mv) is Ok),
{
    if check_move(g, team, mv) is Ok {
        lemma_legal_cells(g, team, mv);
        lemma_grid_roster(g, g.len() as int);
        assert(holds_piece(g, mv.old_pos, team));
        assert(roster(g).contains(Player { team, pos: mv.old_pos }));
    }
}

} // verus!
