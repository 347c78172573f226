//! The packed board that the search works on: one occupancy bit per cell
//! and a small fixed roster of pieces.

use vstd::prelude::*;
use crate::bits::{bits_clone, bits_get, bits_new_fill, bits_set, bits_view, Bitmap};
use crate::board::{
    grid_roster, in_grid, interior, on_border, roster, row_roster, slot, square, walled,
    widest, Board,
    BoardSlot, Move, Player, Pos, Team,
};
use crate::text::string_push;

verus! {

/// The most pieces a packed board can hold.
pub const MAX_NUM_PLAYERS: usize = 4;

/// A move together with the roster slot of the piece that makes it.
#[derive(Clone, Copy, Debug, PartialEq, Eq, Structural)]
pub struct CompactMove {
    pub player_ix: usize,
    pub old_pos: Pos,
    pub new_pos: Pos,
    pub new_shot: Pos,
}

impl CompactMove {
    /// The move without the roster slot.
    pub open spec fn to_move(self) -> Move {
        Move { old_pos: self.old_pos, new_pos: self.new_pos, new_shot: self.new_shot }
    }
}

impl From<CompactMove> for Move {
    fn from(cm: CompactMove) -> (m: Move) {
        Move { old_pos: cm.old_pos, new_pos: cm.new_pos, new_shot: cm.new_shot }
    }
}

impl vstd::std_specs::convert::FromSpecImpl<CompactMove> for Move {
    open spec fn obeys_from_spec() -> bool {
        true
    }

    open spec fn from_spec(cm: CompactMove) -> Move {
        cm.to_move()
    }
}

/// Whether the roster slot holds a piece: the position at row 0, column 0
/// marks an unused slot.
pub open spec fn live(p: Player) -> bool {
    p.pos.row != 0 || p.pos.col != 0
}

/// One of the eight directions a queen travels in, row step first.
pub open spec fn queen_dir(d: int) -> (i8, i8) {
    if d == 0 {
        (-1i8, -1i8)
    } else if d == 1 {
        (-1i8, 0i8)
    } else if d == 2 {
        (-1i8, 1i8)
    } else if d == 3 {
        (0i8, -1i8)
    } else if d == 4 {
        (0i8, 1i8)
    } else if d == 5 {
        (1i8, -1i8)
    } else if d == 6 {
        (1i8, 0i8)
    } else {
        (1i8, 1i8)
    }
}

/// The packed board as mathematics: its side, the occupancy bit of every
/// cell in row-major order, and the roster.
pub struct Packed {
    pub size: int,
    pub walls: Seq<bool>,
    pub players: Seq<Player>,
}

impl Packed {
    /// The bitmap has one bit per cell and the roster has all its slots.
    pub open spec fn shaped(self) -> bool {
        &&& 0 <= self.size <= 127
        &&& self.walls.len() == self.size * self.size
        &&& self.players.len() == MAX_NUM_PLAYERS
    }

    /// Whether the cell is a wall, an arrow or holds a piece.
    pub open spec fn occupied(self, p: Pos) -> bool {
        self.walls[p.linear(self.size)]
    }

    /// A board that the game can be played on: the border ring is walled,
    /// the pieces fill the front of the roster, and each piece stands on an
    /// inner cell of its own that is marked occupied.
    pub open spec fn wf(self) -> bool {
        &&& self.shaped()
        &&& 2 <= self.size
        &&& forall|p: Pos| #[trigger] on_border(self.size, p) ==> self.occupied(p)
        &&& forall|i: int|
            0 <= i < self.players.len() && live(#[trigger] self.players[i]) ==> interior(
                self.size,
                self.players[i].pos,
            ) && self.occupied(self.players[i].pos)
        &&& forall|i: int, j: int|
            0 <= i < j < self.players.len() && live(#[trigger] self.players[j]) ==> live(
                #[trigger] self.players[i],
            ) && self.players[i].pos != self.players[j].pos
    }

    /// The board with the occupancy bit of `p` set to `val`.
    pub open spec fn with_wall(self, p: Pos, val: bool) -> Packed {
        Packed { walls: self.walls.update(p.linear(self.size), val), ..self }
    }

    /// The board with the piece in roster slot `ix` standing on `p`.
    pub open spec fn with_player_at(self, ix: int, p: Pos) -> Packed {
        Packed {
            players: self.players.update(ix, Player { team: self.players[ix].team, pos: p }),
            ..self
        }
    }

    /// The board after the move: the origin is vacated, destination and
    /// arrow are occupied, and the piece's roster slot names the destination.
    pub open spec fn apply(self, mv: CompactMove) -> Packed {
        self.with_wall(mv.old_pos, false).with_wall(mv.new_pos, true).with_wall(
            mv.new_shot,
            true,
        ).with_player_at(mv.player_ix as int, mv.new_pos)
    }

    /// The board with the move taken back: destination and arrow are
    /// vacated, the origin is occupied, and the piece's roster slot names
    /// the origin.
    pub open spec fn un_apply(self, mv: CompactMove) -> Packed {
        self.with_wall(mv.new_pos, false).with_wall(mv.new_shot, false).with_wall(
            mv.old_pos,
            true,
        ).with_player_at(mv.player_ix as int, mv.old_pos)
    }

    /// Whether a queen that left `from` in direction `dir` may stand on the
    /// `k`-th cell of that ray: the cell is on the board and free. The cell
    /// `blank` counts as free whatever its bit says.
    pub open spec fn passable(self, from: Pos, dir: (i8, i8), k: int, blank: Pos) -> bool {
        let r = from.row + k * dir.0;
        let c = from.col + k * dir.1;
        &&& 0 <= r < self.size
        &&& 0 <= c < self.size
        &&& (!self.walls[r * self.size + c] || (r == blank.row && c == blank.col))
    }

    /// How many cells in a row, from the `k`-th on, a queen may pass on the
    /// ray from `from` in direction `dir`.
    pub open spec fn ray_len(self, from: Pos, dir: (i8, i8), blank: Pos, k: int) -> int
        decreases self.size - k,
    {
        if 1 <= k < self.size && self.passable(from, dir, k, blank) {
            1 + self.ray_len(from, dir, blank, k + 1)
        } else {
            0
        }
    }

    /// The cells a queen reaches from `from` in direction `dir`, nearest first.
    pub open spec fn ray(self, from: Pos, dir: (i8, i8), blank: Pos) -> Seq<Pos> {
        Seq::new(self.ray_len(from, dir, blank, 1) as nat, |i: int| from.offset(dir, i + 1))
    }

    /// The cells a queen reaches from `from` in the first `n` directions.
    pub open spec fn range_dirs(self, from: Pos, blank: Pos, n: int) -> Seq<Pos>
        decreases n,
    {
        if n <= 0 {
            Seq::empty()
        } else {
            self.range_dirs(from, blank, n - 1) + self.ray(from, queen_dir(n - 1), blank)
        }
    }

    /// Every cell a queen reaches from `from` in one move, direction by
    /// direction and nearest first within a direction.
    pub open spec fn queen_range(self, from: Pos, blank: Pos) -> Seq<Pos> {
        self.range_dirs(from, blank, 8)
    }

    /// The moves of the piece in roster slot `ix` that land on `dest`, one
    /// for each cell an arrow reaches from there. The arrow may cross the
    /// cell that the piece has left.
    pub open spec fn shots(self, ix: int, dest: Pos) -> Seq<CompactMove> {
        let origin = self.players[ix].pos;
        let r = self.queen_range(dest, origin);
        Seq::new(
            r.len(),
            |i: int|
                CompactMove { player_ix: ix as usize, old_pos: origin, new_pos: dest, new_shot: r[i] },
        )
    }

    /// The moves of the piece in roster slot `ix` to its first `n` destinations.
    pub open spec fn player_moves_upto(self, ix: int, n: int) -> Seq<CompactMove>
        decreases n,
    {
        if n <= 0 {
            Seq::empty()
        } else {
            let origin = self.players[ix].pos;
            self.player_moves_upto(ix, n - 1) + self.shots(
                ix,
                self.queen_range(origin, origin)[n - 1],
            )
        }
    }

    /// Every move of the piece in roster slot `ix`.
    pub open spec fn player_moves(self, ix: int) -> Seq<CompactMove> {
        let origin = self.players[ix].pos;
        self.player_moves_upto(ix, self.queen_range(origin, origin).len() as int)
    }

    /// The moves of the pieces of `team` in the first `n` roster slots.
    pub open spec fn team_moves_upto(self, team: Team, n: int) -> Seq<CompactMove>
        decreases n,
    {
        if n <= 0 {
            Seq::empty()
        } else {
            let prev = self.team_moves_upto(team, n - 1);
            if live(self.players[n - 1]) && self.players[n - 1].team == team {
                prev + self.player_moves(n - 1)
            } else {
                prev
            }
        }
    }

    /// The team of the first piece among the first `n` roster slots that
    /// stands on `p`, if there is one.
    pub open spec fn piece_at(self, p: Pos, n: int) -> Option<Team>
        decreases n,
    {
        if n <= 0 {
            None
        } else {
            match self.piece_at(p, n - 1) {
                Some(t) => Some(t),
                None => if live(self.players[n - 1]) && self.players[n - 1].pos == p {
                    Some(self.players[n - 1].team)
                } else {
                    None
                },
            }
        }
    }

    /// What the board holds at `p`: a piece where the roster has one, else
    /// a wall or nothing as the occupancy bit says.
    pub open spec fn slot_of(self, p: Pos) -> BoardSlot {
        match self.piece_at(p, MAX_NUM_PLAYERS as int) {
            Some(t) => BoardSlot::Piece(t),
            None => if self.occupied(p) {
                BoardSlot::Wall
            } else {
                BoardSlot::Empty
            },
        }
    }

    /// The board as a grid of slots.
    pub open spec fn grid(self) -> Seq<Seq<BoardSlot>> {
        Seq::new(
            self.size as nat,
            |r: int|
                Seq::new(
                    self.size as nat,
                    |c: int| self.slot_of(Pos { row: r as i8, col: c as i8 }),
                ),
        )
    }

    /// The pieces among the first `n` roster slots, in roster order.
    pub open spec fn live_players(self, n: int) -> Seq<Player>
        decreases n,
    {
        if n <= 0 {
            Seq::empty()
        } else if live(self.players[n - 1]) {
            self.live_players(n - 1).push(self.players[n - 1])
        } else {
            self.live_players(n - 1)
        }
    }

    /// The character that stands for the cell in a drawing: `B` for a blue
    /// piece, `W` for a red one, in lower case where the cell of the piece
    /// is not marked occupied; `#` for a wall or an arrow, `.` for a free cell.
    pub open spec fn cell_char(self, p: Pos) -> char {
        match self.piece_at(p, MAX_NUM_PLAYERS as int) {
            Some(t) => if self.occupied(p) {
                if t == Team::Blue {
                    'B'
                } else {
                    'W'
                }
            } else {
                if t == Team::Blue {
                    'b'
                } else {
                    'w'
                }
            },
            None => if self.occupied(p) {
                '#'
            } else {
                '.'
            },
        }
    }

    /// The drawing of the first `n` cells of row `r`.
    pub open spec fn row_drawing(self, r: int, n: int) -> Seq<char>
        decreases n,
    {
        if n <= 0 {
            Seq::empty()
        } else {
            self.row_drawing(r, n - 1).push(self.cell_char(Pos { row: r as i8, col: (n - 1) as i8 }))
        }
    }

    /// The drawing of the first `n` rows, each closed by a line feed.
    pub open spec fn drawing(self, n: int) -> Seq<char>
        decreases n,
    {
        if n <= 0 {
            Seq::empty()
        } else {
            self.drawing(n - 1) + self.row_drawing(n - 1, self.size).push('\n')
        }
    }

    /// Every move open to `team`: by roster slot, then by destination, then
    /// by arrow.
    pub open spec fn successors(self, team: Team) -> Seq<CompactMove> {
        self.team_moves_upto(team, MAX_NUM_PLAYERS as int)
    }
}

/// A step of one cell multiplies out to the distance or its negative.
pub proof fn lemma_unit_mul(k: int, d: int)
    requires
        -1 <= d <= 1,
    ensures
        k * d == if d < 0 {
            -k
        } else if d > 0 {
            k
        } else {
            0
        },
{
    assert(k * d == if d < 0 {
        -k
    } else if d > 0 {
        k
    } else {
        0
    }) by (nonlinear_arith)
        requires
            -1 <= d <= 1,
    ;
}

/// The direction with index `d`.
fn dir_at(d: usize) -> (dir: (i8, i8))
    requires
        d < 8,
    ensures
        dir == queen_dir(d as int),
        -1 <= dir.0 <= 1,
        -1 <= dir.1 <= 1,
        dir.0 != 0 || dir.1 != 0,
{
    if d == 0 {
        (-1, -1)
    } else if d == 1 {
        (-1, 0)
    } else if d == 2 {
        (-1, 1)
    } else if d == 3 {
        (0, -1)
    } else if d == 4 {
        (0, 1)
    } else if d == 5 {
        (1, -1)
    } else if d == 6 {
        (1, 0)
    } else {
        (1, 1)
    }
}

/// Every cell a queen reaches from `from` in one move on `board`. The cell
/// `blank` does not block the way; it may be any position but a cell of the
/// border ring, and one that names no cell of the board changes nothing.
pub fn queen_range(board: &CompactBoard, from: Pos, blank: Pos) -> (v: Vec<Pos>)
    requires
        board@.wf(),
        interior(board@.size, from),
        !on_border(board@.size, blank),
    ensures
        v@ == board@.queen_range(from, blank),
        forall|i: int|
            0 <= i < v@.len() ==> interior(board@.size, #[trigger] v@[i]) && (!board@.occupied(
                v@[i],
            ) || v@[i] == blank) && v@[i] != from,
{
    let mut out: Vec<Pos> = Vec::new();
    queen_range_into(board, from, blank, &mut out);
    out
}

/// Writes the cells a queen reaches from `from` into `out`, in place of
/// what `out` held, so that a caller can use one buffer again and again.
pub fn queen_range_into(board: &CompactBoard, from: Pos, blank: Pos, out: &mut Vec<Pos>)
    requires
        board@.wf(),
        interior(board@.size, from),
        !on_border(board@.size, blank),
    ensures
        final(out)@ == board@.queen_range(from, blank),
        forall|i: int|
            0 <= i < final(out)@.len() ==> interior(board@.size, #[trigger] final(out)@[i]) && (
            !board@.occupied(final(out)@[i]) || final(out)@[i] == blank) && final(out)@[i] != from,
{
    out.clear();
    let size = board.size();
    let mut d: usize = 0;
    while d < 8
        invariant
            d <= 8,
            size == board@.size,
            board@.wf(),
            interior(board@.size, from),
            !on_border(board@.size, blank),
            out@ == board@.range_dirs(from, blank, d as int),
            forall|i: int|
                0 <= i < out@.len() ==> interior(board@.size, #[trigger] out@[i]) && (
                !board@.occupied(out@[i]) || out@[i] == blank) && out@[i] != from,
        decreases 8 - d,
    {
        let dir = dir_at(d);
        let ghost base = out@;
        let mut k: i8 = 1;
        proof {
            lemma_unit_mul(1, dir.0 as int);
            lemma_unit_mul(1, dir.1 as int);
        }
        let mut p = from.with_offset(dir, k);
        while !board.wall_at(p) || p == blank
            invariant
                size == board@.size,
                board@.wf(),
                interior(board@.size, from),
                !on_border(board@.size, blank),
                -1 <= dir.0 <= 1,
                -1 <= dir.1 <= 1,
                dir.0 != 0 || dir.1 != 0,
                1 <= k < size,
                p.row == from.row + k * dir.0,
                p.col == from.col + k * dir.1,
                p == from.offset(dir, k as int),
                in_grid(board@.size, p),
                out@ == base + Seq::new((k - 1) as nat, |i: int| from.offset(dir, i + 1)),
                board@.ray_len(from, dir, blank, 1) == (k - 1) + board@.ray_len(
                    from,
                    dir,
                    blank,
                    k as int,
                ),
                forall|i: int|
                    0 <= i < out@.len() ==> interior(board@.size, #[trigger] out@[i]) && (
                    !board@.occupied(out@[i]) || out@[i] == blank) && out@[i] != from,
            decreases size - k,
        {
            proof {
                assert(board@.passable(from, dir, k as int, blank));
                assert(!on_border(board@.size, p));
                lemma_unit_mul(k as int, dir.0 as int);
                lemma_unit_mul(k as int, dir.1 as int);
                lemma_unit_mul(k + 1, dir.0 as int);
                lemma_unit_mul(k + 1, dir.1 as int);
            }
            let ghost before = out@;
            out.push(p);
            k = k + 1;
            p = from.with_offset(dir, k);
            proof {
                assert(out@ =~= base + Seq::new((k - 1) as nat, |i: int| from.offset(dir, i + 1)));
            }
        }
        proof {
            assert(!board@.passable(from, dir, k as int, blank));
            assert(out@ =~= base + board@.ray(from, dir, blank));
        }
        d = d + 1;
    }
}

/// A cell inside a square grid of side `n` has a row-major index below `n * n`.
pub proof fn lemma_linear_bound(n: int, p: Pos)
    requires
        in_grid(n, p),
    ensures
        0 <= p.linear(n) < n * n,
{
    assert(p.row * n >= 0) by (nonlinear_arith)
        requires
            p.row >= 0,
            n >= 0,
    ;
    assert(p.row * n + n <= n * n) by (nonlinear_arith)
        requires
            p.row + 1 <= n,
            n >= 0,
    ;
}

/// Two distinct cells of a square grid have distinct row-major indices.
pub proof fn lemma_linear_injective(n: int, p: Pos, q: Pos)
    requires
        in_grid(n, p),
        in_grid(n, q),
        p.linear(n) == q.linear(n),
    ensures
        p == q,
{
    if p.row < q.row {
        assert(p.row * n + n <= q.row * n) by (nonlinear_arith)
            requires
                p.row + 1 <= q.row,
                n >= 0,
        ;
    } else if q.row < p.row {
        assert(q.row * n + n <= p.row * n) by (nonlinear_arith)
            requires
                q.row + 1 <= p.row,
                n >= 0,
        ;
    }
}

/// The roster slot that marks "no piece".
pub open spec fn no_player() -> Player {
    Player { team: Team::Red, pos: Pos { row: 0, col: 0 } }
}

/// The full roster that holds the given pieces in front and unused slots
/// behind them.
pub open spec fn pad_roster(s: Seq<Player>) -> Seq<Player> {
    Seq::new(
        MAX_NUM_PLAYERS as nat,
        |i: int|
            if i < s.len() {
                s[i]
            } else {
                no_player()
            },
    )
}

/// Whether the grid holds a piece of team `t` at `p`.
pub open spec fn holds_piece(g: Seq<Seq<BoardSlot>>, p: Pos, t: Team) -> bool {
    slot(g, p) == BoardSlot::Piece(t)
}

/// Whether the cell `p` comes before row `r`, column `c` in reading order.
pub open spec fn read_before(p: Pos, r: int, c: int) -> bool {
    p.row < r || (p.row == r && p.col < c)
}

proof fn lemma_row_roster_mono(g: Seq<Seq<BoardSlot>>, r: int, a: int, b: int)
    requires
        0 <= a <= b,
    ensures
        row_roster(g, r, a).len() <= row_roster(g, r, b).len(),
    decreases b,
{
    if a < b {
        lemma_row_roster_mono(g, r, a, b - 1);
    }
}

proof fn lemma_grid_roster_mono(g: Seq<Seq<BoardSlot>>, a: int, b: int)
    requires
        0 <= a <= b,
    ensures
        grid_roster(g, a).len() <= grid_roster(g, b).len(),
    decreases b,
{
    if a < b {
        lemma_grid_roster_mono(g, a, b - 1);
    }
}

/// The pieces read so far are no more than the pieces of the whole grid.
proof fn lemma_roster_so_far(g: Seq<Seq<BoardSlot>>, r: int, c: int)
    requires
        0 <= r < g.len(),
        0 <= c <= g.len(),
    ensures
        grid_roster(g, r).len() + row_roster(g, r, c).len() <= roster(g).len(),
{
    lemma_row_roster_mono(g, r, c, g.len() as int);
    lemma_grid_roster_mono(g, r + 1, g.len() as int);
}

/// Every piece listed for the first `n` cells of row `r` stands on a cell
/// of that row that holds it, and the pieces are listed left to right.
pub proof fn lemma_row_roster(g: Seq<Seq<BoardSlot>>, r: int, n: int)
    requires
        0 <= r < g.len() <= 127,
        0 <= n <= g[r].len() <= 127,
    ensures
        forall|i: int|
            0 <= i < row_roster(g, r, n).len() ==> {
                let p = #[trigger] row_roster(g, r, n)[i];
                p.pos.row == r && 0 <= p.pos.col < n && slot(g, p.pos) == BoardSlot::Piece(p.team)
            },
        forall|i: int, j: int|
            0 <= i < j < row_roster(g, r, n).len() ==> (#[trigger] row_roster(g, r, n)[i]).pos.col < (
            #[trigger] row_roster(g, r, n)[j]).pos.col,
        forall|p: Pos, t: Team|
            p.row == r && 0 <= p.col < n && #[trigger] holds_piece(g, p, t) ==> row_roster(
                g,
                r,
                n,
            ).contains(Player { team: t, pos: p }),
    decreases n,
{
    if n > 0 {
        lemma_row_roster(g, r, n - 1);
        let prev = row_roster(g, r, n - 1);
        let cur = row_roster(g, r, n);
        assert forall|p: Pos, t: Team|
            p.row == r && 0 <= p.col < n && #[trigger] holds_piece(g, p, t) implies cur.contains(
            Player { team: t, pos: p },
        ) by {
            let pl = Player { team: t, pos: p };
            if p.col < n - 1 {
                assert(prev.contains(pl));
                let i = choose|i: int| 0 <= i < prev.len() && prev[i] == pl;
                assert(cur[i] == pl);
            } else {
                assert(cur[cur.len() - 1] == pl);
            }
        }
    }
}

/// Every piece listed for the first `n` rows stands on a cell that holds
/// it, the pieces are listed in reading order, and no piece is left out.
pub proof fn lemma_grid_roster(g: Seq<Seq<BoardSlot>>, n: int)
    requires
        square(g),
        0 <= n <= g.len() <= 127,
    ensures
        forall|i: int|
            0 <= i < grid_roster(g, n).len() ==> {
                let p = #[trigger] grid_roster(g, n)[i];
                0 <= p.pos.row < n && 0 <= p.pos.col < g.len() && slot(g, p.pos)
                    == BoardSlot::Piece(p.team)
            },
        forall|i: int, j: int|
            0 <= i < j < grid_roster(g, n).len() ==> read_before(
                (#[trigger] grid_roster(g, n)[i]).pos,
                (#[trigger] grid_roster(g, n)[j]).pos.row as int,
                grid_roster(g, n)[j].pos.col as int,
            ),
        forall|p: Pos, t: Team|
            0 <= p.row < n && 0 <= p.col < g.len() && #[trigger] holds_piece(g, p, t)
                ==> grid_roster(g, n).contains(Player { team: t, pos: p }),
    decreases n,
{
    if n > 0 {
        lemma_grid_roster(g, n - 1);
        lemma_row_roster(g, n - 1, g.len() as int);
        let prev = grid_roster(g, n - 1);
        let row = row_roster(g, n - 1, g.len() as int);
        let cur = grid_roster(g, n);
        assert forall|i: int| 0 <= i < cur.len() implies {
            let p = #[trigger] cur[i];
            0 <= p.pos.row < n && 0 <= p.pos.col < g.len() && slot(g, p.pos) == BoardSlot::Piece(
                p.team,
            )
        } by {
            if i < prev.len() {
                assert(cur[i] == prev[i]);
            } else {
                assert(cur[i] == row[i - prev.len()]);
            }
        }
        assert forall|i: int, j: int| 0 <= i < j < cur.len() implies read_before(
            (#[trigger] cur[i]).pos,
            (#[trigger] cur[j]).pos.row as int,
            cur[j].pos.col as int,
        ) by {
            if i < prev.len() {
                assert(cur[i] == prev[i]);
            } else {
                assert(cur[i] == row[i - prev.len()]);
            }
            if j < prev.len() {
                assert(cur[j] == prev[j]);
            } else {
                assert(cur[j] == row[j - prev.len()]);
            }
        }
        assert forall|p: Pos, t: Team|
            0 <= p.row < n && 0 <= p.col < g.len() && #[trigger] holds_piece(
                g,
                p,
                t,
            ) implies cur.contains(Player { team: t, pos: p }) by {
            let pl = Player { team: t, pos: p };
            if p.row < n - 1 {
                assert(prev.contains(pl));
                let i = choose|i: int| 0 <= i < prev.len() && prev[i] == pl;
                assert(cur[i] == pl);
            } else {
                assert(row.contains(pl));
                let i = choose|i: int| 0 <= i < row.len() && row[i] == pl;
                assert(cur[prev.len() + i] == pl);
            }
        }
    }
}

/// Whether the packed board `b` stands for the grid `g`: the same side, a
/// bit set for every cell that is not empty, and the pieces of the grid in
/// reading order at the front of the roster.
pub open spec fn packs(b: Packed, g: Seq<Seq<BoardSlot>>) -> bool {
    &&& b.size == g.len()
    &&& b.shaped()
    &&& forall|p: Pos|
        in_grid(b.size, p) ==> #[trigger] b.occupied(p) == (slot(g, p) != BoardSlot::Empty)
    &&& b.players == pad_roster(roster(g))
}

/// Whether one of the players stands on `p`.
pub open spec fn stands(players: Seq<Player>, p: Pos) -> bool {
    exists|i: int| 0 <= i < players.len() && (#[trigger] players[i]).pos == p
}

/// Whether the players are pieces on inner cells of a board of side `n`,
/// no two on one cell.
pub open spec fn placed(n: int, players: Seq<Player>) -> bool {
    &&& forall|i: int| 0 <= i < players.len() ==> interior(n, (#[trigger] players[i]).pos)
    &&& forall|i: int, j: int|
        0 <= i < j < players.len() ==> (#[trigger] players[i]).pos != (#[trigger] players[j]).pos
}

proof fn lemma_widest_square(g: Seq<Seq<BoardSlot>>, n: int)
    requires
        square(g),
        0 <= n <= g.len(),
    ensures
        widest(g, n) == if n == 0 {
            0
        } else {
            g.len() as int
        },
    decreases n,
{
    if n > 0 {
        lemma_widest_square(g, n - 1);
    }
}

proof fn lemma_piece_at_none(b: Packed, p: Pos, n: int)
    requires
        0 <= n <= b.players.len(),
        forall|i: int| 0 <= i < n && live(#[trigger] b.players[i]) ==> b.players[i].pos != p,
    ensures
        b.piece_at(p, n) is None,
    decreases n,
{
    if n > 0 {
        lemma_piece_at_none(b, p, n - 1);
    }
}

proof fn lemma_piece_at_some(b: Packed, p: Pos, n: int, ix: int)
    requires
        0 <= ix < n <= b.players.len(),
        live(b.players[ix]),
        b.players[ix].pos == p,
        forall|i: int|
            0 <= i < n && i != ix && live(#[trigger] b.players[i]) ==> b.players[i].pos != p,
    ensures
        b.piece_at(p, n) == Some(b.players[ix].team),
    decreases n,
{
    if n - 1 > ix {
        lemma_piece_at_some(b, p, n - 1, ix);
    } else {
        lemma_piece_at_none(b, p, n - 1);
    }
}

/// What a playable board holds at a cell, read off the roster and the bits.
pub proof fn lemma_slot_of(b: Packed, p: Pos)
    requires
        b.wf(),
        in_grid(b.size, p),
    ensures
        !b.occupied(p) ==> b.slot_of(p) == BoardSlot::Empty,
        forall|i: int|
            0 <= i < b.players.len() && live(#[trigger] b.players[i]) && b.players[i].pos == p
                ==> b.slot_of(p) == BoardSlot::Piece(b.players[i].team),
        slot(b.grid(), p) == b.slot_of(p),
{
    if !b.occupied(p) {
        lemma_piece_at_none(b, p, MAX_NUM_PLAYERS as int);
    }
    assert forall|i: int|
        0 <= i < b.players.len() && live(#[trigger] b.players[i]) && b.players[i].pos
            == p implies b.slot_of(p) == BoardSlot::Piece(b.players[i].team) by {
        assert forall|j: int|
            0 <= j < MAX_NUM_PLAYERS && j != i && live(#[trigger] b.players[j]) implies b.players[j].pos
            != p by {
            if j < i {
                assert(b.players[j].pos != b.players[i].pos);
            } else {
                assert(b.players[i].pos != b.players[j].pos);
            }
        }
        lemma_piece_at_some(b, p, MAX_NUM_PLAYERS as int, i);
    }
    assert(Pos { row: (p.row as int) as i8, col: (p.col as int) as i8 } == p);
}

/// A packed board that stands for a walled grid with no more pieces than
/// the roster holds is playable, and read back as a grid it is that grid.
pub proof fn lemma_packs(b: Packed, g: Seq<Seq<BoardSlot>>)
    requires
        packs(b, g),
        walled(g),
        roster(g).len() <= MAX_NUM_PLAYERS,
    ensures
        b.wf(),
        b.grid() == g,
{
    let n = g.len() as int;
    let ro = roster(g);
    lemma_grid_roster(g, n);
    assert forall|p: Pos| #[trigger] on_border(b.size, p) implies b.occupied(p) by {
        assert(on_border(g.len() as int, p));
        assert(b.occupied(p) == (slot(g, p) != BoardSlot::Empty));
    }
    assert forall|i: int| 0 <= i < b.players.len() && live(#[trigger] b.players[i]) implies interior(
        b.size,
        b.players[i].pos,
    ) && b.occupied(b.players[i].pos) by {
        assert(i < ro.len());
        let pl = ro[i];
        assert(b.players[i] == pl);
        assert(slot(g, pl.pos) == BoardSlot::Piece(pl.team));
        assert(in_grid(n, pl.pos));
        if on_border(n, pl.pos) {
            assert(slot(g, pl.pos) == BoardSlot::Wall);
        }
        assert(b.occupied(pl.pos) == (slot(g, pl.pos) != BoardSlot::Empty));
    }
    assert forall|i: int, j: int|
        0 <= i < j < b.players.len() && live(#[trigger] b.players[j]) implies live(
        #[trigger] b.players[i],
    ) && b.players[i].pos != b.players[j].pos by {
        assert(j < ro.len());
        assert(b.players[i] == ro[i]);
        assert(b.players[j] == ro[j]);
        assert(read_before(ro[i].pos, ro[j].pos.row as int, ro[j].pos.col as int));
        assert(slot(g, ro[i].pos) == BoardSlot::Piece(ro[i].team));
        if on_border(n, ro[i].pos) {
            assert(slot(g, ro[i].pos) == BoardSlot::Wall);
        }
    }
    assert(b.wf());
    assert forall|r: int, c: int| 0 <= r < n && 0 <= c < n implies #[trigger] b.grid()[r][c]
        == g[r][c] by {
        let p = Pos { row: r as i8, col: c as i8 };
        lemma_slot_of(b, p);
        assert(b.occupied(p) == (slot(g, p) != BoardSlot::Empty));
        match g[r][c] {
            BoardSlot::Piece(t) => {
                assert(holds_piece(g, p, t));
                let pl = Player { team: t, pos: p };
                assert(ro.contains(pl));
                let i = choose|i: int| 0 <= i < ro.len() && ro[i] == pl;
                assert(b.players[i] == pl);
                if on_border(n, p) {
                    assert(slot(g, p) == BoardSlot::Wall);
                }
                assert(live(b.players[i]));
            },
            _ => {
                assert forall|i: int|
                    0 <= i < MAX_NUM_PLAYERS && live(#[trigger] b.players[i]) implies b.players[i].pos
                    != p by {
                    assert(i < ro.len());
                    assert(b.players[i] == ro[i]);
                    assert(slot(g, ro[i].pos) == BoardSlot::Piece(ro[i].team));
                }
                lemma_piece_at_none(b, p, MAX_NUM_PLAYERS as int);
            },
        }
    }
    assert(b.grid() =~~= g);
}

/// Game state at an instant.
#[derive(Debug)]
pub struct CompactBoard {
    board_size: i8,
    walls: Bitmap,
    players_array: [Player; MAX_NUM_PLAYERS],
}

impl View for CompactBoard {
    type V = Packed;

    closed spec fn view(&self) -> Packed {
        Packed {
            size: self.board_size as int,
            walls: bits_view(self.walls),
            players: self.players_array@,
        }
    }
}

impl Clone for CompactBoard {
    fn clone(&self) -> (c: CompactBoard)
        ensures
            c@ == self@,
    {
        CompactBoard {
            board_size: self.board_size,
            walls: bits_clone(&self.walls),
            players_array: self.players_array,
        }
    }
}

impl CompactBoard {
    /// The side of the board, border included.
    pub fn size(&self) -> (n: i8)
        ensures
            n == self@.size,
    {
        self.board_size
    }

    /// Packs a grid board: the same side, a bit set for every wall and
    /// piece, and the pieces in reading order at the front of the roster.
    /// The grid must hold at least one piece and no more than the roster
    /// has slots, and none in the corner that marks an unused slot.
    pub fn from_board(board: &Board) -> (r: CompactBoard)
        requires
            square(board@),
            1 <= board@.len() <= 127,
            1 <= roster(board@).len() <= MAX_NUM_PLAYERS,
            !(slot(board@, Pos { row: 0, col: 0 }) is Piece),
        ensures
            packs(r@, board@),
            walled(board@) ==> r@.wf() && r@.grid() == board@,
    {
        let ghost g = board@;
        proof {
            lemma_widest_square(g, g.len() as int);
        }
        let n = board.size();
        assert(n * n <= 127 * 127) by (nonlinear_arith)
            requires
                n <= 127,
        ;
        let none = Player { team: Team::Red, pos: Pos { row: 0, col: 0 } };
        let mut cb = CompactBoard {
            board_size: n as i8,
            walls: bits_new_fill(false, (n * n) as u64),
            players_array: [none, none, none, none],
        };
        proof {
            assert(cb@.players =~= pad_roster(Seq::empty()));
            assert forall|p: Pos| in_grid(cb@.size, p) implies !#[trigger] cb@.occupied(p) by {
                lemma_linear_bound(cb@.size, p);
            }
        }
        let mut ix: usize = 0;
        let mut r: usize = 0;
        while r < n
            invariant
                r <= n,
                n == g.len(),
                g == board@,
                square(g),
                1 <= g.len() <= 127,
                roster(g).len() <= MAX_NUM_PLAYERS,
                !(slot(g, Pos { row: 0, col: 0 }) is Piece),
                cb@.size == n,
                cb@.shaped(),
                ix == grid_roster(g, r as int).len(),
                cb@.players == pad_roster(grid_roster(g, r as int)),
                forall|p: Pos|
                    in_grid(cb@.size, p) ==> #[trigger] cb@.occupied(p) == (read_before(
                        p,
                        r as int,
                        0,
                    ) && slot(g, p) != BoardSlot::Empty),
            decreases n - r,
        {
            let mut c: usize = 0;
            while c < n
                invariant
                    r < n,
                    c <= n,
                    n == g.len(),
                    g == board@,
                    square(g),
                    1 <= g.len() <= 127,
                    roster(g).len() <= MAX_NUM_PLAYERS,
                    !(slot(g, Pos { row: 0, col: 0 }) is Piece),
                    cb@.size == n,
                    cb@.shaped(),
                    ix == grid_roster(g, r as int).len() + row_roster(g, r as int, c as int).len(),
                    cb@.players == pad_roster(
                        grid_roster(g, r as int) + row_roster(g, r as int, c as int),
                    ),
                    forall|p: Pos|
                        in_grid(cb@.size, p) ==> #[trigger] cb@.occupied(p) == (read_before(
                            p,
                            r as int,
                            c as int,
                        ) && slot(g, p) != BoardSlot::Empty),
                decreases n - c,
            {
                let p = Pos { row: r as i8, col: c as i8 };
                let ghost before = cb@;
                let ghost so_far = grid_roster(g, r as int) + row_roster(g, r as int, c as int);
                let s = board.board[r][c];
                assert(s == slot(g, p));
                match s {
                    BoardSlot::Empty => {},
                    BoardSlot::Wall => {
                        cb.wall_set(p, true);
                    },
                    BoardSlot::Piece(team) => {
                        proof {
                            lemma_roster_so_far(g, r as int, c + 1);
                        }
                        cb.players_array[ix] = Player { team, pos: p };
                        ix = ix + 1;
                        cb.wall_set(p, true);
                        proof {
                            assert(cb@.players =~= pad_roster(
                                grid_roster(g, r as int) + row_roster(g, r as int, c + 1),
                            ));
                        }
                    },
                }
                proof {
                    assert forall|q: Pos| in_grid(cb@.size, q) implies #[trigger] cb@.occupied(q) == (
                    read_before(q, r as int, c + 1) && slot(g, q) != BoardSlot::Empty) by {
                        lemma_linear_bound(n as int, q);
                        lemma_linear_bound(n as int, p);
                        assert(before.occupied(q) == (read_before(q, r as int, c as int) && slot(g, q)
                            != BoardSlot::Empty));
                        if q.linear(n as int) == p.linear(n as int) {
                            lemma_linear_injective(n as int, q, p);
                        }
                    }
                }
                c = c + 1;
            }
            proof {
                assert(grid_roster(g, r + 1) + row_roster(g, r + 1, 0) =~= grid_roster(g, r as int)
                    + row_roster(g, r as int, n as int));
                assert(grid_roster(g, r + 1) =~= grid_roster(g, r as int) + row_roster(
                    g,
                    r as int,
                    n as int,
                ));
            }
            r = r + 1;
        }
        proof {
            if walled(g) {
                lemma_packs(cb@, g);
            }
        }
        cb
    }

    /// A board of side `size`, border included, with a ring of walls and
    /// the given pieces in roster order.
    pub fn new(size: i8, players: Vec<Player>) -> (r: CompactBoard)
        requires
            1 <= size,
            0 < players@.len() <= MAX_NUM_PLAYERS,
            forall|i: int|
                0 <= i < players@.len() ==> live(#[trigger] players@[i]) && in_grid(
                    size as int,
                    players@[i].pos,
                ),
        ensures
            r@.size == size,
            r@.shaped(),
            r@.players == pad_roster(players@),
            forall|p: Pos|
                in_grid(size as int, p) ==> #[trigger] r@.occupied(p) == (on_border(size as int, p)
                    || stands(players@, p)),
            size >= 2 && placed(size as int, players@) ==> r@.wf(),
    {
        let n: usize = size as usize;
        assert(n * n <= 127 * 127) by (nonlinear_arith)
            requires
                n <= 127,
        ;
        let none = Player { team: Team::Red, pos: Pos { row: 0, col: 0 } };
        let mut cb = CompactBoard {
            board_size: size,
            walls: bits_new_fill(false, (n * n) as u64),
            players_array: [none, none, none, none],
        };
        proof {
            assert forall|p: Pos| in_grid(cb@.size, p) implies !#[trigger] cb@.occupied(p) by {
                lemma_linear_bound(cb@.size, p);
            }
        }
        let mut r: i8 = 0;
        while r < size
            invariant
                0 <= r <= size,
                cb@.size == size,
                cb@.shaped(),
                cb@.players == seq![none, none, none, none],
                forall|p: Pos|
                    in_grid(cb@.size, p) ==> #[trigger] cb@.occupied(p) == (read_before(
                        p,
                        r as int,
                        0,
                    ) && on_border(size as int, p)),
            decreases size - r,
        {
            let mut c: i8 = 0;
            while c < size
                invariant
                    0 <= r < size,
                    0 <= c <= size,
                    cb@.size == size,
                    cb@.shaped(),
                    cb@.players == seq![none, none, none, none],
                    forall|p: Pos|
                        in_grid(cb@.size, p) ==> #[trigger] cb@.occupied(p) == (read_before(
                            p,
                            r as int,
                            c as int,
                        ) && on_border(size as int, p)),
                decreases size - c,
            {
                let p = Pos { row: r, col: c };
                let ghost before = cb@;
                if r == 0 || c == 0 || r == size - 1 || c == size - 1 {
                    cb.wall_set(p, true);
                }
                proof {
                    assert forall|q: Pos| in_grid(cb@.size, q) implies #[trigger] cb@.occupied(q) == (
                    read_before(q, r as int, c + 1) && on_border(size as int, q)) by {
                        lemma_linear_bound(size as int, q);
                        lemma_linear_bound(size as int, p);
                        assert(before.occupied(q) == (read_before(q, r as int, c as int)
                            && on_border(size as int, q)));
                        if q.linear(size as int) == p.linear(size as int) {
                            lemma_linear_injective(size as int, q, p);
                        }
                    }
                }
                c = c + 1;
            }
            r = r + 1;
        }
        let mut i: usize = 0;
        while i < players.len()
            invariant
                i <= players@.len(),
                0 < players@.len() <= MAX_NUM_PLAYERS,
                forall|k: int|
                    0 <= k < players@.len() ==> live(#[trigger] players@[k]) && in_grid(
                        size as int,
                        players@[k].pos,
                    ),
                cb@.size == size,
                cb@.shaped(),
                cb@.players == pad_roster(players@.subrange(0, i as int)),
                forall|p: Pos|
                    in_grid(cb@.size, p) ==> #[trigger] cb@.occupied(p) == (on_border(
                        size as int,
                        p,
                    ) || stands(players@.subrange(0, i as int), p)),
            decreases players@.len() - i,
        {
            let pl = players[i];
            let ghost before = cb@;
            cb.wall_set(pl.pos, true);
            cb.players_array[i] = pl;
            proof {
                let done = players@.subrange(0, i as int);
                let next = players@.subrange(0, i + 1);
                assert(cb@.players =~= pad_roster(next));
                assert(next[i as int].pos == pl.pos);
                assert forall|q: Pos| in_grid(cb@.size, q) implies #[trigger] cb@.occupied(q) == (
                on_border(size as int, q) || stands(next, q)) by {
                    lemma_linear_bound(size as int, q);
                    lemma_linear_bound(size as int, pl.pos);
                    assert(before.occupied(q) == (on_border(size as int, q) || stands(done, q)));
                    if q.linear(size as int) == pl.pos.linear(size as int) {
                        lemma_linear_injective(size as int, q, pl.pos);
                    }
                    if stands(done, q) {
                        let k = choose|k: int| 0 <= k < done.len() && (#[trigger] done[k]).pos == q;
                        assert(next[k].pos == q);
                    }
                    if stands(next, q) && q != pl.pos {
                        let k = choose|k: int| 0 <= k < next.len() && (#[trigger] next[k]).pos == q;
                        assert(done[k].pos == q);
                    }
                }
            }
            i = i + 1;
        }
        proof {
            assert(players@.subrange(0, players@.len() as int) =~= players@);
            if size >= 2 && placed(size as int, players@) {
                let b = cb@;
                assert forall|k: int|
                    0 <= k < b.players.len() && live(#[trigger] b.players[k]) implies interior(
                    b.size,
                    b.players[k].pos,
                ) && b.occupied(b.players[k].pos) by {
                    assert(k < players@.len());
                    assert(b.players[k] == players@[k]);
                    assert(stands(players@, players@[k].pos));
                }
                assert forall|k: int, j: int|
                    0 <= k < j < b.players.len() && live(#[trigger] b.players[j]) implies live(
                    #[trigger] b.players[k],
                ) && b.players[k].pos != b.players[j].pos by {
                    assert(j < players@.len());
                    assert(b.players[k] == players@[k]);
                    assert(b.players[j] == players@[j]);
                }
            }
        }
        cb
    }

    /// The pieces on the board, in roster order.
    pub fn players(&self) -> (v: Vec<Player>)
        ensures
            v@ == self@.live_players(MAX_NUM_PLAYERS as int),
    {
        let mut v: Vec<Player> = Vec::new();
        let mut i: usize = 0;
        while i < MAX_NUM_PLAYERS
            invariant
                i <= MAX_NUM_PLAYERS,
                v@ == self@.live_players(i as int),
            decreases MAX_NUM_PLAYERS - i,
        {
            let p = self.players_array[i];
            if p.pos.row != 0 || p.pos.col != 0 {
                v.push(p);
            }
            i = i + 1;
        }
        v
    }

    /// The team of the first piece in the roster that stands on `pos`.
    pub fn piece_on(&self, pos: Pos) -> (t: Option<Team>)
        ensures
            t == self@.piece_at(pos, MAX_NUM_PLAYERS as int),
    {
        let mut found: Option<Team> = None;
        let mut i: usize = 0;
        while i < MAX_NUM_PLAYERS
            invariant
                i <= MAX_NUM_PLAYERS,
                found == self@.piece_at(pos, i as int),
            decreases MAX_NUM_PLAYERS - i,
        {
            let p = self.players_array[i];
            if found.is_none() && (p.pos.row != 0 || p.pos.col != 0) && p.pos == pos {
                found = Some(p.team);
            }
            i = i + 1;
        }
        found
    }

    /// Draws the board: one character per cell, a line per row.
    pub fn pprint(&self) -> (s: String)
        requires
            self@.shaped(),
        ensures
            s@ == self@.drawing(self@.size),
    {
        let mut s = String::new();
        let size = self.board_size;
        let mut r: i8 = 0;
        while r < size
            invariant
                0 <= r <= size,
                size == self@.size,
                self@.shaped(),
                s@ == self@.drawing(r as int),
            decreases size - r,
        {
            let ghost line = s@;
            let mut c: i8 = 0;
            while c < size
                invariant
                    0 <= r < size,
                    0 <= c <= size,
                    size == self@.size,
                    self@.shaped(),
                    s@ == line + self@.row_drawing(r as int, c as int),
                decreases size - c,
            {
                let pos = Pos { row: r, col: c };
                let wall = self.wall_at(pos);
                let ch = match self.piece_on(pos) {
                    Some(t) => {
                        if wall {
                            if t == Team::Blue {
                                'B'
                            } else {
                                'W'
                            }
                        } else {
                            if t == Team::Blue {
                                'b'
                            } else {
                                'w'
                            }
                        }
                    },
                    None => {
                        if wall {
                            '#'
                        } else {
                            '.'
                        }
                    },
                };
                string_push(&mut s, ch);
                c = c + 1;
                proof {
                    assert(s@ =~= line + self@.row_drawing(r as int, c as int));
                }
            }
            string_push(&mut s, '\n');
            r = r + 1;
            proof {
                assert(s@ =~= self@.drawing(r as int));
            }
        }
        s
    }

    /// The player in roster slot `ix`, live or not.
    pub fn roster_slot(&self, ix: usize) -> (p: Player)
        requires
            ix < MAX_NUM_PLAYERS,
        ensures
            p == self@.players[ix as int],
    {
        self.players_array[ix]
    }

    /// Sets the occupancy bit of a cell.
    pub fn wall_set(&mut self, p: Pos, val: bool)
        requires
            old(self)@.shaped(),
            in_grid(old(self)@.size, p),
        ensures
            final(self)@ == old(self)@.with_wall(p, val),
            final(self)@.shaped(),
    {
        proof {
            lemma_linear_bound(self.board_size as int, p);
        }
        let i = p.to_linear(self.board_size);
        bits_set(&mut self.walls, i as u64, val);
    }

    /// Whether a cell is a wall, an arrow or holds a piece.
    pub fn wall_at(&self, p: Pos) -> (b: bool)
        requires
            self@.shaped(),
            in_grid(self@.size, p),
        ensures
            b == self@.occupied(p),
    {
        proof {
            lemma_linear_bound(self.board_size as int, p);
        }
        let i = p.to_linear(self.board_size);
        bits_get(&self.walls, i as u64)
    }

    /// Carries out the move without checking it.
    pub fn apply_move(&mut self, mv: &CompactMove)
        requires
            old(self)@.shaped(),
            in_grid(old(self)@.size, mv.old_pos),
            in_grid(old(self)@.size, mv.new_pos),
            in_grid(old(self)@.size, mv.new_shot),
            mv.player_ix < MAX_NUM_PLAYERS,
        ensures
            final(self)@ == old(self)@.apply(*mv),
    {
        self.wall_set(mv.old_pos, false);
        self.wall_set(mv.new_pos, true);
        self.wall_set(mv.new_shot, true);
        let team = self.players_array[mv.player_ix].team;
        self.players_array[mv.player_ix] = Player { team, pos: mv.new_pos };
    }

    /// Takes the move back.
    pub fn un_apply_move(&mut self, mv: &CompactMove)
        requires
            old(self)@.shaped(),
            in_grid(old(self)@.size, mv.old_pos),
            in_grid(old(self)@.size, mv.new_pos),
            in_grid(old(self)@.size, mv.new_shot),
            mv.player_ix < MAX_NUM_PLAYERS,
        ensures
            final(self)@ == old(self)@.un_apply(*mv),
    {
        self.wall_set(mv.new_pos, false);
        self.wall_set(mv.new_shot, false);
        self.wall_set(mv.old_pos, true);
        let team = self.players_array[mv.player_ix].team;
        self.players_array[mv.player_ix] = Player { team, pos: mv.old_pos };
    }

    /// Every move open to `team`: for each of its pieces, each cell the
    /// piece reaches as a queen, and from there each cell an arrow reaches,
    /// the vacated origin not blocking the arrow.
    pub fn successors(&self, team: Team) -> (v: Vec<CompactMove>)
        requires
            self@.wf(),
        ensures
            v@ == self@.successors(team),
    {
        let mut out: Vec<CompactMove> = Vec::new();
        let mut pi: usize = 0;
        while pi < MAX_NUM_PLAYERS
            invariant
                pi <= MAX_NUM_PLAYERS,
                self@.wf(),
                out@ == self@.team_moves_upto(team, pi as int),
            decreases MAX_NUM_PLAYERS - pi,
        {
            let player = self.players_array[pi];
            if (player.pos.row != 0 || player.pos.col != 0) && player.team == team {
                let ghost base = out@;
                let dests = queen_range(self, player.pos, player.pos);
                let mut di: usize = 0;
                while di < dests.len()
                    invariant
                        di <= dests@.len(),
                        pi < MAX_NUM_PLAYERS,
                        self@.wf(),
                        player == self@.players[pi as int],
                        live(player),
                        dests@ == self@.queen_range(player.pos, player.pos),
                        forall|i: int|
                            0 <= i < dests@.len() ==> interior(self@.size, #[trigger] dests@[i]),
                        out@ == base + self@.player_moves_upto(pi as int, di as int),
                    decreases dests@.len() - di,
                {
                    let dest = dests[di];
                    let ghost mid = out@;
                    let shots = queen_range(self, dest, player.pos);
                    let mut si: usize = 0;
                    while si < shots.len()
                        invariant
                            si <= shots@.len(),
                            shots@ == self@.queen_range(dest, player.pos),
                            out@ == mid + Seq::new(
                                si as nat,
                                |i: int|
                                    CompactMove {
                                        player_ix: pi,
                                        old_pos: player.pos,
                                        new_pos: dest,
                                        new_shot: shots@[i],
                                    },
                            ),
                        decreases shots@.len() - si,
                    {
                        out.push(
                            CompactMove {
                                player_ix: pi,
                                old_pos: player.pos,
                                new_pos: dest,
                                new_shot: shots[si],
                            },
                        );
                        si = si + 1;
                        proof {
                            assert(out@ =~= mid + Seq::new(
                                si as nat,
                                |i: int|
                                    CompactMove {
                                        player_ix: pi,
                                        old_pos: player.pos,
                                        new_pos: dest,
                                        new_shot: shots@[i],
                                    },
                            ));
                        }
                    }
                    di = di + 1;
                    proof {
                        assert(out@ =~= mid + self@.shots(pi as int, dest));
                        assert(out@ =~= base + self@.player_moves_upto(pi as int, di as int));
                    }
                }
            }
            pi = pi + 1;
        }
        out
    }
}

} // verus!
