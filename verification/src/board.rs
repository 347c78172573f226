//! Teams, positions, moves and the grid board that a game is drawn from.

use vstd::prelude::*;
use crate::text::string_push;

verus! {

/// Red or Blue.
#[derive(Clone, Copy, Debug, PartialEq, Eq, Hash, Structural)]
pub enum Team {
    Red,
    Blue,
}

impl Team {
    /// The opposite team.
    pub open spec fn opponent(self) -> Team {
        match self {
            Team::Red => Team::Blue,
            Team::Blue => Team::Red,
        }
    }

    /// Both teams, the one that moves first in front.
    pub fn teams() -> (v: Vec<Team>)
        ensures
            v@ == seq![Team::Red, Team::Blue],
    {
        let mut v: Vec<Team> = Vec::new();
        v.push(Team::Red);
        v.push(Team::Blue);
        proof {
            assert(v@ =~= seq![Team::Red, Team::Blue]);
        }
        v
    }

    /// The opposite team.
    pub fn other(&self) -> (t: Team)
        ensures
            t == self.opponent(),
    {
        match self {
            Team::Red => Team::Blue,
            Team::Blue => Team::Red,
        }
    }
}

/// The absolute value of an integer.
pub open spec fn abs(x: int) -> int {
    if x < 0 {
        -x
    } else {
        x
    }
}

/// The coordinate reached from `x` after `k` single steps towards `y`,
/// standing still once `y` is reached.
pub open spec fn toward(x: int, y: int, k: int) -> int {
    if x <= y {
        if x + k <= y {
            x + k
        } else {
            y
        }
    } else {
        if x - k >= y {
            x - k
        } else {
            y
        }
    }
}

/// A cell of the grid, by row and column.
#[derive(Clone, Copy, Debug, PartialEq, Eq, Structural)]
pub struct Pos {
    pub row: i8,
    pub col: i8,
}

impl Pos {
    /// Whether the two positions share a row, a column or a diagonal.
    pub open spec fn aligned(self, other: Pos) -> bool {
        let dr = self.row - other.row;
        let dc = self.col - other.col;
        dr == 0 || dc == 0 || abs(dr) == abs(dc)
    }

    /// The number of single steps on the walk from `self` to `other`.
    pub open spec fn line_len(self, other: Pos) -> int {
        let dr = abs(other.row - self.row);
        let dc = abs(other.col - self.col);
        if dr >= dc {
            dr
        } else {
            dc
        }
    }

    /// The cell reached after `k` steps of the walk from `self` to `other`.
    pub open spec fn line_cell(self, other: Pos, k: int) -> Pos {
        Pos {
            row: toward(self.row as int, other.row as int, k) as i8,
            col: toward(self.col as int, other.col as int, k) as i8,
        }
    }

    /// The index of the cell in a row-major grid with `num_cols` columns.
    pub open spec fn linear(self, num_cols: int) -> int {
        self.row * num_cols + self.col
    }

    /// The position `dist` steps from `self` in direction `dir`.
    pub open spec fn offset(self, dir: (i8, i8), dist: int) -> Pos {
        Pos { row: (self.row + dist * dir.0) as i8, col: (self.col + dist * dir.1) as i8 }
    }

    /// Whether this position shares a row, a column or a diagonal with the other.
    pub fn in_a_line_with(&self, other: Pos) -> (b: bool)
        ensures
            b == self.aligned(other),
    {
        let dr: i16 = self.row as i16 - other.row as i16;
        let dc: i16 = self.col as i16 - other.col as i16;
        let ar: i16 = if dr < 0 { -dr } else { dr };
        let ac: i16 = if dc < 0 { -dc } else { dc };
        dr == 0 || dc == 0 || ar == ac
    }

    /// The walk from `self` to `other`: each step moves one cell towards
    /// `other` on both axes at once. The start is left out, the end is
    /// the last cell.
    pub fn along_line(&self, other: Pos) -> (v: Vec<Pos>)
        ensures
            v@.len() == self.line_len(other),
            forall|k: int| 0 <= k < v@.len() ==> #[trigger] v@[k] == self.line_cell(other, k + 1),
    {
        let mut v: Vec<Pos> = Vec::new();
        let mut walk: Pos = *self;
        while walk != other
            invariant
                0 <= v@.len() <= self.line_len(other),
                walk == self.line_cell(other, v@.len() as int),
                forall|k: int|
                    0 <= k < v@.len() ==> #[trigger] v@[k] == self.line_cell(other, k + 1),
            decreases self.line_len(other) - v@.len(),
        {
            if walk.col < other.col {
                walk.col = walk.col + 1;
            } else if walk.col > other.col {
                walk.col = walk.col - 1;
            }
            if walk.row < other.row {
                walk.row = walk.row + 1;
            } else if walk.row > other.row {
                walk.row = walk.row - 1;
            }
            v.push(walk);
        }
        v
    }

    /// The index of the cell in a row-major grid with `num_cols` columns.
    pub fn to_linear(&self, num_cols: i8) -> (i: usize)
        requires
            self.row >= 0,
            self.col >= 0,
            num_cols >= 0,
        ensures
            i == self.linear(num_cols as int),
    {
        assert(self.row * num_cols <= 127 * 127) by (nonlinear_arith)
            requires
                0 <= self.row <= 127,
                0 <= num_cols <= 127,
        ;
        assert(self.row * num_cols >= 0) by (nonlinear_arith)
            requires
                0 <= self.row,
                0 <= num_cols,
        ;
        self.row as usize * num_cols as usize + self.col as usize
    }

    /// The position `dist` steps from `self` in direction `dir`.
    pub fn with_offset(&self, dir: (i8, i8), dist: i8) -> (p: Pos)
        requires
            i8::MIN <= self.row + dist * dir.0 <= i8::MAX,
            i8::MIN <= self.col + dist * dir.1 <= i8::MAX,
        ensures
            p == self.offset(dir, dist as int),
    {
        assert(-128 * 128 <= dist * dir.0 <= 128 * 128) by (nonlinear_arith)
            requires
                -128 <= dist <= 127,
                -128 <= dir.0 <= 127,
        ;
        assert(-128 * 128 <= dist * dir.1 <= 128 * 128) by (nonlinear_arith)
            requires
                -128 <= dist <= 127,
                -128 <= dir.1 <= 127,
        ;
        let row: i32 = self.row as i32 + dist as i32 * dir.0 as i32;
        let col: i32 = self.col as i32 + dist as i32 * dir.1 as i32;
        Pos { row: row as i8, col: col as i8 }
    }
}

/// A piece: its team and where it stands.
///
/// A player at row 0, column 0 stands for an unused roster slot.
#[derive(Clone, Copy, Debug, PartialEq, Eq, Structural)]
pub struct Player {
    pub team: Team,
    pub pos: Pos,
}

/// A full turn: the piece leaves `old_pos`, lands on `new_pos` and shoots an
/// arrow to `new_shot`.
#[derive(Clone, Copy, Debug, PartialEq, Eq, Structural)]
pub struct Move {
    pub old_pos: Pos,
    pub new_pos: Pos,
    pub new_shot: Pos,
}

/// What a cell of the grid holds.
#[derive(Clone, Copy, Debug, PartialEq, Eq, Structural)]
pub enum BoardSlot {
    Empty,
    Wall,
    Piece(Team),
}

/// Whether `p` names a cell of a square grid with `n` rows.
pub open spec fn in_grid(n: int, p: Pos) -> bool {
    0 <= p.row < n && 0 <= p.col < n
}

/// Whether `p` lies on the outermost ring of a square grid with `n` rows.
pub open spec fn on_border(n: int, p: Pos) -> bool {
    in_grid(n, p) && (p.row == 0 || p.col == 0 || p.row == n - 1 || p.col == n - 1)
}

/// Whether `p` lies inside the outermost ring of a square grid with `n` rows.
pub open spec fn interior(n: int, p: Pos) -> bool {
    0 < p.row < n - 1 && 0 < p.col < n - 1
}

/// Whether the grid has a cell at `p`.
pub open spec fn has_cell(g: Seq<Seq<BoardSlot>>, p: Pos) -> bool {
    0 <= p.row < g.len() && 0 <= p.col < g[p.row as int].len()
}

/// Whether every row is as long as the grid is high.
pub open spec fn square(g: Seq<Seq<BoardSlot>>) -> bool {
    forall|r: int| 0 <= r < g.len() ==> (#[trigger] g[r]).len() == g.len()
}

/// What the grid holds at `p`.
pub open spec fn slot(g: Seq<Seq<BoardSlot>>, p: Pos) -> BoardSlot {
    g[p.row as int][p.col as int]
}

/// The grid with the cell at `p` replaced by `s`.
pub open spec fn set_slot(g: Seq<Seq<BoardSlot>>, p: Pos, s: BoardSlot) -> Seq<Seq<BoardSlot>> {
    g.update(p.row as int, g[p.row as int].update(p.col as int, s))
}

/// A playable grid: square, small enough for byte coordinates, and closed
/// in by a ring of walls.
pub open spec fn walled(g: Seq<Seq<BoardSlot>>) -> bool {
    &&& square(g)
    &&& 2 <= g.len() <= 127
    &&& forall|p: Pos| #[trigger] on_border(g.len() as int, p) ==> slot(g, p) == BoardSlot::Wall
}

/// Whether a queen may travel from `a` to `b`: the two are distinct and
/// aligned, and every cell after `a` up to and including `b` is empty.
/// The cell `blank` counts as empty whatever it holds.
pub open spec fn open_path(g: Seq<Seq<BoardSlot>>, a: Pos, b: Pos, blank: Pos) -> bool {
    &&& a != b
    &&& a.aligned(b)
    &&& forall|k: int|
        1 <= k <= a.line_len(b) ==> {
            let c = #[trigger] a.line_cell(b, k);
            c == blank || slot(g, c) == BoardSlot::Empty
        }
}

/// The grid after the move: the origin is vacated, the piece stands on the
/// destination, and the arrow's cell is a wall.
pub open spec fn grid_apply(g: Seq<Seq<BoardSlot>>, mv: Move) -> Seq<Seq<BoardSlot>> {
    set_slot(
        set_slot(set_slot(g, mv.old_pos, BoardSlot::Empty), mv.new_pos, slot(g, mv.old_pos)),
        mv.new_shot,
        BoardSlot::Wall,
    )
}

/// The grid with the move taken back: destination and arrow are cleared,
/// and what stood on the destination returns to the origin.
pub open spec fn grid_un_apply(g: Seq<Seq<BoardSlot>>, mv: Move) -> Seq<Seq<BoardSlot>> {
    set_slot(
        set_slot(set_slot(g, mv.new_pos, BoardSlot::Empty), mv.new_shot, BoardSlot::Empty),
        mv.old_pos,
        slot(g, mv.new_pos),
    )
}

/// Why a move was turned down.
#[derive(Clone, Copy, Debug, PartialEq, Eq, Structural)]
pub enum MoveError {
    /// A position of the move lies outside the grid.
    OutOfBounds,
    /// The destination is the origin.
    PieceDidNotMove,
    /// The arrow is aimed at the destination.
    ArrowOnPiece,
    /// Origin and destination share no row, column or diagonal.
    MoveNotAligned,
    /// Destination and arrow share no row, column or diagonal.
    ShotNotAligned,
    /// A wall or a piece stands between origin and destination, or on the destination.
    MoveBlocked,
    /// A wall or a piece other than the moving one stands between
    /// destination and arrow, or on the arrow's cell.
    ShotBlocked,
    /// The origin holds no piece.
    NoPiece,
    /// The piece on the origin belongs to the other team.
    WrongTeam,
}

impl MoveError {
    /// The reason in words.
    pub open spec fn text(self) -> Seq<char> {
        match self {
            MoveError::OutOfBounds => "a position of the move is outside the board"@,
            MoveError::PieceDidNotMove => "the piece must leave its square"@,
            MoveError::ArrowOnPiece => "the arrow cannot land on the piece that shot it"@,
            MoveError::MoveNotAligned => "the piece must move along a row, a column or a diagonal"@,
            MoveError::ShotNotAligned => "the arrow must fly along a row, a column or a diagonal"@,
            MoveError::MoveBlocked => "the way of the piece is blocked"@,
            MoveError::ShotBlocked => "the way of the arrow is blocked"@,
            MoveError::NoPiece => "there is no piece on the origin"@,
            MoveError::WrongTeam => "the piece on the origin belongs to the other team"@,
        }
    }

    /// The reason in words.
    pub fn message(&self) -> (s: String)
        ensures
            s@ == self.text(),
    {
        match self {
            MoveError::OutOfBounds => "a position of the move is outside the board".to_owned(),
            MoveError::PieceDidNotMove => "the piece must leave its square".to_owned(),
            MoveError::ArrowOnPiece => "the arrow cannot land on the piece that shot it".to_owned(),
            MoveError::MoveNotAligned => "the piece must move along a row, a column or a diagonal".to_owned(),
            MoveError::ShotNotAligned => "the arrow must fly along a row, a column or a diagonal".to_owned(),
            MoveError::MoveBlocked => "the way of the piece is blocked".to_owned(),
            MoveError::ShotBlocked => "the way of the arrow is blocked".to_owned(),
            MoveError::NoPiece => "there is no piece on the origin".to_owned(),
            MoveError::WrongTeam => "the piece on the origin belongs to the other team".to_owned(),
        }
    }
}

/// The verdict on a move of `team`: `Ok` if the rules allow it, else the
/// first rule that it breaks, in the order of [`MoveError`].
pub open spec fn check_move(g: Seq<Seq<BoardSlot>>, team: Team, mv: Move) -> Result<(), MoveError> {
    let n = g.len() as int;
    if !(in_grid(n, mv.old_pos) && in_grid(n, mv.new_pos) && in_grid(n, mv.new_shot)) {
        Err(MoveError::OutOfBounds)
    } else if mv.old_pos == mv.new_pos {
        Err(MoveError::PieceDidNotMove)
    } else if mv.new_pos == mv.new_shot {
        Err(MoveError::ArrowOnPiece)
    } else if !mv.old_pos.aligned(mv.new_pos) {
        Err(MoveError::MoveNotAligned)
    } else if !mv.new_pos.aligned(mv.new_shot) {
        Err(MoveError::ShotNotAligned)
    } else if !open_path(g, mv.old_pos, mv.new_pos, mv.old_pos) {
        Err(MoveError::MoveBlocked)
    } else if !open_path(g, mv.new_pos, mv.new_shot, mv.old_pos) {
        Err(MoveError::ShotBlocked)
    } else {
        match slot(g, mv.old_pos) {
            BoardSlot::Piece(t) => if t == team {
                Ok(())
            } else {
                Err(MoveError::WrongTeam)
            },
            _ => Err(MoveError::NoPiece),
        }
    }
}

/// What the starting layout holds at row `r`, column `c`: a ring of walls
/// around eight by eight cells, two red pieces in row 3 and two blue ones
/// in row 6.
pub open spec fn standard_slot(r: int, c: int) -> BoardSlot {
    if r == 0 || c == 0 || r == 9 || c == 9 {
        BoardSlot::Wall
    } else if r == 3 && (c == 3 || c == 6) {
        BoardSlot::Piece(Team::Red)
    } else if r == 6 && (c == 3 || c == 6) {
        BoardSlot::Piece(Team::Blue)
    } else {
        BoardSlot::Empty
    }
}

/// The starting layout.
pub open spec fn standard_grid() -> Seq<Seq<BoardSlot>> {
    Seq::new(10, |r: int| Seq::new(10, |c: int| standard_slot(r, c)))
}

/// The length of the longest of the first `n` rows.
pub open spec fn widest(g: Seq<Seq<BoardSlot>>, n: int) -> int
    decreases n,
{
    if n <= 0 {
        0
    } else {
        let w = widest(g, n - 1);
        if g[n - 1].len() > w {
            g[n - 1].len() as int
        } else {
            w
        }
    }
}

/// The side of the smallest square that holds the grid.
pub open spec fn extent(g: Seq<Seq<BoardSlot>>) -> int {
    let w = widest(g, g.len() as int);
    if g.len() >= w {
        g.len() as int
    } else {
        w
    }
}

/// The character that stands for a slot in a drawing.
pub open spec fn slot_char(s: BoardSlot) -> char {
    match s {
        BoardSlot::Empty => '.',
        BoardSlot::Wall => '#',
        BoardSlot::Piece(Team::Red) => 'R',
        BoardSlot::Piece(Team::Blue) => 'B',
    }
}

/// The drawing of the first `n` rows: one character per slot, each row
/// closed by a line feed.
pub open spec fn drawing(g: Seq<Seq<BoardSlot>>, n: int) -> Seq<char>
    decreases n,
{
    if n <= 0 {
        Seq::empty()
    } else {
        drawing(g, n - 1) + g[n - 1].map_values(|s: BoardSlot| slot_char(s)).push('\n')
    }
}

/// The pieces among the first `n` cells of row `r`, left to right.
pub open spec fn row_roster(g: Seq<Seq<BoardSlot>>, r: int, n: int) -> Seq<Player>
    decreases n,
{
    if n <= 0 {
        Seq::empty()
    } else {
        let prev = row_roster(g, r, n - 1);
        match g[r][n - 1] {
            BoardSlot::Piece(t) => prev.push(
                Player { team: t, pos: Pos { row: r as i8, col: (n - 1) as i8 } },
            ),
            _ => prev,
        }
    }
}

/// The pieces in the first `n` rows, row by row and left to right.
pub open spec fn grid_roster(g: Seq<Seq<BoardSlot>>, n: int) -> Seq<Player>
    decreases n,
{
    if n <= 0 {
        Seq::empty()
    } else {
        grid_roster(g, n - 1) + row_roster(g, n - 1, g.len() as int)
    }
}

/// All pieces of a square grid, row by row and left to right.
pub open spec fn roster(g: Seq<Seq<BoardSlot>>) -> Seq<Player> {
    grid_roster(g, g.len() as int)
}

/// The board as a grid of slots, border included.
#[derive(Debug, PartialEq, Eq)]
pub struct Board {
    pub board: Vec<Vec<BoardSlot>>,
}

impl Clone for Board {
    fn clone(&self) -> (b: Board)
        ensures
            b@ == self@,
    {
        let mut rows: Vec<Vec<BoardSlot>> = Vec::new();
        let mut r: usize = 0;
        while r < self.board.len()
            invariant
                r <= self.board@.len(),
                rows@.len() == r,
                forall|i: int| 0 <= i < r ==> (#[trigger] rows@[i])@ == self.board@[i]@,
            decreases self.board@.len() - r,
        {
            let src = &self.board[r];
            let mut row: Vec<BoardSlot> = Vec::new();
            let mut c: usize = 0;
            while c < src.len()
                invariant
                    c <= src@.len(),
                    row@.len() == c,
                    forall|j: int| 0 <= j < c ==> #[trigger] row@[j] == src@[j],
                decreases src@.len() - c,
            {
                row.push(src[c]);
                c = c + 1;
            }
            proof {
                assert(row@ =~= src@);
            }
            rows.push(row);
            r = r + 1;
        }
        let b = Board { board: rows };
        proof {
            assert(b@ =~~= self@);
        }
        b
    }
}

impl View for Board {
    type V = Seq<Seq<BoardSlot>>;

    open spec fn view(&self) -> Seq<Seq<BoardSlot>> {
        Seq::new(self.board@.len(), |r: int| self.board@[r]@)
    }
}

impl Board {
    /// The starting layout: ten by ten with the wall ring, two red and two
    /// blue pieces.
    pub fn new() -> (b: Board)
        ensures
            b@ == standard_grid(),
    {
        let mut rows: Vec<Vec<BoardSlot>> = Vec::new();
        let mut r: usize = 0;
        while r < 10
            invariant
                r <= 10,
                rows@.len() == r,
                forall|i: int|
                    0 <= i < r ==> (#[trigger] rows@[i])@ == Seq::new(
                        10,
                        |c: int| standard_slot(i, c),
                    ),
            decreases 10 - r,
        {
            let mut row: Vec<BoardSlot> = Vec::new();
            let mut c: usize = 0;
            while c < 10
                invariant
                    r < 10,
                    c <= 10,
                    row@.len() == c,
                    forall|j: int| 0 <= j < c ==> #[trigger] row@[j] == standard_slot(r as int, j),
                decreases 10 - c,
            {
                let s = if r == 0 || c == 0 || r == 9 || c == 9 {
                    BoardSlot::Wall
                } else if r == 3 && (c == 3 || c == 6) {
                    BoardSlot::Piece(Team::Red)
                } else if r == 6 && (c == 3 || c == 6) {
                    BoardSlot::Piece(Team::Blue)
                } else {
                    BoardSlot::Empty
                };
                row.push(s);
                c = c + 1;
            }
            proof {
                assert(row@ =~= Seq::new(10, |c: int| standard_slot(r as int, c)));
            }
            rows.push(row);
            r = r + 1;
        }
        let b = Board { board: rows };
        proof {
            assert(b@ =~~= standard_grid());
        }
        b
    }

    /// Draws the board: one character per slot, a line per row.
    pub fn pprint(&self) -> (s: String)
        ensures
            s@ == drawing(self@, self@.len() as int),
    {
        let mut s = String::new();
        let mut r: usize = 0;
        while r < self.board.len()
            invariant
                r <= self.board@.len(),
                s@ == drawing(self@, r as int),
            decreases self.board@.len() - r,
        {
            let ghost line = s@;
            let row = &self.board[r];
            let mut c: usize = 0;
            while c < row.len()
                invariant
                    c <= row@.len(),
                    s@ == line + row@.map_values(|x: BoardSlot| slot_char(x)).subrange(0, c as int),
                decreases row@.len() - c,
            {
                let ch = match row[c] {
                    BoardSlot::Empty => '.',
                    BoardSlot::Wall => '#',
                    BoardSlot::Piece(Team::Red) => 'R',
                    BoardSlot::Piece(Team::Blue) => 'B',
                };
                string_push(&mut s, ch);
                c = c + 1;
                proof {
                    assert(s@ =~= line + row@.map_values(|x: BoardSlot| slot_char(x)).subrange(
                        0,
                        c as int,
                    ));
                }
            }
            string_push(&mut s, '\n');
            r = r + 1;
            proof {
                assert(self@[r - 1] == row@);
                assert(s@ =~= drawing(self@, r as int));
            }
        }
        s
    }

    /// The side of the smallest square that holds the board.
    pub fn size(&self) -> (n: usize)
        ensures
            n == extent(self@),
    {
        let mut w: usize = 0;
        let mut r: usize = 0;
        while r < self.board.len()
            invariant
                r <= self.board@.len(),
                w == widest(self@, r as int),
            decreases self.board@.len() - r,
        {
            if self.board[r].len() > w {
                w = self.board[r].len();
            }
            r = r + 1;
        }
        if self.board.len() >= w {
            self.board.len()
        } else {
            w
        }
    }

    /// How many pieces stand on the board.
    pub fn piece_count(&self) -> (n: usize)
        requires
            square(self@),
            self@.len() <= 127,
        ensures
            n == roster(self@).len(),
    {
        let side = self.board.len();
        let mut n: usize = 0;
        let mut r: usize = 0;
        while r < side
            invariant
                r <= side,
                side == self@.len(),
                side <= 127,
                square(self@),
                n == grid_roster(self@, r as int).len(),
                n <= r * 127,
            decreases side - r,
        {
            let row = &self.board[r];
            assert(row@ == self@[r as int]);
            assert(row@.len() == side);
            let mut c: usize = 0;
            while c < side
                invariant
                    r < side,
                    c <= side,
                    side == self@.len(),
                    side <= 127,
                    row@ == self@[r as int],
                    row@.len() == side,
                    n == grid_roster(self@, r as int).len() + row_roster(
                        self@,
                        r as int,
                        c as int,
                    ).len(),
                    n <= r * 127 + c,
                decreases side - c,
            {
                match row[c] {
                    BoardSlot::Piece(_) => {
                        n = n + 1;
                    },
                    _ => {},
                }
                c = c + 1;
            }
            r = r + 1;
        }
        n
    }

    /// What the cell at `pos` holds.
    pub fn get(&self, pos: Pos) -> (s: BoardSlot)
        requires
            has_cell(self@, pos),
        ensures
            s == slot(self@, pos),
    {
        self.board[pos.row as usize][pos.col as usize]
    }

    /// Whether a queen may travel from `start` to `end`, the cell `blank`
    /// counting as empty.
    pub fn path_open(&self, start: Pos, end: Pos, blank: Pos) -> (b: bool)
        requires
            square(self@),
            in_grid(self@.len() as int, start),
            in_grid(self@.len() as int, end),
        ensures
            b == open_path(self@, start, end, blank),
    {
        if !start.in_a_line_with(end) {
            return false;
        }
        if start == end {
            return false;
        }
        let cells = start.along_line(end);
        let mut i: usize = 0;
        while i < cells.len()
            invariant
                i <= cells@.len(),
                square(self@),
                in_grid(self@.len() as int, start),
                in_grid(self@.len() as int, end),
                cells@.len() == start.line_len(end),
                forall|k: int|
                    0 <= k < cells@.len() ==> #[trigger] cells@[k] == start.line_cell(end, k + 1),
                forall|k: int|
                    1 <= k <= i ==> {
                        let c = #[trigger] start.line_cell(end, k);
                        c == blank || slot(self@, c) == BoardSlot::Empty
                    },
            decreases cells@.len() - i,
        {
            let c = cells[i];
            assert(c == start.line_cell(end, i + 1));
            if c != blank {
                match self.get(c) {
                    BoardSlot::Empty => {},
                    _ => {
                        return false;
                    },
                }
            }
            i = i + 1;
        }
        true
    }

    /// Whether a queen may travel from `start` to `end`: the two are
    /// distinct and aligned, and every cell after `start` up to and
    /// including `end` is empty. The board is left as it was.
    pub fn open_line_along(&mut self, start: Pos, end: Pos) -> (b: bool)
        requires
            square(old(self)@),
            in_grid(old(self)@.len() as int, start),
            in_grid(old(self)@.len() as int, end),
        ensures
            b == open_path(old(self)@, start, end, start),
            final(self)@ == old(self)@,
    {
        self.path_open(start, end, start)
    }

    /// The verdict on a move of `team`, without carrying it out.
    pub fn check(&self, team: Team, mv: Move) -> (r: Result<(), MoveError>)
        requires
            square(self@),
            self@.len() <= 127,
        ensures
            r == check_move(self@, team, mv),
    {
        if !(self.holds(mv.old_pos) && self.holds(mv.new_pos) && self.holds(mv.new_shot)) {
            return Err(MoveError::OutOfBounds);
        }
        if mv.old_pos == mv.new_pos {
            return Err(MoveError::PieceDidNotMove);
        }
        if mv.new_pos == mv.new_shot {
            return Err(MoveError::ArrowOnPiece);
        }
        if !mv.old_pos.in_a_line_with(mv.new_pos) {
            return Err(MoveError::MoveNotAligned);
        }
        if !mv.new_pos.in_a_line_with(mv.new_shot) {
            return Err(MoveError::ShotNotAligned);
        }
        if !self.path_open(mv.old_pos, mv.new_pos, mv.old_pos) {
            return Err(MoveError::MoveBlocked);
        }
        if !self.path_open(mv.new_pos, mv.new_shot, mv.old_pos) {
            return Err(MoveError::ShotBlocked);
        }
        match self.get(mv.old_pos) {
            BoardSlot::Piece(t) => if t == team {
                Ok(())
            } else {
                Err(MoveError::WrongTeam)
            },
            _ => Err(MoveError::NoPiece),
        }
    }

    /// Whether `p` names a cell of the board.
    pub fn holds(&self, p: Pos) -> (b: bool)
        requires
            square(self@),
            self@.len() <= 127,
        ensures
            b == in_grid(self@.len() as int, p),
    {
        let n = self.board.len();
        p.row >= 0 && p.col >= 0 && (p.row as usize) < n && (p.col as usize) < n
    }

    /// Carries out a move of `team` if the rules allow it, and says why
    /// not if they do not. A move that is turned down leaves the board as
    /// it was.
    pub fn checked_move(&mut self, team: Team, mv: Move) -> (r: Result<(), MoveError>)
        requires
            square(old(self)@),
            old(self)@.len() <= 127,
        ensures
            r == check_move(old(self)@, team, mv),
            r is Ok ==> final(self)@ == grid_apply(old(self)@, mv),
            r is Err ==> final(self)@ == old(self)@,
    {
        let r = self.check(team, mv);
        if r.is_ok() {
            self.apply_move(mv);
        }
        r
    }

    /// The cell at `pos`, for reading and writing.
    pub fn at(&mut self, pos: Pos) -> (s: &mut BoardSlot)
        requires
            has_cell(old(self)@, pos),
        ensures
            *s == slot(old(self)@, pos),
            final(self)@ == set_slot(old(self)@, pos, *final(s)),
    {
        &mut self.board[pos.row as usize][pos.col as usize]
    }

    /// Carries out the move without checking it.
    pub fn apply_move(&mut self, mv: Move)
        requires
            has_cell(old(self)@, mv.old_pos),
            has_cell(old(self)@, mv.new_pos),
            has_cell(old(self)@, mv.new_shot),
        ensures
            final(self)@ == grid_apply(old(self)@, mv),
    {
        let t = *self.at(mv.old_pos);
        assert(self@ =~~= old(self)@);
        *self.at(mv.old_pos) = BoardSlot::Empty;
        *self.at(mv.new_pos) = t;
        *self.at(mv.new_shot) = BoardSlot::Wall;
    }

    /// Takes the move back: clears the destination and the arrow, then puts
    /// what stood on the destination back on the origin.
    pub fn un_apply_move(&mut self, mv: Move)
        requires
            has_cell(old(self)@, mv.old_pos),
            has_cell(old(self)@, mv.new_pos),
            has_cell(old(self)@, mv.new_shot),
        ensures
            final(self)@ == grid_un_apply(old(self)@, mv),
    {
        let t = *self.at(mv.new_pos);
        assert(self@ =~~= old(self)@);
        *self.at(mv.new_pos) = BoardSlot::Empty;
        *self.at(mv.new_shot) = BoardSlot::Empty;
        *self.at(mv.old_pos) = t;
    }

    /// Exchanges what the two cells hold.
    pub fn swap_pos(&mut self, a: Pos, b: Pos)
        requires
            has_cell(old(self)@, a),
            has_cell(old(self)@, b),
        ensures
            final(self)@ == set_slot(
                set_slot(old(self)@, a, slot(old(self)@, b)),
                b,
                slot(old(self)@, a),
            ),
    {
        let x = *self.at(a);
        assert(self@ =~~= old(self)@);
        let y = *self.at(b);
        assert(self@ =~~= old(self)@);
        *self.at(a) = y;
        *self.at(b) = x;
    }
}

} // verus!
