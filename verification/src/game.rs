//! A game in progress: the board, whose turn it is, and the moves that can
//! still be taken back.

use vstd::prelude::*;
use crate::algo::min_max;
use crate::board::{
    check_move, grid_apply, grid_un_apply, interior, on_border, roster, square, standard_grid,
    walled,
    Board, BoardSlot, Move, MoveError, Pos, Team,
};
use crate::compact_board::{packs, CompactBoard, CompactMove, Packed, MAX_NUM_PLAYERS};
use crate::evaluate::DistState;
use crate::moves::{
    lemma_grid_round_trip, lemma_legal_interior, lemma_legal_listed, lemma_move_cells,
    lemma_no_piece_no_move,
    lemma_move_legal, lemma_successor_ok,
};
use crate::pieces::{lemma_grid_apply_keeps, lemma_grid_un_apply_keeps, lemma_standard_grid};

verus! {

/// How many entries the history keeps; older ones are dropped.
pub const HISTORY_CAP: usize = 100;

/// How many plies deep the computer looks.
pub const SEARCH_DEPTH: i32 = 3;

/// One entry of the history.
pub enum HistoryMove {
    /// A new game was started with this board.
    NewGame(Board),
    /// This move was made.
    Move(Move),
}

/// One entry of the history, as mathematics.
pub enum Recorded {
    NewGame(Seq<Seq<BoardSlot>>),
    Move(Move),
}

impl View for HistoryMove {
    type V = Recorded;

    open spec fn view(&self) -> Recorded {
        match self {
            HistoryMove::NewGame(b) => Recorded::NewGame(b@),
            HistoryMove::Move(m) => Recorded::Move(*m),
        }
    }
}

/// A game as mathematics: whose turn it is, the grid, and the history with
/// the latest entry last.
pub struct Game {
    pub turn: Team,
    pub board: Seq<Seq<BoardSlot>>,
    pub history: Seq<Recorded>,
}

/// The history with one more entry, cut back to the latest hundred.
pub open spec fn push_capped(h: Seq<Recorded>, e: Recorded) -> Seq<Recorded> {
    let t = h.push(e);
    if t.len() > HISTORY_CAP {
        t.subrange(t.len() - HISTORY_CAP, t.len() as int)
    } else {
        t
    }
}

impl Game {
    /// The game after a new start: the starting layout, Red to move, and a
    /// snapshot of the fresh board on the history.
    pub open spec fn restarted(self) -> Game {
        Game {
            turn: Team::Red,
            board: standard_grid(),
            history: push_capped(self.history, Recorded::NewGame(standard_grid())),
        }
    }

    /// The game after the move: the board changed, the move recorded, the
    /// turn passed on.
    pub open spec fn moved(self, mv: Move) -> Game {
        Game {
            turn: self.turn.opponent(),
            board: grid_apply(self.board, mv),
            history: push_capped(self.history, Recorded::Move(mv)),
        }
    }

    /// The game with the latest history entry taken back: a move is undone
    /// on the board, a snapshot replaces the board. With an empty history
    /// the game stays as it is. The turn is not touched.
    pub open spec fn undone(self) -> Game {
        if self.history.len() == 0 {
            self
        } else {
            Game {
                turn: self.turn,
                board: match self.history.last() {
                    Recorded::NewGame(g) => g,
                    Recorded::Move(m) => grid_un_apply(self.board, m),
                },
                history: self.history.drop_last(),
            }
        }
    }

    /// The game after `n` entries have been taken back one by one.
    pub open spec fn undone_times(self, n: nat) -> Game
        decreases n,
    {
        if n == 0 {
            self
        } else {
            self.undone_times((n - 1) as nat).undone()
        }
    }
}

/// The history never grows past its cap: one more entry makes it one
/// longer, or leaves it at the cap.
pub proof fn lemma_history_capped(h: Seq<Recorded>, e: Recorded)
    requires
        h.len() <= HISTORY_CAP,
    ensures
        push_capped(h, e).len() == if h.len() < HISTORY_CAP {
            h.len() + 1
        } else {
            HISTORY_CAP as nat
        },
        push_capped(h, e).last() == e,
        h.len() < HISTORY_CAP ==> push_capped(h, e).drop_last() == h,
{
    if h.len() < HISTORY_CAP {
        assert(push_capped(h, e).drop_last() =~= h);
    }
}

/// Taking back a move that the rules allowed right after it was made
/// restores the board as it was before the move, and the history too
/// unless recording the move pushed the oldest entry out.
pub proof fn lemma_move_then_undo(g: Game, mv: Move)
    requires
        square(g.board),
        g.history.len() <= HISTORY_CAP,
        check_move(g.board, g.turn, mv) is Ok,
    ensures
        g.moved(mv).undone().board == g.board,
        g.history.len() < HISTORY_CAP ==> g.moved(mv).undone().history == g.history,
{
    lemma_history_capped(g.history, Recorded::Move(mv));
    lemma_grid_round_trip(g.board, g.turn, mv);
}

/// After a new start and one allowed move, taking back twice leads back to
/// the starting layout: first the move is undone, then the snapshot of the
/// new game is restored.
pub proof fn lemma_new_game_move_undo_undo(g: Game, mv: Move)
    requires
        g.history.len() <= HISTORY_CAP,
        check_move(standard_grid(), Team::Red, mv) is Ok,
    ensures
        g.restarted().moved(mv).undone().board == standard_grid(),
        g.restarted().moved(mv).undone().undone().board == standard_grid(),
{
    let s = g.restarted();
    lemma_history_capped(g.history, Recorded::NewGame(standard_grid()));
    lemma_history_capped(s.history, Recorded::Move(mv));
    lemma_standard_grid();
    lemma_grid_round_trip(standard_grid(), Team::Red, mv);
    let m = s.moved(mv);
    let u = m.undone();
    if s.history.len() < HISTORY_CAP {
        assert(u.history == s.history);
        assert(u.history.last() == Recorded::NewGame(standard_grid()));
    } else {
        let t = s.history.push(Recorded::Move(mv));
        assert(m.history == t.subrange(t.len() - HISTORY_CAP, t.len() as int));
        assert(u.history.len() == HISTORY_CAP - 1);
        assert(u.history.last() == m.history[HISTORY_CAP - 2]);
        assert(m.history[HISTORY_CAP - 2] == t[t.len() - 2]);
        assert(t[t.len() - 2] == s.history.last());
    }
}

/// Taking back as many entries as the history holds, or more, empties it;
/// from then on taking back changes nothing. With the cap on the history
/// that is after a hundred entries at most.
pub proof fn lemma_undo_exhausts(g: Game, n: nat)
    requires
        n >= g.history.len(),
    ensures
        g.undone_times(n).history.len() == 0,
        g.undone_times(n + 1) == g.undone_times(n),
{
    lemma_undo_len(g, n);
}

proof fn lemma_undo_len(g: Game, n: nat)
    ensures
        g.undone_times(n).history.len() == if n >= g.history.len() {
            0
        } else {
            g.history.len() - n
        },
    decreases n,
{
    if n > 0 {
        lemma_undo_len(g, (n - 1) as nat);
    }
}

/// The move without its roster slot, if there is one.
pub open spec fn as_move(o: Option<CompactMove>) -> Option<Move> {
    match o {
        Some(cm) => Some(cm.to_move()),
        None => None,
    }
}

/// Whether a history entry fits a board of side ten: a move runs between
/// inner cells, a snapshot is a walled grid with no more pieces than the
/// roster holds.
pub open spec fn entry_fits(e: Recorded) -> bool {
    match e {
        Recorded::NewGame(g) => walled(g) && g.len() == 10 && roster(g).len() <= MAX_NUM_PLAYERS,
        Recorded::Move(m) => interior(10, m.old_pos) && interior(10, m.new_pos) && interior(
            10,
            m.new_shot,
        ),
    }
}

/// Data structures for amazon simulation, history-tracking, and AI.
pub struct Amazons {
    turn: Team,
    current: Board,
    history: Vec<HistoryMove>,
    cache: DistState,
}

impl View for Amazons {
    type V = Game;

    closed spec fn view(&self) -> Game {
        Game {
            turn: self.turn,
            board: self.current@,
            history: Seq::new(self.history@.len(), |i: int| self.history@[i]@),
        }
    }
}

impl Amazons {
    /// What every session keeps: a walled board of side ten with no more
    /// pieces than the roster holds, and a history within its cap whose
    /// entries fit that board.
    pub closed spec fn wf(&self) -> bool {
        &&& walled(self.current@)
        &&& self.current@.len() == 10
        &&& roster(self.current@).len() <= MAX_NUM_PLAYERS
        &&& self.history@.len() <= HISTORY_CAP
        &&& forall|i: int| 0 <= i < self.history@.len() ==> entry_fits(#[trigger] self.history@[i]@)
    }

    /// What a session in good order shows to the outside: a walled board
    /// of side ten with at most four pieces, and a history within its cap.
    pub proof fn lemma_wf(&self)
        requires
            self.wf(),
        ensures
            walled(self@.board),
            self@.board.len() == 10,
            roster(self@.board).len() <= MAX_NUM_PLAYERS,
            self@.history.len() <= HISTORY_CAP,
    {
    }

    /// A session with the starting layout, Red to move and nothing to take back.
    pub fn new() -> (s: Amazons)
        ensures
            s.wf(),
            s@ == (Game { turn: Team::Red, board: standard_grid(), history: Seq::empty() }),
    {
        proof {
            lemma_standard_grid();
        }
        let s = Amazons {
            turn: Team::Red,
            current: Board::new(),
            history: Vec::new(),
            cache: DistState::new(),
        };
        proof {
            assert(s@.history =~= Seq::empty());
        }
        s
    }

    /// Whose turn it is.
    pub fn turn(&self) -> (t: Team)
        ensures
            t == self@.turn,
    {
        self.turn
    }

    /// The board as it stands.
    pub fn board(&self) -> (b: &Board)
        ensures
            b@ == self@.board,
    {
        &self.current
    }

    /// How many entries can be taken back.
    pub fn history_len(&self) -> (n: usize)
        requires
            self.wf(),
        ensures
            n == self@.history.len(),
            n <= HISTORY_CAP,
    {
        self.history.len()
    }

    fn record(&mut self, e: HistoryMove)
        requires
            old(self).wf(),
            entry_fits(e@),
        ensures
            final(self).wf(),
            final(self)@.turn == old(self)@.turn,
            final(self)@.board == old(self)@.board,
            final(self)@.history == push_capped(old(self)@.history, e@),
    {
        let ghost h0 = self@.history;
        if self.history.len() >= HISTORY_CAP {
            let _ = self.history.remove(0);
        }
        self.history.push(e);
        proof {
            assert(self@.history =~= push_capped(h0, e@));
        }
    }

    /// Starts over: the starting layout, Red to move, and a snapshot of the
    /// fresh board on the history.
    pub fn new_game(&mut self)
        requires
            old(self).wf(),
        ensures
            final(self).wf(),
            final(self)@ == old(self)@.restarted(),
    {
        proof {
            lemma_standard_grid();
        }
        self.turn = Team::Red;
        self.current = Board::new();
        self.record(HistoryMove::NewGame(Board::new()));
    }

    /// Takes back the latest entry of the history: a move is undone on the
    /// board, a snapshot replaces the board. With an empty history nothing
    /// happens. The turn stays as it is.
    pub fn undo_move(&mut self)
        requires
            old(self).wf(),
        ensures
            final(self).wf(),
            final(self)@ == old(self)@.undone(),
    {
        let ghost h0 = self@.history;
        let ghost g0 = self@.board;
        let n = self.history.len();
        if n == 0 {
            proof {
                assert(self@.history =~= h0);
            }
            return ;
        }
        assert(entry_fits(self.history@[n - 1]@));
        let last = self.history.pop();
        proof {
            assert(self@.history =~= h0.drop_last());
        }
        match last {
            Some(HistoryMove::NewGame(b)) => {
                self.current = b;
            },
            Some(HistoryMove::Move(m)) => {
                proof {
                    lemma_grid_un_apply_keeps(g0, m);
                }
                self.current.un_apply_move(m);
            },
            None => {},
        }
    }

    /// Makes a move for the team whose turn it is, if the rules allow it:
    /// the board changes, the move goes on the history and the turn passes
    /// on. A move that the rules turn down changes nothing.
    pub fn player_move(&mut self, mv: Move) -> (r: Result<(), MoveError>)
        requires
            old(self).wf(),
        ensures
            final(self).wf(),
            r == check_move(old(self)@.board, old(self)@.turn, mv),
            r is Ok ==> final(self)@ == old(self)@.moved(mv),
            r is Err ==> final(self)@ == old(self)@,
    {
        let ghost g0 = self@.board;
        let r = self.current.check(self.turn, mv);
        if r.is_ok() {
            proof {
                lemma_legal_interior(g0, self.turn, mv);
                lemma_grid_apply_keeps(g0, mv);
            }
            self.current.apply_move(mv);
            self.turn = self.turn.other();
            self.record(HistoryMove::Move(mv));
        }
        r
    }

    /// Lets the computer move for the team whose turn it is: it searches
    /// three plies deep on the packed board, makes the move it finds,
    /// records it and passes the turn on. Without a move for that team it
    /// returns nothing and changes nothing; that is so, too, on a board
    /// from which taking back has swept every piece.
    pub fn ai_move(&mut self) -> (r: Option<Move>)
        requires
            old(self).wf(),
        ensures
            final(self).wf(),
            roster(old(self)@.board).len() == 0 ==> r is None,
            roster(old(self)@.board).len() > 0 ==> exists|b: Packed|
                packs(b, old(self)@.board) && b.wf() && r == as_move(
                    #[trigger] b.best_move(old(self)@.turn, SEARCH_DEPTH as int).0,
                ),
            r is Some ==> check_move(old(self)@.board, old(self)@.turn, r->0) is Ok,
            r is Some ==> final(self)@ == old(self)@.moved(r->0),
            r is None <==> forall|mv: Move|
                !(#[trigger] check_move(old(self)@.board, old(self)@.turn, mv) is Ok),
            r is None ==> final(self)@ == old(self)@,
    {
        let ghost g0 = self@.board;
        let ghost h0 = self@.history;
        proof {
            assert(on_border(10, Pos { row: 0, col: 0 }));
        }
        if self.current.piece_count() == 0 {
            proof {
                assert(self@.history =~= h0);
                assert forall|mv: Move|
                    !(#[trigger] check_move(g0, self.turn, mv) is Ok) by {
                    if check_move(g0, self.turn, mv) is Ok {
                        lemma_no_piece_no_move(g0, self.turn, mv);
                    }
                }
            }
            return None;
        }
        let cb = CompactBoard::from_board(&self.current);
        let found = min_max(&mut self.cache, &cb, self.turn, SEARCH_DEPTH);
        proof {
            assert(self@.history =~= h0);
        }
        proof {
            if found.0 is None {
                assert forall|mv: Move|
                    !(#[trigger] check_move(g0, self.turn, mv) is Ok) by {
                    if check_move(g0, self.turn, mv) is Ok {
                        lemma_legal_listed(cb@, self.turn, mv);
                    }
                }
            }
        }
        match found.0 {
            Some(cm) => {
                let m = Move { old_pos: cm.old_pos, new_pos: cm.new_pos, new_shot: cm.new_shot };
                proof {
                    let i = choose|i: int|
                        0 <= i < cb@.successors(self.turn).len() && #[trigger] cb@.successors(
                            self.turn,
                        )[i] == cm;
                    lemma_successor_ok(cb@, self.turn, i);
                    lemma_move_cells(cb@, self.turn, cm);
                    lemma_move_legal(cb@, self.turn, cm);
                    lemma_grid_apply_keeps(g0, m);
                }
                self.current.apply_move(m);
                self.turn = self.turn.other();
                self.record(HistoryMove::Move(m));
                Some(m)
            },
            None => None,
        }
    }
}

} // verus!
