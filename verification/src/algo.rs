//! The move search: a best-response search of limited depth that looks
//! closer only at the moves the evaluator likes best.

use vstd::prelude::*;
use crate::board::Team;
use crate::compact_board::{CompactBoard, CompactMove, Packed};
use crate::evaluate::{evaluate_by_queen_bfs_distance, lemma_evaluate_bounds, DistState};
use crate::board::{check_move, Move};
use crate::moves::{
    lemma_apply_un_apply, lemma_move_cells, lemma_no_successor_iff_no_legal, lemma_successor_ok,
};
use crate::ranking::{lemma_top_n, ranked_get, ranked_len, ranked_view, top_n, top_n_spec};

verus! {

/// The score of a side that has no move: one above the least 64-bit
/// number, so that it can still be negated.
pub const LOSS: i64 = -9223372036854775807;

impl Packed {
    /// The best of the first `n` moves of `team` by the value of the
    /// resulting board for the other team: the move that leaves the other
    /// team the least, the first of them on a tie, with that value. Without
    /// a move the score is that of a loss.
    pub open spec fn best_reply_upto(self, team: Team, n: int) -> (Option<CompactMove>, int)
        decreases n,
    {
        if n <= 0 {
            (None, LOSS as int)
        } else {
            let prev = self.best_reply_upto(team, n - 1);
            let mv = self.successors(team)[n - 1];
            let e = self.apply(mv).evaluate(team.opponent());
            if prev.0 is None || e < prev.1 {
                (Some(mv), e)
            } else {
                prev
            }
        }
    }

    /// Every move of `team`, each with the value for `team` of the board
    /// it leads to.
    pub open spec fn scored(self, team: Team) -> Seq<(i64, CompactMove)> {
        Seq::new(
            self.successors(team).len(),
            |i: int|
                (self.apply(self.successors(team)[i]).evaluate(team) as i64, self.successors(team)[i]),
        )
    }

    /// The moves of `team` that the search looks at more closely.
    pub open spec fn top_moves(self, team: Team) -> Seq<(i64, CompactMove)> {
        top_n_spec(self.scored(team), self.scored(team).len() as int)
    }

    /// The best of the first `n` top moves of `team`, each judged by the
    /// negated score of the other team's answer at one depth less. A move
    /// replaces the best so far only if it is strictly better.
    pub open spec fn search_upto(self, team: Team, depth: int, n: int) -> (
        Option<CompactMove>,
        int,
    )
        decreases depth, 0int, n,
    {
        if n <= 0 || depth <= 1 {
            (None, LOSS as int)
        } else {
            let prev = self.search_upto(team, depth, n - 1);
            let mv = self.top_moves(team)[n - 1].1;
            let resp = self.apply(mv).best_move(team.opponent(), depth - 1).1;
            if prev.1 < -resp {
                (Some(mv), -resp)
            } else {
                prev
            }
        }
    }

    /// The move that the search picks for `team`, and its score. At depth 1
    /// or less it is the best reply by direct evaluation. At greater depth
    /// it is the best of the top moves by the negated score of the
    /// opponent's answer; if none of them beats a loss, the best reply by
    /// direct evaluation stands in.
    pub open spec fn best_move(self, team: Team, depth: int) -> (Option<CompactMove>, int)
        decreases depth, 1int, 0int,
    {
        if depth <= 1 {
            self.best_reply_upto(team, self.successors(team).len() as int)
        } else {
            let r = self.search_upto(team, depth, self.top_moves(team).len() as int);
            if r.0 is None {
                self.best_reply_upto(team, self.successors(team).len() as int)
            } else {
                r
            }
        }
    }
}

proof fn lemma_best_reply(b: Packed, team: Team, n: int)
    requires
        0 <= b.size <= 127,
        0 <= n <= b.successors(team).len(),
    ensures
        b.best_reply_upto(team, n).0 is None <==> n == 0,
        b.best_reply_upto(team, n).0 is Some ==> exists|i: int|
            0 <= i < n && #[trigger] b.successors(team)[i] == b.best_reply_upto(team, n).0->0,
        i64::MIN < b.best_reply_upto(team, n).1 <= i64::MAX,
    decreases n,
{
    if n > 0 {
        lemma_best_reply(b, team, n - 1);
        let mv = b.successors(team)[n - 1];
        lemma_evaluate_bounds(b.apply(mv), team.opponent());
        let r = b.best_reply_upto(team, n);
        let prev = b.best_reply_upto(team, n - 1);
        if r == prev {
            let i = choose|i: int|
                0 <= i < n - 1 && #[trigger] b.successors(team)[i] == prev.0->0;
            assert(b.successors(team)[i] == r.0->0);
        } else {
            assert(b.successors(team)[n - 1] == r.0->0);
        }
    }
}

proof fn lemma_search(b: Packed, team: Team, depth: int, n: int)
    requires
        0 <= b.size <= 127,
        0 <= n <= b.top_moves(team).len(),
    ensures
        b.search_upto(team, depth, n).0 is Some ==> exists|k: int|
            0 <= k < n && (#[trigger] b.top_moves(team)[k]).1 == b.search_upto(team, depth, n).0->0,
        i64::MIN < b.search_upto(team, depth, n).1 <= i64::MAX,
    decreases depth, 0int, n,
{
    if n > 0 && depth > 1 {
        lemma_search(b, team, depth, n - 1);
        let mv = b.top_moves(team)[n - 1].1;
        lemma_best_move_bounds(b.apply(mv), team.opponent(), depth - 1);
        let r = b.search_upto(team, depth, n);
        let prev = b.search_upto(team, depth, n - 1);
        if r == prev {
            if r.0 is Some {
                let k = choose|k: int|
                    0 <= k < n - 1 && (#[trigger] b.top_moves(team)[k]).1 == prev.0->0;
                assert(b.top_moves(team)[k].1 == r.0->0);
            }
        } else {
            assert(b.top_moves(team)[n - 1].1 == r.0->0);
        }
    }
}

/// The score of the search is never the least 64-bit number.
pub proof fn lemma_best_move_bounds(b: Packed, team: Team, depth: int)
    requires
        0 <= b.size <= 127,
    ensures
        i64::MIN < b.best_move(team, depth).1 <= i64::MAX,
    decreases depth, 1int, 0int,
{
    lemma_best_reply(b, team, b.successors(team).len() as int);
    if depth > 1 {
        lemma_search(b, team, depth, b.top_moves(team).len() as int);
    }
}

/// The search returns no move exactly when the team has none, and a move
/// that it returns is one of the team's moves.
pub proof fn lemma_best_move_found(b: Packed, team: Team, depth: int)
    requires
        0 <= b.size <= 127,
    ensures
        b.best_move(team, depth).0 is None <==> b.successors(team).len() == 0,
        b.best_move(team, depth).0 is Some ==> exists|i: int|
            0 <= i < b.successors(team).len() && #[trigger] b.successors(team)[i] == b.best_move(
                team,
                depth,
            ).0->0,
{
    lemma_best_reply(b, team, b.successors(team).len() as int);
    if depth > 1 {
        let top = b.top_moves(team);
        lemma_search(b, team, depth, top.len() as int);
        lemma_top_n(b.scored(team), b.scored(team).len() as int);
        let r = b.search_upto(team, depth, top.len() as int);
        if r.0 is Some {
            let k = choose|k: int| 0 <= k < top.len() && (#[trigger] top[k]).1 == r.0->0;
            let i = choose|i: int| 0 <= i < b.scored(team).len() && b.scored(team)[i] == top[k];
            assert(b.successors(team)[i] == r.0->0);
        }
    }
}

/// On a playable board where no move of `team` passes the checks of a move
/// entered by hand, the board offers the team no move and the search, at
/// any depth, returns none.
pub proof fn lemma_no_legal_move(b: Packed, team: Team, depth: int)
    requires
        b.wf(),
        forall|mv: Move| !(#[trigger] check_move(b.grid(), team, mv) is Ok),
    ensures
        b.successors(team).len() == 0,
        b.best_move(team, depth).0 is None,
{
    lemma_no_successor_iff_no_legal(b, team);
    lemma_best_move_found(b, team, depth);
}

/// Picks a move for `team` by searching `depth` plies deep, and gives its
/// score. Without a move for `team` the result is no move and the score of
/// a loss. The scratch space may hold anything on entry, and is used as
/// working storage.
pub fn min_max(cache: &mut DistState, board: &CompactBoard, team: Team, depth: i32) -> (r: (
    Option<CompactMove>,
    i64,
))
    requires
        board@.wf(),
    ensures
        r.0 == board@.best_move(team, depth as int).0,
        r.1 == board@.best_move(team, depth as int).1,
        i64::MIN < r.1,
        r.0 is None <==> board@.successors(team).len() == 0,
        r.0 is Some ==> exists|i: int|
            0 <= i < board@.successors(team).len() && #[trigger] board@.successors(team)[i]
                == r.0->0,
    decreases depth,
{
    proof {
        lemma_best_move_bounds(board@, team, depth as int);
        lemma_best_move_found(board@, team, depth as int);
    }
    let mut local_board = board.clone();
    let moves = board.successors(team);
    if depth > 1 {
        let mut scored: Vec<(i64, CompactMove)> = Vec::new();
        let mut i: usize = 0;
        while i < moves.len()
            invariant
                i <= moves@.len(),
                board@.wf(),
                local_board@ == board@,
                moves@ == board@.successors(team),
                scored@.len() == i,
                forall|k: int| 0 <= k < i ==> #[trigger] scored@[k] == board@.scored(team)[k],
            decreases moves@.len() - i,
        {
            let mv = moves[i];
            proof {
                lemma_successor_ok(board@, team, i as int);
                lemma_move_cells(board@, team, mv);
                lemma_apply_un_apply(board@, team, mv);
                lemma_evaluate_bounds(board@.apply(mv), team);
            }
            local_board.apply_move(&mv);
            let eval = evaluate_by_queen_bfs_distance(&local_board, team, cache);
            local_board.un_apply_move(&mv);
            scored.push((eval, mv));
            i = i + 1;
        }
        proof {
            assert(scored@ =~= board@.scored(team));
        }
        let top = top_n(&scored);
        let count = ranked_len(&top);
        let mut best: Option<CompactMove> = None;
        let mut score: i64 = LOSS;
        let mut k: usize = 0;
        while k < count
            invariant
                k <= count,
                depth > 1,
                count == ranked_view(top).len(),
                ranked_view(top) == board@.top_moves(team),
                board@.wf(),
                local_board@ == board@,
                best == board@.search_upto(team, depth as int, k as int).0,
                score == board@.search_upto(team, depth as int, k as int).1,
                i64::MIN < score,
            decreases count - k,
        {
            let entry = ranked_get(&top, k);
            let mv = entry.1;
            proof {
                lemma_top_n(board@.scored(team), board@.scored(team).len() as int);
                let i = choose|i: int|
                    0 <= i < board@.scored(team).len() && board@.scored(team)[i]
                        == board@.top_moves(team)[k as int];
                assert(mv == board@.successors(team)[i]);
                lemma_successor_ok(board@, team, i);
                lemma_move_cells(board@, team, mv);
                lemma_apply_un_apply(board@, team, mv);
            }
            local_board.apply_move(&mv);
            let reply = min_max(cache, &local_board, team.other(), depth - 1);
            local_board.un_apply_move(&mv);
            let resp_score = reply.1;
            if score < -resp_score {
                score = -resp_score;
                best = Some(mv);
            }
            k = k + 1;
        }
        if best.is_some() {
            return (best, score);
        }
    }
    let mut best: Option<CompactMove> = None;
    let mut score: i64 = LOSS;
    let mut i: usize = 0;
    while i < moves.len()
        invariant
            i <= moves@.len(),
            board@.wf(),
            local_board@ == board@,
            moves@ == board@.successors(team),
            best == board@.best_reply_upto(team, i as int).0,
            score == board@.best_reply_upto(team, i as int).1,
        decreases moves@.len() - i,
    {
        let mv = moves[i];
        proof {
            lemma_successor_ok(board@, team, i as int);
            lemma_move_cells(board@, team, mv);
            lemma_apply_un_apply(board@, team, mv);
            lemma_evaluate_bounds(board@.apply(mv), team.opponent());
        }
        local_board.apply_move(&mv);
        let eval = evaluate_by_queen_bfs_distance(&local_board, team.other(), cache);
        local_board.un_apply_move(&mv);
        if best.is_none() || eval < score {
            best = Some(mv);
            score = eval;
        }
        i = i + 1;
    }
    (best, score)
}

} // verus!
