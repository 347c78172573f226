//! The territory evaluator: for every cell, which team's queens get there
//! in fewer moves.

use vstd::prelude::*;
use std::collections::VecDeque;
use crate::board::{in_grid, interior, Pos, Team};
use crate::compact_board::{
    lemma_linear_bound, lemma_linear_injective, live, queen_range_into, CompactBoard, Packed,
    MAX_NUM_PLAYERS,
};

verus! {

/// The distance recorded for a cell that no queen of the team reaches.
pub const UNREACHED: u8 = 255;

impl Packed {
    /// Whether a piece of `team` stands on `p`.
    pub open spec fn is_source(self, team: Team, p: Pos) -> bool {
        exists|i: int|
            0 <= i < self.players.len() && live(#[trigger] self.players[i]) && self.players[i].team
                == team && self.players[i].pos == p
    }

    /// Whether a queen standing on `p` reaches `q` in one move.
    pub open spec fn queen_step(self, p: Pos, q: Pos) -> bool {
        self.queen_range(p, p).contains(q)
    }

    /// Whether a queen of `team` can stand on `q` after at most `n` moves
    /// over free cells.
    pub open spec fn within(self, team: Team, n: nat, q: Pos) -> bool
        decreases n,
    {
        if n == 0 {
            self.is_source(team, q)
        } else {
            self.within(team, (n - 1) as nat, q) || (in_grid(self.size, q) && !self.occupied(q)
                && exists|p: Pos|
                self.within(team, (n - 1) as nat, p) && #[trigger] self.queen_step(p, q))
        }
    }

    /// The least number of moves, counting up from `n`, within which a queen
    /// of `team` can stand on `q`; 255 if there is none below 255.
    pub open spec fn first_level(self, team: Team, q: Pos, n: nat) -> nat
        decreases 255 - n,
    {
        if n >= 255 {
            255
        } else if self.within(team, n, q) {
            n
        } else {
            self.first_level(team, q, n + 1)
        }
    }

    /// The queen distance of a cell: the least number of queen moves in
    /// which some piece of `team` gets there. Occupied cells, and cells that
    /// take 255 moves or more, count as unreached and have distance 255.
    pub open spec fn queen_dist(self, team: Team, q: Pos) -> nat {
        if self.occupied(q) {
            255
        } else {
            self.first_level(team, q, 0)
        }
    }

    /// What a cell adds to the score of `team`: 1 if `team` is nearer, -1 if
    /// the other team is nearer, 0 on a tie.
    pub open spec fn cell_score(self, team: Team, c: Pos) -> int {
        let own = self.queen_dist(team, c);
        let other = self.queen_dist(team.opponent(), c);
        if own < other {
            1
        } else if own > other {
            -1
        } else {
            0
        }
    }

    /// The score of the first `n` cells of row `r`.
    pub open spec fn row_score(self, team: Team, r: int, n: int) -> int
        decreases n,
    {
        if n <= 0 {
            0
        } else {
            self.row_score(team, r, n - 1) + self.cell_score(
                team,
                Pos { row: r as i8, col: (n - 1) as i8 },
            )
        }
    }

    /// The score of the first `n` rows.
    pub open spec fn rows_score(self, team: Team, n: int) -> int
        decreases n,
    {
        if n <= 0 {
            0
        } else {
            self.rows_score(team, n - 1) + self.row_score(team, n - 1, self.size)
        }
    }

    /// The territory balance of `team`: the sum of the cell scores over the board.
    pub open spec fn territory(self, team: Team) -> int {
        self.rows_score(team, self.size)
    }

    /// Whether a queen of either team reaches the cell.
    pub open spec fn reached_cell(self, c: Pos) -> bool {
        self.queen_dist(Team::Red, c) < 255 || self.queen_dist(Team::Blue, c) < 255
    }

    /// Whether some cell of the board is reached by a queen of either team.
    pub open spec fn any_reached(self) -> bool {
        exists|c: Pos| in_grid(self.size, c) && #[trigger] self.reached_cell(c)
    }

    /// The value of the board for `team`. While a queen of either team
    /// still reaches some cell it is the territory balance. Once no queen
    /// reaches any cell the game is decided: the value is the largest score
    /// if the balance is not negative, and the negative of the largest
    /// score otherwise.
    pub open spec fn evaluate(self, team: Team) -> int {
        let s = self.territory(team);
        if self.any_reached() {
            s
        } else if s >= 0 {
            i64::MAX as int
        } else {
            i64::MIN + 1
        }
    }
}

/// The distance that `dist` records for the cell `c` of board `b`.
pub open spec fn dist_at(b: Packed, dist: Seq<u8>, c: Pos) -> int {
    dist[c.linear(b.size)] as int
}

/// How many entries of `dist` say "unreached".
pub open spec fn unreached_count(dist: Seq<u8>) -> nat
    decreases dist.len(),
{
    if dist.len() == 0 {
        0
    } else {
        unreached_count(dist.drop_last()) + if dist.last() == 255 {
            1nat
        } else {
            0nat
        }
    }
}

proof fn lemma_unreached_count_update(dist: Seq<u8>, i: int, v: u8)
    requires
        0 <= i < dist.len(),
        dist[i] == 255,
        v != 255,
    ensures
        unreached_count(dist.update(i, v)) == unreached_count(dist) - 1,
    decreases dist.len(),
{
    let d2 = dist.update(i, v);
    if i == dist.len() - 1 {
        assert(d2.drop_last() =~= dist.drop_last());
    } else {
        assert(d2.drop_last() =~= dist.drop_last().update(i, v));
        lemma_unreached_count_update(dist.drop_last(), i, v);
    }
}

spec fn known(b: Packed, team: Team, dist: Seq<u8>, p: Pos) -> bool {
    b.is_source(team, p) || dist_at(b, dist, p) < 255
}

spec fn lvl(b: Packed, dist: Seq<u8>, p: Pos) -> int {
    if dist_at(b, dist, p) < 255 {
        dist_at(b, dist, p)
    } else {
        0
    }
}

spec fn pending(q: Seq<(Pos, u8)>, p: Pos) -> bool {
    exists|i: int| 0 <= i < q.len() && (#[trigger] q[i]).0 == p
}

spec fn cell_exact(b: Packed, team: Team, dist: Seq<u8>, m: int, c: Pos) -> bool {
    let v = dist_at(b, dist, c);
    &&& !b.occupied(c)
    &&& 1 <= v <= m + 1
    &&& b.within(team, v as nat, c)
    &&& !b.within(team, (v - 1) as nat, c)
}

spec fn inv_dist(b: Packed, team: Team, dist: Seq<u8>, m: int) -> bool {
    &&& dist.len() >= b.size * b.size
    &&& 0 <= m <= 254
    &&& forall|c: Pos|
        in_grid(b.size, c) && (#[trigger] dist_at(b, dist, c)) < 255 ==> cell_exact(
            b,
            team,
            dist,
            m,
            c,
        )
    &&& forall|c: Pos|
        in_grid(b.size, c) && !b.occupied(c) && #[trigger] b.within(team, m as nat, c) ==> dist_at(
            b,
            dist,
            c,
        ) <= m
}

spec fn entry_ok(b: Packed, team: Team, dist: Seq<u8>, m: int, e: (Pos, u8)) -> bool {
    &&& interior(b.size, e.0)
    &&& m <= e.1 <= m + 1
    &&& e.1 <= 254
    &&& b.within(team, e.1 as nat, e.0)
    &&& if e.1 == 0 {
        b.is_source(team, e.0)
    } else {
        dist_at(b, dist, e.0) == e.1
    }
}

spec fn inv_queue(b: Packed, team: Team, dist: Seq<u8>, q: Seq<(Pos, u8)>, m: int) -> bool {
    &&& forall|i: int| 0 <= i < q.len() ==> entry_ok(b, team, dist, m, #[trigger] q[i])
    &&& forall|i: int, j: int| 0 <= i <= j < q.len() ==> (#[trigger] q[i]).1 <= (#[trigger] q[j]).1
}

spec fn inv_closed(
    b: Packed,
    team: Team,
    dist: Seq<u8>,
    q: Seq<(Pos, u8)>,
    skip: Option<Pos>,
) -> bool {
    forall|p: Pos, c: Pos|
        in_grid(b.size, p) && known(b, team, dist, p) && !pending(q, p) && skip != Some(p) && lvl(
            b,
            dist,
            p,
        ) <= 253 && #[trigger] b.queen_step(p, c) ==> in_grid(b.size, c) && !b.occupied(c)
            && dist_at(b, dist, c) <= lvl(b, dist, p) + 1
}

spec fn bfs_inv(
    b: Packed,
    team: Team,
    dist: Seq<u8>,
    q: Seq<(Pos, u8)>,
    m: int,
    skip: Option<Pos>,
) -> bool {
    &&& b.wf()
    &&& inv_dist(b, team, dist, m)
    &&& inv_queue(b, team, dist, q, m)
    &&& inv_closed(b, team, dist, q, skip)
}

proof fn lemma_within_mono(b: Packed, team: Team, n: nat, k: nat, q: Pos)
    requires
        b.within(team, n, q),
        n <= k,
    ensures
        b.within(team, k, q),
    decreases k,
{
    if n < k {
        lemma_within_mono(b, team, n, (k - 1) as nat, q);
    }
}

proof fn lemma_source(b: Packed, team: Team, dist: Seq<u8>, m: int, p: Pos)
    requires
        b.wf(),
        inv_dist(b, team, dist, m),
        b.is_source(team, p),
    ensures
        interior(b.size, p),
        b.occupied(p),
        dist_at(b, dist, p) == 255,
        lvl(b, dist, p) == 0,
{
    let i = choose|i: int|
        0 <= i < b.players.len() && live(#[trigger] b.players[i]) && b.players[i].team == team
            && b.players[i].pos == p;
    assert(live(b.players[i]));
    if dist_at(b, dist, p) < 255 {
        assert(cell_exact(b, team, dist, m, p));
    }
}

/// The state after the front entry has been taken off the queue.
proof fn lemma_advance(
    b: Packed,
    team: Team,
    dist: Seq<u8>,
    q0: Seq<(Pos, u8)>,
    m: int,
)
    requires
        bfs_inv(b, team, dist, q0, m, None),
        q0.len() > 0,
    ensures
        bfs_inv(b, team, dist, q0.subrange(1, q0.len() as int), q0[0].1 as int, Some(q0[0].0)),
        entry_ok(b, team, dist, q0[0].1 as int, q0[0]),
{
    let e = q0[0];
    let q = q0.subrange(1, q0.len() as int);
    let m2 = e.1 as int;
    assert(entry_ok(b, team, dist, m, q0[0]));
    // queue
    assert forall|i: int| 0 <= i < q.len() implies entry_ok(b, team, dist, m2, #[trigger] q[i]) by {
        assert(q[i] == q0[i + 1]);
        assert(entry_ok(b, team, dist, m, q0[i + 1]));
        assert(q0[0].1 <= q0[i + 1].1);
    }
    assert forall|i: int, j: int| 0 <= i <= j < q.len() implies (#[trigger] q[i]).1 <= (
    #[trigger] q[j]).1 by {
        assert(q[i] == q0[i + 1]);
        assert(q[j] == q0[j + 1]);
    }
    // closure
    assert forall|p: Pos, c: Pos|
        in_grid(b.size, p) && known(b, team, dist, p) && !pending(q, p) && Some(e.0) != Some(p)
            && lvl(b, dist, p) <= 253 && #[trigger] b.queen_step(p, c) implies in_grid(b.size, c)
        && !b.occupied(c) && dist_at(b, dist, c) <= lvl(b, dist, p) + 1 by {
        if pending(q0, p) {
            let i = choose|i: int| 0 <= i < q0.len() && (#[trigger] q0[i]).0 == p;
            assert(i > 0);
            assert(q[i - 1] == q0[i]);
            assert(pending(q, p));
        }
    }
    // distances
    if m2 > m {
        assert forall|c: Pos|
            in_grid(b.size, c) && !b.occupied(c) && #[trigger] b.within(
                team,
                m2 as nat,
                c,
            ) implies dist_at(b, dist, c) <= m2 by {
            if b.within(team, m as nat, c) {
            } else {
                let p = choose|p: Pos|
                    b.within(team, m as nat, p) && #[trigger] b.queen_step(p, c);
                lemma_within_grid(b, team, m as nat, p);
                if b.is_source(team, p) {
                    lemma_source(b, team, dist, m, p);
                } else {
                    assert(dist_at(b, dist, p) <= m);
                }
                assert(known(b, team, dist, p));
                assert(lvl(b, dist, p) <= m);
                if pending(q0, p) {
                    let i = choose|i: int| 0 <= i < q0.len() && (#[trigger] q0[i]).0 == p;
                    assert(entry_ok(b, team, dist, m, q0[i]));
                    assert(q0[0].1 <= q0[i].1);
                    assert(false);
                }
            }
        }
    }
    assert forall|c: Pos|
        in_grid(b.size, c) && (#[trigger] dist_at(b, dist, c)) < 255 implies cell_exact(
        b,
        team,
        dist,
        m2,
        c,
    ) by {
        assert(cell_exact(b, team, dist, m, c));
    }
}

/// A cell within some number of moves is on the board, and is either a
/// source or free.
proof fn lemma_within_grid(b: Packed, team: Team, n: nat, p: Pos)
    requires
        b.wf(),
        b.within(team, n, p),
    ensures
        in_grid(b.size, p),
        b.is_source(team, p) || !b.occupied(p),
    decreases n,
{
    if n == 0 {
        let i = choose|i: int|
            0 <= i < b.players.len() && live(#[trigger] b.players[i]) && b.players[i].team == team
                && b.players[i].pos == p;
        assert(live(b.players[i]));
    } else if b.within(team, (n - 1) as nat, p) {
        lemma_within_grid(b, team, (n - 1) as nat, p);
    }
}

/// The state after a free cell `c`, reached from the entry being worked
/// on, has been given its distance and put on the queue.
proof fn lemma_discover(
    b: Packed,
    team: Team,
    dist: Seq<u8>,
    q: Seq<(Pos, u8)>,
    e: (Pos, u8),
    c: Pos,
)
    requires
        bfs_inv(b, team, dist, q, e.1 as int, Some(e.0)),
        entry_ok(b, team, dist, e.1 as int, e),
        b.queen_step(e.0, c),
        interior(b.size, c),
        !b.occupied(c),
        e.1 + 1 < dist_at(b, dist, c),
    ensures
        0 <= c.linear(b.size) < dist.len(),
        dist[c.linear(b.size)] == 255,
        bfs_inv(
            b,
            team,
            dist.update(c.linear(b.size), (e.1 + 1) as u8),
            q.push((c, (e.1 + 1) as u8)),
            e.1 as int,
            Some(e.0),
        ),
        entry_ok(b, team, dist.update(c.linear(b.size), (e.1 + 1) as u8), e.1 as int, e),
        forall|x: Pos|
            in_grid(b.size, x) ==> #[trigger] dist_at(
                b,
                dist.update(c.linear(b.size), (e.1 + 1) as u8),
                x,
            ) <= dist_at(b, dist, x),
{
    let m = e.1 as int;
    let nv = (e.1 + 1) as u8;
    let ci = c.linear(b.size);
    let dist2 = dist.update(ci, nv);
    let q2 = q.push((c, nv));
    lemma_linear_bound(b.size, c);
    if dist_at(b, dist, c) < 255 {
        assert(cell_exact(b, team, dist, m, c));
    }
    assert(dist_at(b, dist, c) == 255);
    assert forall|x: Pos| in_grid(b.size, x) && x != c implies dist_at(b, dist2, x) == dist_at(
        b,
        dist,
        x,
    ) by {
        lemma_linear_bound(b.size, x);
        if x.linear(b.size) == ci {
            lemma_linear_injective(b.size, x, c);
        }
    }
    assert(dist_at(b, dist2, c) == nv);
    // the new cell is exactly at distance nv
    assert(b.within(team, nv as nat, c));
    if b.within(team, m as nat, c) {
        assert(dist_at(b, dist, c) <= m);
    }
    assert forall|x: Pos|
        in_grid(b.size, x) && (#[trigger] dist_at(b, dist2, x)) < 255 implies cell_exact(
        b,
        team,
        dist2,
        m,
        x,
    ) by {
        if x != c {
            assert(dist_at(b, dist, x) < 255);
            assert(cell_exact(b, team, dist, m, x));
        }
    }
    assert forall|x: Pos|
        in_grid(b.size, x) && !b.occupied(x) && #[trigger] b.within(
            team,
            m as nat,
            x,
        ) implies dist_at(b, dist2, x) <= m by {
        assert(dist_at(b, dist, x) <= m);
    }
    assert(inv_dist(b, team, dist2, m));
    // queue
    assert forall|i: int| 0 <= i < q2.len() implies entry_ok(b, team, dist2, m, #[trigger] q2[i]) by {
        if i < q.len() {
            assert(q2[i] == q[i]);
            assert(entry_ok(b, team, dist, m, q[i]));
        }
    }
    assert forall|i: int, j: int| 0 <= i <= j < q2.len() implies (#[trigger] q2[i]).1 <= (
    #[trigger] q2[j]).1 by {
        if i < q.len() {
            assert(q2[i] == q[i]);
            assert(entry_ok(b, team, dist, m, q[i]));
        }
        if j < q.len() {
            assert(q2[j] == q[j]);
        }
    }
    // closure
    assert(q2[q.len() as int].0 == c);
    assert(pending(q2, c));
    assert forall|p: Pos, x: Pos|
        in_grid(b.size, p) && known(b, team, dist2, p) && !pending(q2, p) && Some(e.0) != Some(p)
            && lvl(b, dist2, p) <= 253 && #[trigger] b.queen_step(p, x) implies in_grid(b.size, x)
        && !b.occupied(x) && dist_at(b, dist2, x) <= lvl(b, dist2, p) + 1 by {
        assert(p != c);
        assert(dist_at(b, dist2, p) == dist_at(b, dist, p));
        if pending(q, p) {
            let i = choose|i: int| 0 <= i < q.len() && (#[trigger] q[i]).0 == p;
            assert(q2[i] == q[i]);
            assert(pending(q2, p));
        }
        assert(in_grid(b.size, x) && !b.occupied(x) && dist_at(b, dist, x) <= lvl(b, dist, p) + 1);
        if x != c {
        } else {
            // p is done and reaches c, so c was already known
            assert(false);
        }
    }
    assert forall|x: Pos| in_grid(b.size, x) implies #[trigger] dist_at(b, dist2, x) <= dist_at(
        b,
        dist,
        x,
    ) by {
        if x != c {
        }
    }
}

/// The state after every cell that the entry reaches has been looked at.
proof fn lemma_done(
    b: Packed,
    team: Team,
    dist: Seq<u8>,
    q: Seq<(Pos, u8)>,
    e: (Pos, u8),
    v: Seq<Pos>,
)
    requires
        bfs_inv(b, team, dist, q, e.1 as int, Some(e.0)),
        entry_ok(b, team, dist, e.1 as int, e),
        v == b.queen_range(e.0, e.0),
        forall|i: int|
            0 <= i < v.len() ==> in_grid(b.size, #[trigger] v[i]) && !b.occupied(v[i]) && (e.1
                <= 253 ==> dist_at(b, dist, v[i]) <= e.1 + 1),
    ensures
        bfs_inv(b, team, dist, q, e.1 as int, None),
{
    let m = e.1 as int;
    assert forall|p: Pos, c: Pos|
        in_grid(b.size, p) && known(b, team, dist, p) && !pending(q, p) && None::<Pos> != Some(p)
            && lvl(b, dist, p) <= 253 && #[trigger] b.queen_step(p, c) implies in_grid(b.size, c)
        && !b.occupied(c) && dist_at(b, dist, c) <= lvl(b, dist, p) + 1 by {
        if p == e.0 {
            let i = choose|i: int| 0 <= i < v.len() && v[i] == c;
            assert(v[i] == c);
            if e.1 == 0 {
                lemma_source(b, team, dist, m, p);
            }
        } else {
            assert(Some(e.0) != Some(p));
        }
    }
}

proof fn lemma_close(b: Packed, team: Team, dist: Seq<u8>, m: int, n: nat, c: Pos)
    requires
        bfs_inv(b, team, dist, Seq::empty(), m, None),
        n <= 254,
        b.within(team, n, c),
    ensures
        in_grid(b.size, c),
        b.is_source(team, c) || (!b.occupied(c) && dist_at(b, dist, c) <= n),
    decreases n,
{
    lemma_within_grid(b, team, n, c);
    if n == 0 {
    } else if b.within(team, (n - 1) as nat, c) {
        lemma_close(b, team, dist, m, (n - 1) as nat, c);
    } else {
        let p = choose|p: Pos|
            b.within(team, (n - 1) as nat, p) && #[trigger] b.queen_step(p, c);
        lemma_close(b, team, dist, m, (n - 1) as nat, p);
        if b.is_source(team, p) {
            lemma_source(b, team, dist, m, p);
        }
        assert(known(b, team, dist, p));
        assert(!pending(Seq::<(Pos, u8)>::empty(), p));
        assert(lvl(b, dist, p) <= n - 1);
    }
}

proof fn lemma_first_level_hit(b: Packed, team: Team, c: Pos, v: nat, k: nat)
    requires
        k <= v <= 254,
        b.within(team, v, c),
        v == 0 || !b.within(team, (v - 1) as nat, c),
    ensures
        b.first_level(team, c, k) == v,
    decreases v - k,
{
    if k < v {
        if b.within(team, k, c) {
            lemma_within_mono(b, team, k, (v - 1) as nat, c);
        }
        lemma_first_level_hit(b, team, c, v, k + 1);
    }
}

proof fn lemma_first_level_miss(b: Packed, team: Team, c: Pos, k: nat)
    requires
        forall|n: nat| n <= 254 ==> !b.within(team, n, c),
    ensures
        b.first_level(team, c, k) == 255,
    decreases 255 - k,
{
    if k < 255 {
        lemma_first_level_miss(b, team, c, k + 1);
    }
}

/// Once the queue is empty the recorded distances are the queen distances.
proof fn lemma_final(b: Packed, team: Team, dist: Seq<u8>, m: int)
    requires
        bfs_inv(b, team, dist, Seq::empty(), m, None),
    ensures
        forall|c: Pos|
            in_grid(b.size, c) ==> #[trigger] dist_at(b, dist, c) == b.queen_dist(team, c),
{
    assert forall|c: Pos| in_grid(b.size, c) implies #[trigger] dist_at(b, dist, c) == b.queen_dist(
        team,
        c,
    ) by {
        let v = dist_at(b, dist, c);
        if v < 255 {
            assert(cell_exact(b, team, dist, m, c));
            lemma_first_level_hit(b, team, c, v as nat, 0);
        } else if !b.occupied(c) {
            assert forall|n: nat| n <= 254 implies !b.within(team, n, c) by {
                if b.within(team, n, c) {
                    lemma_close(b, team, dist, m, n, c);
                    if b.is_source(team, c) {
                        lemma_source(b, team, dist, m, c);
                    }
                }
            }
            lemma_first_level_miss(b, team, c, 0);
        }
    }
}

/// Scratch space of the evaluator: one distance per cell for each team,
/// the work queue of the search and a buffer for the cells that a queen
/// reaches. It is kept between calls so that nothing is allocated anew.
#[derive(Clone, Debug)]
pub struct DistState {
    left: Vec<u8>,
    right: Vec<u8>,
    next: VecDeque<(Pos, u8)>,
    reach: Vec<Pos>,
}

impl DistState {
    /// The distances recorded for the team that was evaluated.
    pub closed spec fn own(&self) -> Seq<u8> {
        self.left@
    }

    /// The distances recorded for its opponent.
    pub closed spec fn other(&self) -> Seq<u8> {
        self.right@
    }

    /// Empty scratch space.
    pub fn new() -> (s: DistState)
        ensures
            s.own().len() == 0,
            s.other().len() == 0,
    {
        DistState { left: Vec::new(), right: Vec::new(), next: VecDeque::new(), reach: Vec::new() }
    }
}

/// Fills `distances` with the queen distance of every cell from the pieces
/// of `team`, by a breadth-first search from all of them at once.
fn bfs(
    board: &CompactBoard,
    team: Team,
    next: &mut VecDeque<(Pos, u8)>,
    distances: &mut Vec<u8>,
    neighbours: &mut Vec<Pos>,
)
    requires
        board@.wf(),
    ensures
        final(distances)@.len() >= board@.size * board@.size,
        forall|c: Pos|
            in_grid(board@.size, c) ==> #[trigger] dist_at(board@, final(distances)@, c)
                == board@.queen_dist(team, c),
        final(next)@.len() == 0,
{
    let size = board.size();
    let n: usize = size as usize;
    assert(n * n <= 127 * 127) by (nonlinear_arith)
        requires
            n <= 127,
    ;
    let cells: usize = n * n;
    let mut i: usize = 0;
    while i < distances.len()
        invariant
            i <= distances@.len(),
            forall|k: int| 0 <= k < i ==> distances@[k] == 255,
        decreases distances@.len() - i,
    {
        distances[i] = UNREACHED;
        i = i + 1;
    }
    while distances.len() < cells
        invariant
            forall|k: int| 0 <= k < distances@.len() ==> distances@[k] == 255,
        decreases cells - distances@.len(),
    {
        distances.push(UNREACHED);
    }
    next.clear();
    let mut pi: usize = 0;
    while pi < MAX_NUM_PLAYERS
        invariant
            pi <= MAX_NUM_PLAYERS,
            board@.wf(),
            forall|k: int|
                0 <= k < next@.len() ==> (#[trigger] next@[k]).1 == 0 && board@.is_source(
                    team,
                    next@[k].0,
                ),
            forall|j: int|
                0 <= j < pi && live(#[trigger] board@.players[j]) && board@.players[j].team == team
                    ==> pending(next@, board@.players[j].pos),
        decreases MAX_NUM_PLAYERS - pi,
    {
        let player = board.roster_slot(pi);
        if (player.pos.row != 0 || player.pos.col != 0) && player.team == team {
            let ghost before = next@;
            next.push_back((player.pos, 0));
            proof {
                assert(next@[before.len() as int].0 == player.pos);
                assert forall|j: int|
                    0 <= j < pi + 1 && live(#[trigger] board@.players[j]) && board@.players[j].team
                        == team implies pending(next@, board@.players[j].pos) by {
                    if j < pi {
                        let k = choose|k: int|
                            0 <= k < before.len() && (#[trigger] before[k]).0
                                == board@.players[j].pos;
                        assert(next@[k] == before[k]);
                    }
                }
                assert forall|k: int| 0 <= k < next@.len() implies (#[trigger] next@[k]).1 == 0
                    && board@.is_source(team, next@[k].0) by {
                    if k < before.len() {
                        assert(next@[k] == before[k]);
                    }
                }
            }
        }
        pi = pi + 1;
    }
    let ghost mut m: int = 0;
    proof {
        let b = board@;
        let dist = distances@;
        let q = next@;
        assert forall|k: int| 0 <= k < q.len() implies entry_ok(b, team, dist, 0, #[trigger] q[k]) by {
            let p = q[k].0;
            let j = choose|j: int|
                0 <= j < b.players.len() && live(#[trigger] b.players[j]) && b.players[j].team
                    == team && b.players[j].pos == p;
            assert(live(b.players[j]));
        }
        assert forall|p: Pos, c: Pos|
            in_grid(b.size, p) && known(b, team, dist, p) && !pending(q, p) && None::<Pos> != Some(
                p,
            ) && lvl(b, dist, p) <= 253 && #[trigger] b.queen_step(p, c) implies in_grid(b.size, c)
            && !b.occupied(c) && dist_at(b, dist, c) <= lvl(b, dist, p) + 1 by {
            lemma_linear_bound(b.size, p);
            let j = choose|j: int|
                0 <= j < b.players.len() && live(#[trigger] b.players[j]) && b.players[j].team
                    == team && b.players[j].pos == p;
            assert(live(b.players[j]));
            assert(pending(q, b.players[j].pos));
        }
        assert forall|c: Pos|
            in_grid(b.size, c) && (#[trigger] dist_at(b, dist, c)) < 255 implies cell_exact(
            b,
            team,
            dist,
            0,
            c,
        ) by {
            lemma_linear_bound(b.size, c);
        }
        assert forall|c: Pos|
            in_grid(b.size, c) && !b.occupied(c) && #[trigger] b.within(
                team,
                0nat,
                c,
            ) implies dist_at(b, dist, c) <= 0 by {
            let j = choose|j: int|
                0 <= j < b.players.len() && live(#[trigger] b.players[j]) && b.players[j].team
                    == team && b.players[j].pos == c;
            assert(live(b.players[j]));
        }
    }
    while next.len() > 0
        invariant
            size == board@.size,
            bfs_inv(board@, team, distances@, next@, m, None),
        decreases 2 * unreached_count(distances@) + next@.len(),
    {
        let ghost q0 = next@;
        let ghost measure = 2 * unreached_count(distances@) + next@.len();
        let front = next.pop_front();
        let (pos, depth) = front.unwrap();
        proof {
            lemma_advance(board@, team, distances@, q0, m);
            m = depth as int;
        }
        queen_range_into(board, pos, pos, neighbours);
        let mut j: usize = 0;
        while j < neighbours.len()
            invariant
                j <= neighbours@.len(),
                size == board@.size,
                m == depth,
                neighbours@ == board@.queen_range(pos, pos),
                forall|i: int|
                    0 <= i < neighbours@.len() ==> interior(board@.size, #[trigger] neighbours@[i])
                        && !board@.occupied(neighbours@[i]),
                bfs_inv(board@, team, distances@, next@, m, Some(pos)),
                entry_ok(board@, team, distances@, m, (pos, depth)),
                forall|i: int|
                    0 <= i < j && depth <= 253 ==> dist_at(
                        board@,
                        distances@,
                        #[trigger] neighbours@[i],
                    ) <= depth + 1,
                2 * unreached_count(distances@) + next@.len() < measure,
            decreases neighbours@.len() - j,
        {
            let neigh = neighbours[j];
            proof {
                lemma_linear_bound(board@.size, neigh);
            }
            let idx = neigh.to_linear(size);
            let here = distances[idx];
            if depth + 1 < here {
                proof {
                    assert(board@.queen_range(pos, pos)[j as int] == neigh);
                    assert(board@.queen_step(pos, neigh));
                    lemma_discover(board@, team, distances@, next@, (pos, depth), neigh);
                    lemma_unreached_count_update(distances@, idx as int, (depth + 1) as u8);
                }
                distances[idx] = depth + 1;
                next.push_back((neigh, depth + 1));
            }
            j = j + 1;
        }
        proof {
            lemma_done(board@, team, distances@, next@, (pos, depth), neighbours@);
        }
    }
    proof {
        assert(next@ =~= Seq::empty());
        lemma_final(board@, team, distances@, m);
    }
}

/// Scores the board for `team`: one point for every cell that its queens
/// reach in fewer moves than the other team's, one point off for every cell
/// where the other team is nearer. Once no queen of either team reaches any
/// cell the game is decided, and the score is the largest one.
///
/// The scratch space may hold anything on entry. On return it holds the two
/// distance maps that the score was computed from.
pub fn evaluate_by_queen_bfs_distance(
    board: &CompactBoard,
    team: Team,
    dist_state: &mut DistState,
) -> (score: i64)
    requires
        board@.wf(),
    ensures
        score == board@.evaluate(team),
        forall|c: Pos|
            in_grid(board@.size, c) ==> #[trigger] dist_at(board@, final(dist_state).own(), c)
                == board@.queen_dist(team, c),
        forall|c: Pos|
            in_grid(board@.size, c) ==> #[trigger] dist_at(board@, final(dist_state).other(), c)
                == board@.queen_dist(team.opponent(), c),
{
    bfs(board, team, &mut dist_state.next, &mut dist_state.left, &mut dist_state.reach);
    bfs(board, team.other(), &mut dist_state.next, &mut dist_state.right, &mut dist_state.reach);
    let size = board.size();
    let mut score: i64 = 0;
    let mut is_end = true;
    let mut r: i8 = 0;
    while r < size
        invariant
            0 <= r <= size,
            size == board@.size,
            board@.wf(),
            dist_state.left@.len() >= board@.size * board@.size,
            dist_state.right@.len() >= board@.size * board@.size,
            forall|c: Pos|
                in_grid(board@.size, c) ==> #[trigger] dist_at(board@, dist_state.left@, c)
                    == board@.queen_dist(team, c),
            forall|c: Pos|
                in_grid(board@.size, c) ==> #[trigger] dist_at(board@, dist_state.right@, c)
                    == board@.queen_dist(team.opponent(), c),
            score == board@.rows_score(team, r as int),
            -(r * 127) <= score <= r * 127,
            is_end <==> forall|x: Pos|
                in_grid(board@.size, x) && x.row < r ==> !#[trigger] board@.reached_cell(x),
        decreases size - r,
    {
        let mut c: i8 = 0;
        while c < size
            invariant
                0 <= r < size,
                0 <= c <= size,
                size == board@.size,
                board@.wf(),
                dist_state.left@.len() >= board@.size * board@.size,
                dist_state.right@.len() >= board@.size * board@.size,
                forall|c: Pos|
                    in_grid(board@.size, c) ==> #[trigger] dist_at(board@, dist_state.left@, c)
                        == board@.queen_dist(team, c),
                forall|c: Pos|
                    in_grid(board@.size, c) ==> #[trigger] dist_at(board@, dist_state.right@, c)
                        == board@.queen_dist(team.opponent(), c),
                score == board@.rows_score(team, r as int) + board@.row_score(
                    team,
                    r as int,
                    c as int,
                ),
                -(r * 127 + c) <= score <= r * 127 + c,
                is_end <==> forall|x: Pos|
                    in_grid(board@.size, x) && (x.row < r || (x.row == r && x.col < c))
                        ==> !#[trigger] board@.reached_cell(x),
            decreases size - c,
        {
            let cell = Pos { row: r, col: c };
            proof {
                lemma_linear_bound(board@.size, cell);
                assert(dist_at(board@, dist_state.left@, cell) == board@.queen_dist(team, cell));
                assert(dist_at(board@, dist_state.right@, cell) == board@.queen_dist(
                    team.opponent(),
                    cell,
                ));
            }
            let idx = cell.to_linear(size);
            let a = dist_state.left[idx];
            let b = dist_state.right[idx];
            if a < b {
                score = score + 1;
            }
            if a > b {
                score = score - 1;
            }
            if a != UNREACHED || b != UNREACHED {
                is_end = false;
            }
            proof {
                assert((a != 255 || b != 255) == board@.reached_cell(cell));
                assert forall|x: Pos|
                    in_grid(board@.size, x) && (x.row < r || (x.row == r && x.col < c + 1))
                        && !(x.row < r || (x.row == r && x.col < c)) implies x == cell by {}
            }
            c = c + 1;
        }
        r = r + 1;
    }
    if is_end {
        if score >= 0 {
            i64::MAX
        } else {
            i64::MIN + 1
        }
    } else {
        score
    }
}

proof fn lemma_row_score_negates(b: Packed, team: Team, r: int, n: int)
    ensures
        b.row_score(team.opponent(), r, n) == -b.row_score(team, r, n),
    decreases n,
{
    if n > 0 {
        lemma_row_score_negates(b, team, r, n - 1);
    }
}

proof fn lemma_rows_score_negates(b: Packed, team: Team, n: int)
    ensures
        b.rows_score(team.opponent(), n) == -b.rows_score(team, n),
    decreases n,
{
    if n > 0 {
        lemma_rows_score_negates(b, team, n - 1);
        lemma_row_score_negates(b, team, n - 1, b.size);
    }
}

/// The territory balance of one team is the negative of the other's.
pub proof fn lemma_territory_negates(b: Packed, team: Team)
    ensures
        b.territory(team.opponent()) == -b.territory(team),
{
    lemma_rows_score_negates(b, team, b.size);
}

/// The value of a board for one team is the negative of its value for the
/// other, on every board where a queen of either team reaches some cell.
/// On the boards where no queen reaches any cell both teams are given the
/// largest score.
pub proof fn lemma_evaluate_negates(b: Packed, team: Team)
    requires
        b.any_reached(),
    ensures
        b.evaluate(team.opponent()) == -b.evaluate(team),
{
    lemma_territory_negates(b, team);
}

proof fn lemma_first_level_max(b: Packed, team: Team, q: Pos, n: nat)
    ensures
        b.first_level(team, q, n) <= 255 || b.first_level(team, q, n) == n,
    decreases 255 - n,
{
    if n < 255 && !b.within(team, n, q) {
        lemma_first_level_max(b, team, q, n + 1);
    }
}

proof fn lemma_row_score_unreached(b: Packed, team: Team, r: int, n: int)
    requires
        !b.any_reached(),
        0 <= r < b.size <= 127,
        0 <= n <= b.size,
    ensures
        b.row_score(team, r, n) == 0,
    decreases n,
{
    if n > 0 {
        lemma_row_score_unreached(b, team, r, n - 1);
        let c = Pos { row: r as i8, col: (n - 1) as i8 };
        assert(in_grid(b.size, c));
        assert(!b.reached_cell(c));
        lemma_first_level_max(b, Team::Red, c, 0);
        lemma_first_level_max(b, Team::Blue, c, 0);
        assert(b.queen_dist(Team::Red, c) == 255 && b.queen_dist(Team::Blue, c) == 255);
        match team {
            Team::Red => {},
            Team::Blue => {},
        }
    }
}

proof fn lemma_rows_score_unreached(b: Packed, team: Team, n: int)
    requires
        !b.any_reached(),
        0 <= n <= b.size <= 127,
    ensures
        b.rows_score(team, n) == 0,
    decreases n,
{
    if n > 0 {
        lemma_rows_score_unreached(b, team, n - 1);
        lemma_row_score_unreached(b, team, n - 1, b.size);
    }
}

/// The value of a board is the territory balance exactly when a queen of
/// either team reaches some cell, and the balance is far from the ends of
/// the 64-bit range. When no queen reaches any cell the balance is zero
/// and the value is the largest score, for either team.
pub proof fn lemma_evaluate_decided(b: Packed, team: Team)
    requires
        0 <= b.size <= 127,
    ensures
        b.any_reached() ==> b.evaluate(team) == b.territory(team),
        -127 * 127 <= b.territory(team) <= 127 * 127,
        !b.any_reached() ==> b.territory(team) == 0 && b.evaluate(team) == i64::MAX,
{
    lemma_rows_score_bounds(b, team, b.size);
    assert(-127 * 127 <= b.territory(team) <= 127 * 127) by (nonlinear_arith)
        requires
            0 <= b.size <= 127,
            -b.size * 127 <= b.territory(team) <= b.size * 127,
    ;
    if !b.any_reached() {
        lemma_rows_score_unreached(b, team, b.size);
    }
}

/// The value of a board is never the least 64-bit number, so it can be negated.
pub proof fn lemma_evaluate_bounds(b: Packed, team: Team)
    requires
        0 <= b.size <= 127,
    ensures
        i64::MIN < b.evaluate(team) <= i64::MAX,
{
    lemma_rows_score_bounds(b, team, b.size);
}

proof fn lemma_row_score_bounds(b: Packed, team: Team, r: int, n: int)
    requires
        0 <= n,
    ensures
        -n <= b.row_score(team, r, n) <= n,
    decreases n,
{
    if n > 0 {
        lemma_row_score_bounds(b, team, r, n - 1);
    }
}

proof fn lemma_rows_score_bounds(b: Packed, team: Team, n: int)
    requires
        0 <= n,
        0 <= b.size <= 127,
    ensures
        -n * 127 <= b.rows_score(team, n) <= n * 127,
    decreases n,
{
    if n > 0 {
        lemma_rows_score_bounds(b, team, n - 1);
        lemma_row_score_bounds(b, team, n - 1, b.size);
    }
}

} // verus!
