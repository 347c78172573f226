use amazons::algo::{min_max, LOSS};
use amazons::board::{Board, Player, Pos, Team};
use amazons::compact_board::{CompactBoard, CompactMove};
use amazons::evaluate::DistState;
use amazons::ranking::{ranked_items, top_n, TOP_N};

fn pos(row: i8, col: i8) -> Pos {
    Pos { row, col }
}

fn cm(ix: usize, o: (i8, i8), d: (i8, i8), s: (i8, i8)) -> CompactMove {
    CompactMove { player_ix: ix, old_pos: pos(o.0, o.1), new_pos: pos(d.0, d.1), new_shot: pos(s.0, s.1) }
}

fn board(size: i8, red: (i8, i8), blue: (i8, i8), walls: &[(i8, i8)]) -> CompactBoard {
    let mut b = CompactBoard::new(
        size,
        vec![
            Player { team: Team::Red, pos: pos(red.0, red.1) },
            Player { team: Team::Blue, pos: pos(blue.0, blue.1) },
        ],
    );
    for w in walls {
        b.wall_set(pos(w.0, w.1), true);
    }
    b
}

fn search(b: &CompactBoard, team: Team, depth: i32) -> (Option<CompactMove>, i64) {
    let mut cache = DistState::new();
    min_max(&mut cache, b, team, depth)
}

fn tagged(score: i64, tag: i8) -> (i64, CompactMove) {
    (score, cm(0, (1, 1), (1, 2), (tag, tag)))
}

#[test]
fn loss_is_one_above_the_least_number() {
    assert_eq!(LOSS, i64::MIN + 1);
    assert_eq!(-LOSS, i64::MAX);
}

#[test]
fn ranking_sorts_by_score_and_keeps_first_come_first() {
    let items = vec![tagged(5, 0), tagged(7, 1), tagged(5, 2), tagged(9, 3), tagged(7, 4), tagged(1, 5)];
    let ranked = ranked_items(&top_n(&items));
    assert_eq!(
        ranked,
        vec![tagged(9, 3), tagged(7, 1), tagged(7, 4), tagged(5, 0), tagged(5, 2), tagged(1, 5)]
    );
}

#[test]
fn ranking_keeps_the_best_fourteen() {
    assert_eq!(TOP_N, 14);
    let items: Vec<(i64, CompactMove)> = (0..20).map(|i| tagged((i % 3) as i64, i as i8)).collect();
    let ranked = ranked_items(&top_n(&items));
    let expected: Vec<(i64, CompactMove)> = [
        (2, 2), (2, 5), (2, 8), (2, 11), (2, 14), (2, 17), (1, 1), (1, 4), (1, 7), (1, 10), (1, 13), (1, 16), (1, 19), (0, 0),
    ]
    .iter()
    .map(|&(s, t)| tagged(s, t))
    .collect();
    assert_eq!(ranked, expected);
}

#[test]
fn ranking_of_nothing_is_empty() {
    assert_eq!(ranked_items(&top_n(&Vec::new())), Vec::new());
}

#[test]
fn depth_one_picks_the_move_that_leaves_the_opponent_least() {
    let b = board(8, (1, 1), (2, 2), &[]);
    assert_eq!(search(&b, Team::Red, 1), (Some(cm(0, (1, 1), (1, 4), (3, 2))), 0));
    assert_eq!(search(&b, Team::Red, 0), (Some(cm(0, (1, 1), (1, 4), (3, 2))), 0));
    assert_eq!(search(&b, Team::Red, -5), (Some(cm(0, (1, 1), (1, 4), (3, 2))), 0));
}

#[test]
fn depth_two_on_the_two_piece_board() {
    let b = board(8, (1, 1), (2, 2), &[]);
    assert_eq!(search(&b, Team::Red, 2), (Some(cm(0, (1, 1), (1, 5), (3, 3))), 20));
}

#[test]
fn search_on_a_small_board_at_each_depth() {
    let b = board(6, (1, 1), (4, 4), &[(2, 3)]);
    assert_eq!(search(&b, Team::Red, 1), (Some(cm(0, (1, 1), (3, 3), (3, 4))), -6));
    assert_eq!(search(&b, Team::Blue, 1), (Some(cm(1, (4, 4), (2, 2), (1, 2))), -6));
    assert_eq!(search(&b, Team::Red, 2), (Some(cm(0, (1, 1), (3, 1), (4, 2))), 6));
    assert_eq!(search(&b, Team::Blue, 2), (Some(cm(1, (4, 4), (4, 2), (3, 1))), 6));
    assert_eq!(search(&b, Team::Red, 3), (Some(cm(0, (1, 1), (3, 1), (4, 2))), -6));
    assert_eq!(search(&b, Team::Blue, 3), (Some(cm(1, (4, 4), (4, 2), (1, 2))), -4));
    assert_eq!(search(&b, Team::Red, 4), (Some(cm(0, (1, 1), (3, 3), (3, 1))), 7));
    assert_eq!(search(&b, Team::Blue, 4), (Some(cm(1, (4, 4), (2, 2), (4, 2))), 7));
}

#[test]
fn search_finds_a_win() {
    let b = board(5, (1, 1), (3, 3), &[(3, 2)]);
    assert_eq!(search(&b, Team::Red, 3), (Some(cm(0, (1, 1), (2, 2), (2, 3))), i64::MAX));
    assert_eq!(search(&b, Team::Blue, 3), (Some(cm(1, (3, 3), (2, 2), (2, 1))), -1));
}

#[test]
fn depth_one_on_the_starting_layout() {
    let b = CompactBoard::from_board(&Board::new());
    assert_eq!(search(&b, Team::Red, 1), (Some(cm(0, (3, 3), (5, 3), (5, 5))), -6));
}

#[test]
fn enclosed_team_gets_no_move() {
    let b = board(5, (1, 1), (3, 3), &[(1, 2), (2, 1), (2, 2)]);
    for depth in 1..5 {
        assert_eq!(search(&b, Team::Red, depth), (None, LOSS));
    }
    assert_eq!(search(&b, Team::Blue, 1), (Some(cm(1, (3, 3), (2, 3), (1, 3))), -3));
}

#[test]
fn search_leaves_the_board_as_it_was() {
    let b = board(6, (1, 1), (4, 4), &[(2, 3)]);
    let before = b.pprint();
    let _ = search(&b, Team::Red, 3);
    assert_eq!(b.pprint(), before);
}

#[test]
fn search_returns_one_of_the_successors() {
    let b = board(6, (1, 1), (4, 4), &[(2, 3)]);
    for depth in 1..4 {
        for team in [Team::Red, Team::Blue] {
            let found = search(&b, team, depth).0;
            assert!(b.successors(team).contains(&found.unwrap()));
        }
    }
}

#[test]
fn depth_two_and_three_on_the_starting_layout() {
    let b = CompactBoard::from_board(&Board::new());
    assert_eq!(search(&b, Team::Red, 2), (Some(cm(0, (3, 3), (5, 3), (5, 7))), 5));
    assert_eq!(search(&b, Team::Red, 3), (Some(cm(1, (3, 6), (5, 6), (4, 5))), -6));
}
