use amazons::board::{Board, Player, Pos, Team};
use amazons::compact_board::{CompactBoard, CompactMove};
use amazons::evaluate::{evaluate_by_queen_bfs_distance, DistState, UNREACHED};

fn pos(row: i8, col: i8) -> Pos {
    Pos { row, col }
}

fn board(size: i8, red: (i8, i8), blue: (i8, i8), walls: &[(i8, i8)]) -> CompactBoard {
    let mut b = CompactBoard::new(
        size,
        vec![
            Player { team: Team::Red, pos: pos(red.0, red.1) },
            Player { team: Team::Blue, pos: pos(blue.0, blue.1) },
        ],
    );
    for w in walls {
        b.wall_set(pos(w.0, w.1), true);
    }
    b
}

fn eval(b: &CompactBoard, team: Team) -> i64 {
    let mut scratch = DistState::new();
    evaluate_by_queen_bfs_distance(b, team, &mut scratch)
}

#[test]
fn unreached_is_the_largest_byte() {
    assert_eq!(UNREACHED, u8::MAX);
}

#[test]
fn small_board_with_one_arrow() {
    let b = board(5, (1, 1), (3, 3), &[(3, 2)]);
    assert_eq!(eval(&b, Team::Red), 2);
    assert_eq!(eval(&b, Team::Blue), -2);
}

#[test]
fn two_piece_board_favours_blue() {
    let b = board(8, (1, 1), (2, 2), &[]);
    assert_eq!(eval(&b, Team::Red), -6);
    assert_eq!(eval(&b, Team::Blue), 6);
}

#[test]
fn two_piece_board_after_a_move() {
    let mut b = board(8, (1, 1), (2, 2), &[]);
    b.apply_move(&CompactMove { player_ix: 0, old_pos: pos(1, 1), new_pos: pos(3, 1), new_shot: pos(1, 1) });
    assert_eq!(eval(&b, Team::Red), -3);
    assert_eq!(eval(&b, Team::Blue), 3);
}

#[test]
fn starting_layout_is_balanced() {
    let b = CompactBoard::from_board(&Board::new());
    assert_eq!(eval(&b, Team::Red), 0);
    assert_eq!(eval(&b, Team::Blue), 0);
}

#[test]
fn evaluation_negates_with_the_team() {
    let boards = [
        board(5, (1, 1), (3, 3), &[(3, 2)]),
        board(8, (1, 1), (2, 2), &[]),
        board(6, (1, 1), (4, 4), &[(2, 3)]),
        board(8, (3, 5), (6, 1), &[(4, 4), (2, 2), (5, 5)]),
        board(5, (1, 1), (3, 3), &[(1, 2), (2, 1), (2, 2)]),
    ];
    for b in boards.iter() {
        assert_eq!(eval(b, Team::Red), -eval(b, Team::Blue));
    }
}

#[test]
fn enclosed_team_is_behind_by_the_cells_the_other_reaches() {
    let b = board(5, (1, 1), (3, 3), &[(1, 2), (2, 1), (2, 2)]);
    assert_eq!(eval(&b, Team::Red), -4);
    assert_eq!(eval(&b, Team::Blue), 4);
    let c = board(5, (1, 1), (3, 3), &[(2, 3), (3, 2), (2, 2)]);
    assert_eq!(eval(&c, Team::Red), 4);
    assert_eq!(eval(&c, Team::Blue), -4);
}

#[test]
fn board_where_nobody_reaches_a_cell_is_decided() {
    let b = board(4, (1, 1), (2, 2), &[(1, 2), (2, 1)]);
    assert_eq!(eval(&b, Team::Red), i64::MAX);
    assert_eq!(eval(&b, Team::Blue), i64::MAX);
}

#[test]
fn scratch_space_can_be_reused_across_boards() {
    let mut scratch = DistState::new();
    let big = CompactBoard::from_board(&Board::new());
    let small = board(5, (1, 1), (3, 3), &[(3, 2)]);
    assert_eq!(evaluate_by_queen_bfs_distance(&big, Team::Red, &mut scratch), 0);
    assert_eq!(evaluate_by_queen_bfs_distance(&small, Team::Red, &mut scratch), 2);
    assert_eq!(evaluate_by_queen_bfs_distance(&small, Team::Blue, &mut scratch), -2);
    assert_eq!(evaluate_by_queen_bfs_distance(&big, Team::Blue, &mut scratch), 0);
    let two = board(8, (1, 1), (2, 2), &[]);
    assert_eq!(evaluate_by_queen_bfs_distance(&two, Team::Red, &mut scratch), -6);
}
