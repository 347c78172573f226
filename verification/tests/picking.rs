use amazons::board::{Board, Move, Pos, Team};
use amazons::selection::{Selection, Token};

fn pos(row: i8, col: i8) -> Pos {
    Pos { row, col }
}

fn picked(mouse: (i8, i8), piece: Option<(i8, i8)>, target: Option<(i8, i8)>) -> Selection {
    Selection {
        mouse: pos(mouse.0, mouse.1),
        piece: piece.map(|p| pos(p.0, p.1)),
        target: target.map(|p| pos(p.0, p.1)),
    }
}

fn token(wall: bool, hover: bool, piece: Option<Team>) -> Token {
    Token { wall, hover, piece }
}

#[test]
fn new_selection_is_empty() {
    assert_eq!(Selection::new(), picked((0, 0), None, None));
}

#[test]
fn clear_keeps_the_mouse() {
    let mut s = picked((4, 4), Some((3, 3)), Some((3, 5)));
    s.clear();
    assert_eq!(s, picked((4, 4), None, None));
}

#[test]
fn click_picks_a_piece_of_the_team_to_move() {
    let b = Board::new();
    let mut s = Selection::new();
    assert_eq!(s.click(&b, Team::Red, pos(3, 3)), None);
    assert_eq!(s, picked((0, 0), Some((3, 3)), None));
}

#[test]
fn click_ignores_other_cells_and_the_other_team() {
    let b = Board::new();
    for cell in [pos(6, 6), pos(4, 4), pos(0, 0)] {
        let mut s = Selection::new();
        assert_eq!(s.click(&b, Team::Red, cell), None);
        assert_eq!(s, Selection::new());
    }
}

#[test]
fn click_picks_a_destination_that_the_piece_reaches() {
    let b = Board::new();
    let mut s = picked((0, 0), Some((3, 3)), None);
    assert_eq!(s.click(&b, Team::Red, pos(5, 3)), None);
    assert_eq!(s, picked((0, 0), Some((3, 3)), Some((5, 3))));
}

#[test]
fn click_off_the_lines_starts_over() {
    let b = Board::new();
    let mut s = picked((0, 0), Some((3, 3)), None);
    assert_eq!(s.click(&b, Team::Red, pos(4, 5)), None);
    assert_eq!(s, Selection::new());
    let mut t = picked((0, 0), Some((3, 3)), None);
    assert_eq!(t.click(&b, Team::Red, pos(3, 6)), None);
    assert_eq!(t, picked((0, 0), Some((3, 6)), None));
}

#[test]
fn click_completes_the_move() {
    let b = Board::new();
    let mut s = picked((1, 1), Some((3, 3)), Some((5, 3)));
    assert_eq!(
        s.click(&b, Team::Red, pos(5, 5)),
        Some(Move { old_pos: pos(3, 3), new_pos: pos(5, 3), new_shot: pos(5, 5) })
    );
    assert_eq!(s, picked((1, 1), None, None));
}

#[test]
fn the_arrow_may_cross_the_vacated_origin() {
    let b = Board::new();
    let mut s = picked((1, 1), Some((3, 3)), Some((5, 3)));
    assert_eq!(
        s.click(&b, Team::Red, pos(2, 3)),
        Some(Move { old_pos: pos(3, 3), new_pos: pos(5, 3), new_shot: pos(2, 3) })
    );
    let mut t = picked((1, 1), Some((3, 3)), Some((5, 3)));
    assert_eq!(
        t.click(&b, Team::Red, pos(3, 3)),
        Some(Move { old_pos: pos(3, 3), new_pos: pos(5, 3), new_shot: pos(3, 3) })
    );
}

#[test]
fn a_blocked_arrow_starts_over() {
    let b = Board::new();
    let mut s = picked((1, 1), Some((3, 3)), Some((5, 3)));
    assert_eq!(s.click(&b, Team::Red, pos(7, 3)), None);
    assert_eq!(s, picked((1, 1), None, None));
    let mut t = picked((1, 1), Some((3, 3)), Some((5, 3)));
    assert_eq!(t.click(&b, Team::Red, pos(3, 6)), None);
    assert_eq!(t, picked((1, 1), Some((3, 6)), None));
}

#[test]
fn tokens_without_a_selection_show_the_board() {
    let b = Board::new();
    let s = Selection::new();
    assert_eq!(s.token(&b, pos(0, 0)), token(true, false, None));
    assert_eq!(s.token(&b, pos(4, 4)), token(false, false, None));
    assert_eq!(s.token(&b, pos(3, 3)), token(false, false, Some(Team::Red)));
    assert_eq!(s.token(&b, pos(6, 6)), token(false, false, Some(Team::Blue)));
}

#[test]
fn tokens_with_a_piece_picked() {
    let b = Board::new();
    let s = picked((5, 3), Some((3, 3)), None);
    assert_eq!(s.token(&b, pos(3, 3)), token(false, true, Some(Team::Red)));
    assert_eq!(s.token(&b, pos(3, 6)), token(false, false, Some(Team::Red)));
    assert_eq!(s.token(&b, pos(5, 3)), token(false, true, Some(Team::Red)));
    assert_eq!(s.token(&b, pos(4, 3)), token(false, false, None));
    assert_eq!(s.token(&b, pos(0, 3)), token(true, false, None));
    let off = picked((4, 5), Some((3, 3)), None);
    assert_eq!(off.token(&b, pos(4, 5)), token(false, false, None));
}

#[test]
fn tokens_with_a_destination_picked() {
    let b = Board::new();
    let s = picked((5, 5), Some((3, 3)), Some((5, 3)));
    assert_eq!(s.token(&b, pos(5, 3)), token(false, true, Some(Team::Red)));
    assert_eq!(s.token(&b, pos(3, 3)), token(false, false, None));
    assert_eq!(s.token(&b, pos(5, 5)), token(true, true, None));
    assert_eq!(s.token(&b, pos(5, 4)), token(false, false, None));
    assert_eq!(s.token(&b, pos(6, 3)), token(false, false, Some(Team::Blue)));
    let back = picked((3, 3), Some((3, 3)), Some((5, 3)));
    assert_eq!(back.token(&b, pos(3, 3)), token(true, true, None));
    let blocked = picked((7, 3), Some((3, 3)), Some((5, 3)));
    assert_eq!(blocked.token(&b, pos(7, 3)), token(false, false, None));
}
