use amazons::board::{Board, BoardSlot, Move, MoveError, Pos, Team};

fn pos(row: i8, col: i8) -> Pos {
    Pos { row, col }
}

fn mv(o: (i8, i8), d: (i8, i8), s: (i8, i8)) -> Move {
    Move { old_pos: pos(o.0, o.1), new_pos: pos(d.0, d.1), new_shot: pos(s.0, s.1) }
}

#[test]
fn starting_layout_has_walls_and_four_pieces() {
    let mut b = Board::new();
    assert_eq!(b.size(), 10);
    assert_eq!(b.board.len(), 10);
    assert_eq!(*b.at(pos(0, 0)), BoardSlot::Wall);
    assert_eq!(*b.at(pos(9, 4)), BoardSlot::Wall);
    assert_eq!(*b.at(pos(4, 0)), BoardSlot::Wall);
    assert_eq!(*b.at(pos(4, 9)), BoardSlot::Wall);
    assert_eq!(*b.at(pos(3, 3)), BoardSlot::Piece(Team::Red));
    assert_eq!(*b.at(pos(3, 6)), BoardSlot::Piece(Team::Red));
    assert_eq!(*b.at(pos(6, 3)), BoardSlot::Piece(Team::Blue));
    assert_eq!(*b.at(pos(6, 6)), BoardSlot::Piece(Team::Blue));
    assert_eq!(*b.at(pos(1, 1)), BoardSlot::Empty);
    assert_eq!(b.get(pos(5, 5)), BoardSlot::Empty);
}

#[test]
fn starting_layout_drawing() {
    let expected = "##########\n\
                    #........#\n\
                    #........#\n\
                    #..R..R..#\n\
                    #........#\n\
                    #........#\n\
                    #..B..B..#\n\
                    #........#\n\
                    #........#\n\
                    ##########\n";
    assert_eq!(Board::new().pprint(), expected);
}

#[test]
fn size_is_the_longest_side() {
    let ragged = Board {
        board: vec![vec![BoardSlot::Wall; 2], vec![BoardSlot::Wall; 5], vec![BoardSlot::Wall; 3]],
    };
    assert_eq!(ragged.size(), 5);
    let tall = Board { board: vec![vec![BoardSlot::Wall; 1]; 4] };
    assert_eq!(tall.size(), 4);
    let empty = Board { board: vec![] };
    assert_eq!(empty.size(), 0);
}

#[test]
fn at_writes_through() {
    let mut b = Board::new();
    *b.at(pos(4, 4)) = BoardSlot::Wall;
    assert_eq!(b.get(pos(4, 4)), BoardSlot::Wall);
    assert_eq!(b.get(pos(4, 5)), BoardSlot::Empty);
}

#[test]
fn clone_is_equal_and_independent() {
    let b = Board::new();
    let mut c = b.clone();
    assert_eq!(b, c);
    *c.at(pos(1, 1)) = BoardSlot::Wall;
    assert_ne!(b, c);
    assert_eq!(b, Board::new());
}

#[test]
fn open_line_needs_distinct_aligned_cells_and_a_free_way() {
    let mut b = Board::new();
    assert!(b.open_line_along(pos(3, 3), pos(3, 5)));
    assert!(b.open_line_along(pos(3, 3), pos(1, 1)));
    assert!(b.open_line_along(pos(3, 3), pos(5, 3)));
    assert!(!b.open_line_along(pos(3, 3), pos(3, 3)));
    assert!(!b.open_line_along(pos(3, 3), pos(4, 5)));
    assert!(!b.open_line_along(pos(3, 3), pos(3, 6)));
    assert!(!b.open_line_along(pos(3, 3), pos(3, 7)));
    assert!(!b.open_line_along(pos(3, 3), pos(6, 3)));
    assert!(!b.open_line_along(pos(3, 3), pos(0, 0)));
    assert_eq!(b, Board::new());
}

#[test]
fn path_open_looks_past_the_blank_cell() {
    let b = Board::new();
    assert!(!b.path_open(pos(3, 4), pos(3, 2), pos(0, 0)));
    assert!(b.path_open(pos(3, 4), pos(3, 2), pos(3, 3)));
    assert!(b.path_open(pos(3, 4), pos(3, 3), pos(3, 3)));
}

#[test]
fn apply_moves_the_piece_and_walls_the_arrow() {
    let mut b = Board::new();
    b.apply_move(mv((3, 3), (5, 3), (5, 5)));
    assert_eq!(b.get(pos(3, 3)), BoardSlot::Empty);
    assert_eq!(b.get(pos(5, 3)), BoardSlot::Piece(Team::Red));
    assert_eq!(b.get(pos(5, 5)), BoardSlot::Wall);
}

#[test]
fn un_apply_restores_the_board() {
    let m = mv((3, 3), (5, 3), (5, 5));
    let mut b = Board::new();
    b.apply_move(m);
    b.un_apply_move(m);
    assert_eq!(b, Board::new());
}

#[test]
fn un_apply_restores_after_an_arrow_shot_back_at_the_origin() {
    let m = mv((3, 3), (5, 3), (3, 3));
    let mut b = Board::new();
    b.apply_move(m);
    assert_eq!(b.get(pos(3, 3)), BoardSlot::Wall);
    assert_eq!(b.get(pos(5, 3)), BoardSlot::Piece(Team::Red));
    b.un_apply_move(m);
    assert_eq!(b, Board::new());
}

#[test]
fn swap_exchanges_two_cells() {
    let mut b = Board::new();
    b.swap_pos(pos(3, 3), pos(4, 4));
    assert_eq!(b.get(pos(3, 3)), BoardSlot::Empty);
    assert_eq!(b.get(pos(4, 4)), BoardSlot::Piece(Team::Red));
    b.swap_pos(pos(3, 3), pos(4, 4));
    assert_eq!(b, Board::new());
}

#[test]
fn holds_tells_cells_from_other_positions() {
    let b = Board::new();
    assert!(b.holds(pos(0, 0)));
    assert!(b.holds(pos(9, 9)));
    assert!(!b.holds(pos(10, 0)));
    assert!(!b.holds(pos(0, 10)));
    assert!(!b.holds(pos(-1, 3)));
    assert!(!b.holds(pos(3, -1)));
}

#[test]
fn check_accepts_a_legal_move() {
    let b = Board::new();
    assert_eq!(b.check(Team::Red, mv((3, 3), (5, 3), (5, 5))), Ok(()));
    assert_eq!(b.check(Team::Red, mv((3, 3), (5, 3), (3, 3))), Ok(()));
    assert_eq!(b.check(Team::Red, mv((3, 3), (5, 3), (1, 3))), Ok(()));
    assert_eq!(b.check(Team::Blue, mv((6, 6), (8, 8), (7, 7))), Ok(()));
}

#[test]
fn check_rejects_positions_outside_the_board() {
    let b = Board::new();
    assert_eq!(b.check(Team::Red, mv((3, 3), (3, 10), (3, 5))), Err(MoveError::OutOfBounds));
    assert_eq!(b.check(Team::Red, mv((-1, 3), (3, 4), (3, 5))), Err(MoveError::OutOfBounds));
    assert_eq!(b.check(Team::Red, mv((3, 3), (3, 4), (10, 4))), Err(MoveError::OutOfBounds));
    assert_eq!(b.check(Team::Red, mv((3, 3), (3, 4), (3, -2))), Err(MoveError::OutOfBounds));
}

#[test]
fn check_rejects_a_piece_that_stays() {
    let b = Board::new();
    assert_eq!(b.check(Team::Red, mv((3, 3), (3, 3), (3, 4))), Err(MoveError::PieceDidNotMove));
}

#[test]
fn check_rejects_an_arrow_on_the_destination() {
    let b = Board::new();
    assert_eq!(b.check(Team::Red, mv((3, 3), (3, 4), (3, 4))), Err(MoveError::ArrowOnPiece));
}

#[test]
fn check_rejects_a_move_off_the_lines() {
    let b = Board::new();
    assert_eq!(b.check(Team::Red, mv((3, 3), (4, 5), (4, 6))), Err(MoveError::MoveNotAligned));
}

#[test]
fn check_rejects_a_shot_off_the_lines() {
    let b = Board::new();
    assert_eq!(b.check(Team::Red, mv((3, 3), (3, 4), (5, 5))), Err(MoveError::ShotNotAligned));
}

#[test]
fn check_rejects_a_blocked_move() {
    let b = Board::new();
    assert_eq!(b.check(Team::Red, mv((3, 3), (3, 7), (4, 7))), Err(MoveError::MoveBlocked));
    assert_eq!(b.check(Team::Red, mv((3, 3), (3, 6), (4, 6))), Err(MoveError::MoveBlocked));
    assert_eq!(b.check(Team::Red, mv((3, 3), (3, 0), (3, 1))), Err(MoveError::MoveBlocked));
}

#[test]
fn check_rejects_a_blocked_shot() {
    let b = Board::new();
    assert_eq!(b.check(Team::Red, mv((3, 3), (3, 4), (3, 7))), Err(MoveError::ShotBlocked));
    assert_eq!(b.check(Team::Red, mv((3, 3), (3, 4), (3, 6))), Err(MoveError::ShotBlocked));
    assert_eq!(b.check(Team::Red, mv((3, 3), (3, 4), (3, 0))), Err(MoveError::ShotBlocked));
}

#[test]
fn check_rejects_an_empty_origin() {
    let b = Board::new();
    assert_eq!(b.check(Team::Red, mv((4, 4), (4, 5), (4, 6))), Err(MoveError::NoPiece));
}

#[test]
fn check_rejects_the_other_teams_piece() {
    let b = Board::new();
    assert_eq!(b.check(Team::Blue, mv((3, 3), (3, 4), (3, 5))), Err(MoveError::WrongTeam));
    assert_eq!(b.check(Team::Red, mv((6, 6), (6, 5), (6, 4))), Err(MoveError::WrongTeam));
}

#[test]
fn checked_move_applies_only_what_is_allowed() {
    let mut b = Board::new();
    assert_eq!(b.checked_move(Team::Red, mv((3, 3), (3, 7), (4, 7))), Err(MoveError::MoveBlocked));
    assert_eq!(b, Board::new());
    assert_eq!(b.checked_move(Team::Red, mv((3, 3), (5, 3), (5, 5))), Ok(()));
    let mut expected = Board::new();
    expected.apply_move(mv((3, 3), (5, 3), (5, 5)));
    assert_eq!(b, expected);
}

#[test]
fn every_error_has_its_own_message() {
    let all = [
        MoveError::OutOfBounds,
        MoveError::PieceDidNotMove,
        MoveError::ArrowOnPiece,
        MoveError::MoveNotAligned,
        MoveError::ShotNotAligned,
        MoveError::MoveBlocked,
        MoveError::ShotBlocked,
        MoveError::NoPiece,
        MoveError::WrongTeam,
    ];
    for (i, a) in all.iter().enumerate() {
        assert!(!a.message().is_empty());
        for b in all.iter().skip(i + 1) {
            assert_ne!(a.message(), b.message());
        }
    }
    assert_eq!(MoveError::MoveBlocked.message(), "the way of the piece is blocked");
}

#[test]
fn piece_count_counts_the_pieces() {
    let mut b = Board::new();
    assert_eq!(b.piece_count(), 4);
    *b.at(pos(3, 3)) = BoardSlot::Empty;
    assert_eq!(b.piece_count(), 3);
    *b.at(pos(5, 5)) = BoardSlot::Wall;
    assert_eq!(b.piece_count(), 3);
    let bare = Board { board: vec![vec![BoardSlot::Wall; 3]; 3] };
    assert_eq!(bare.piece_count(), 0);
}
