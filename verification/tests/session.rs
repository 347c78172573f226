use amazons::board::{Board, BoardSlot, Move, MoveError, Pos, Team};
use amazons::compact_board::CompactBoard;
use amazons::game::{Amazons, HISTORY_CAP, SEARCH_DEPTH};

fn pos(row: i8, col: i8) -> Pos {
    Pos { row, col }
}

fn mv(o: (i8, i8), d: (i8, i8), s: (i8, i8)) -> Move {
    Move { old_pos: pos(o.0, o.1), new_pos: pos(d.0, d.1), new_shot: pos(s.0, s.1) }
}

fn first_move(game: &Amazons) -> Option<Move> {
    let packed = CompactBoard::from_board(game.board());
    packed.successors(game.turn()).into_iter().next().map(Move::from)
}

#[test]
fn limits_of_the_session() {
    assert_eq!(HISTORY_CAP, 100);
    assert_eq!(SEARCH_DEPTH, 3);
}

#[test]
fn new_session_starts_with_red_and_the_starting_layout() {
    let game = Amazons::new();
    assert_eq!(game.turn(), Team::Red);
    assert_eq!(*game.board(), Board::new());
    assert_eq!(game.history_len(), 0);
}

#[test]
fn new_game_resets_and_records_a_snapshot() {
    let mut game = Amazons::new();
    assert_eq!(game.player_move(mv((3, 3), (5, 3), (5, 5))), Ok(()));
    game.new_game();
    assert_eq!(game.turn(), Team::Red);
    assert_eq!(*game.board(), Board::new());
    assert_eq!(game.history_len(), 2);
}

#[test]
fn player_move_changes_board_turn_and_history() {
    let mut game = Amazons::new();
    let m = mv((3, 3), (5, 3), (5, 5));
    assert_eq!(game.player_move(m), Ok(()));
    let mut expected = Board::new();
    expected.apply_move(m);
    assert_eq!(*game.board(), expected);
    assert_eq!(game.board().get(pos(5, 3)), BoardSlot::Piece(Team::Red));
    assert_eq!(game.turn(), Team::Blue);
    assert_eq!(game.history_len(), 1);
}

#[test]
fn rejected_move_changes_nothing() {
    let mut game = Amazons::new();
    let cases = [
        (mv((3, 3), (3, 10), (3, 5)), MoveError::OutOfBounds),
        (mv((3, 3), (3, 3), (3, 4)), MoveError::PieceDidNotMove),
        (mv((3, 3), (3, 4), (3, 4)), MoveError::ArrowOnPiece),
        (mv((3, 3), (4, 5), (4, 6)), MoveError::MoveNotAligned),
        (mv((3, 3), (3, 4), (5, 5)), MoveError::ShotNotAligned),
        (mv((3, 3), (3, 7), (4, 7)), MoveError::MoveBlocked),
        (mv((3, 3), (3, 4), (3, 7)), MoveError::ShotBlocked),
        (mv((4, 4), (4, 5), (4, 6)), MoveError::NoPiece),
        (mv((6, 6), (6, 5), (6, 4)), MoveError::WrongTeam),
    ];
    for (m, e) in cases.iter() {
        assert_eq!(game.player_move(*m), Err(*e));
        assert_eq!(*game.board(), Board::new());
        assert_eq!(game.turn(), Team::Red);
        assert_eq!(game.history_len(), 0);
    }
}

#[test]
fn moving_out_of_turn_is_rejected() {
    let mut game = Amazons::new();
    assert_eq!(game.player_move(mv((3, 3), (5, 3), (5, 5))), Ok(()));
    assert_eq!(game.player_move(mv((3, 6), (4, 6), (4, 7))), Err(MoveError::WrongTeam));
    assert_eq!(game.player_move(mv((6, 6), (5, 6), (4, 6))), Ok(()));
    assert_eq!(game.turn(), Team::Red);
}

#[test]
fn undo_round_trip() {
    let mut game = Amazons::new();
    game.new_game();
    let before = game.board().clone();
    assert_eq!(game.player_move(mv((3, 3), (5, 3), (3, 3))), Ok(()));
    assert_ne!(*game.board(), before);
    game.undo_move();
    assert_eq!(*game.board(), before);
    assert_eq!(game.history_len(), 1);
    game.undo_move();
    assert_eq!(*game.board(), Board::new());
    assert_eq!(game.history_len(), 0);
}

#[test]
fn undo_leaves_the_turn_alone() {
    let mut game = Amazons::new();
    assert_eq!(game.player_move(mv((3, 3), (5, 3), (5, 5))), Ok(()));
    assert_eq!(game.turn(), Team::Blue);
    game.undo_move();
    assert_eq!(game.turn(), Team::Blue);
}

#[test]
fn undo_with_an_empty_history_does_nothing() {
    let mut game = Amazons::new();
    game.undo_move();
    assert_eq!(*game.board(), Board::new());
    assert_eq!(game.turn(), Team::Red);
    assert_eq!(game.history_len(), 0);
}

#[test]
fn undo_of_a_snapshot_restores_the_starting_layout() {
    let mut game = Amazons::new();
    assert_eq!(game.player_move(mv((3, 3), (5, 3), (5, 5))), Ok(()));
    game.new_game();
    assert_eq!(game.player_move(mv((3, 6), (4, 6), (4, 7))), Ok(()));
    game.undo_move();
    game.undo_move();
    assert_eq!(*game.board(), Board::new());
    assert_eq!(game.history_len(), 1);
}

#[test]
fn history_is_bounded() {
    let mut game = Amazons::new();
    let mut recorded = 0;
    while recorded < 150 {
        match first_move(&game) {
            Some(m) => {
                assert_eq!(game.player_move(m), Ok(()));
            }
            None => game.new_game(),
        }
        recorded += 1;
        assert!(game.history_len() <= 100);
        assert_eq!(game.history_len(), recorded.min(100));
    }
    assert_eq!(game.history_len(), 100);
    for left in (0..100).rev() {
        game.undo_move();
        assert_eq!(game.history_len(), left);
    }
    let board = game.board().clone();
    let turn = game.turn();
    game.undo_move();
    assert_eq!(game.history_len(), 0);
    assert_eq!(*game.board(), board);
    assert_eq!(game.turn(), turn);
}

#[test]
fn computer_moves_after_some_play() {
    let mut game = Amazons::new();
    for _ in 0..30 {
        let m = first_move(&game).unwrap();
        assert_eq!(game.player_move(m), Ok(()));
    }
    let turn = game.turn();
    let before = game.board().clone();
    let legal: Vec<Move> = CompactBoard::from_board(&before).successors(turn).into_iter().map(Move::from).collect();
    let found = game.ai_move();
    let m = found.unwrap();
    assert!(legal.contains(&m));
    assert_eq!(before.check(turn, m), Ok(()));
    let mut expected = before.clone();
    expected.apply_move(m);
    assert_eq!(*game.board(), expected);
    assert_eq!(game.turn(), turn.other());
    assert_eq!(game.history_len(), 31);
    game.undo_move();
    assert_eq!(*game.board(), before);
}

#[test]
fn computer_gives_up_when_it_cannot_move() {
    let mut game = Amazons::new();
    let mut played = 0;
    while let Some(m) = first_move(&game) {
        assert_eq!(game.player_move(m), Ok(()));
        played += 1;
    }
    assert_eq!(played, 44);
    assert_eq!(game.turn(), Team::Red);
    let before = game.board().clone();
    assert_eq!(game.ai_move(), None);
    assert_eq!(*game.board(), before);
    assert_eq!(game.turn(), Team::Red);
    assert_eq!(game.history_len(), 44);
}

#[test]
fn computer_opens_the_game() {
    let mut game = Amazons::new();
    let m = mv((3, 6), (5, 6), (4, 5));
    assert_eq!(game.ai_move(), Some(m));
    let mut expected = Board::new();
    expected.apply_move(m);
    assert_eq!(*game.board(), expected);
    assert_eq!(game.turn(), Team::Blue);
    assert_eq!(game.history_len(), 1);
}

#[test]
fn undo_past_a_new_game_takes_older_moves_back_on_the_fresh_board() {
    let mut game = Amazons::new();
    assert_eq!(game.player_move(mv((3, 6), (2, 6), (2, 7))), Ok(()));
    assert_eq!(game.player_move(mv((6, 6), (7, 6), (7, 7))), Ok(()));
    assert_eq!(game.player_move(mv((3, 3), (3, 4), (3, 6))), Ok(()));
    assert_eq!(game.player_move(mv((6, 3), (6, 4), (6, 6))), Ok(()));
    game.new_game();
    assert_eq!(game.history_len(), 5);
    game.undo_move();
    assert_eq!(*game.board(), Board::new());
    assert_eq!(game.board().piece_count(), 4);
    game.undo_move();
    assert_eq!(game.board().piece_count(), 2);
    assert_eq!(game.board().get(pos(6, 6)), BoardSlot::Empty);
    assert_eq!(game.board().get(pos(6, 3)), BoardSlot::Empty);
    game.undo_move();
    assert_eq!(game.board().piece_count(), 0);
    assert_eq!(game.history_len(), 2);
}

#[test]
fn computer_has_no_move_on_a_board_swept_of_pieces() {
    let mut game = Amazons::new();
    assert_eq!(game.player_move(mv((3, 6), (2, 6), (2, 7))), Ok(()));
    assert_eq!(game.player_move(mv((6, 6), (7, 6), (7, 7))), Ok(()));
    assert_eq!(game.player_move(mv((3, 3), (3, 4), (3, 6))), Ok(()));
    assert_eq!(game.player_move(mv((6, 3), (6, 4), (6, 6))), Ok(()));
    game.new_game();
    game.undo_move();
    game.undo_move();
    game.undo_move();
    assert_eq!(game.board().piece_count(), 0);
    let before = game.board().clone();
    let turn = game.turn();
    assert_eq!(game.ai_move(), None);
    assert_eq!(*game.board(), before);
    assert_eq!(game.turn(), turn);
    assert_eq!(game.history_len(), 2);
    assert_eq!(game.player_move(mv((3, 3), (3, 4), (3, 5))), Err(MoveError::NoPiece));
}
