use amazons::board::{Board, BoardSlot, Move, Player, Pos, Team};
use amazons::compact_board::{
    queen_range, queen_range_into, CompactBoard, CompactMove, MAX_NUM_PLAYERS,
};

fn pos(row: i8, col: i8) -> Pos {
    Pos { row, col }
}

fn cm(ix: usize, o: (i8, i8), d: (i8, i8), s: (i8, i8)) -> CompactMove {
    CompactMove { player_ix: ix, old_pos: pos(o.0, o.1), new_pos: pos(d.0, d.1), new_shot: pos(s.0, s.1) }
}

fn two_piece_board() -> CompactBoard {
    CompactBoard::new(
        8,
        vec![
            Player { team: Team::Red, pos: pos(1, 1) },
            Player { team: Team::Blue, pos: pos(2, 2) },
        ],
    )
}

fn two_piece_grid() -> Board {
    let mut rows = vec![vec![BoardSlot::Empty; 8]; 8];
    for i in 0..8 {
        rows[0][i] = BoardSlot::Wall;
        rows[7][i] = BoardSlot::Wall;
        rows[i][0] = BoardSlot::Wall;
        rows[i][7] = BoardSlot::Wall;
    }
    rows[1][1] = BoardSlot::Piece(Team::Red);
    rows[2][2] = BoardSlot::Piece(Team::Blue);
    Board { board: rows }
}

fn bits(b: &CompactBoard) -> Vec<bool> {
    let n = b.size();
    let mut v = Vec::new();
    for r in 0..n {
        for c in 0..n {
            v.push(b.wall_at(pos(r, c)));
        }
    }
    v
}

fn roster(b: &CompactBoard) -> Vec<Player> {
    (0..MAX_NUM_PLAYERS).map(|i| b.roster_slot(i)).collect()
}

#[test]
fn roster_capacity_is_four() {
    assert_eq!(MAX_NUM_PLAYERS, 4);
}

#[test]
fn new_board_has_border_and_pieces() {
    let b = two_piece_board();
    assert_eq!(b.size(), 8);
    for i in 0..8 {
        assert!(b.wall_at(pos(0, i)));
        assert!(b.wall_at(pos(7, i)));
        assert!(b.wall_at(pos(i, 0)));
        assert!(b.wall_at(pos(i, 7)));
    }
    assert!(b.wall_at(pos(1, 1)));
    assert!(b.wall_at(pos(2, 2)));
    assert!(!b.wall_at(pos(1, 2)));
    assert!(!b.wall_at(pos(6, 6)));
    assert_eq!(
        b.players(),
        vec![
            Player { team: Team::Red, pos: pos(1, 1) },
            Player { team: Team::Blue, pos: pos(2, 2) },
        ]
    );
    assert_eq!(b.roster_slot(2), Player { team: Team::Red, pos: pos(0, 0) });
    assert_eq!(b.roster_slot(3), Player { team: Team::Red, pos: pos(0, 0) });
}

#[test]
fn new_board_drawing() {
    let expected = "########\n#W.....#\n#.B....#\n#......#\n#......#\n#......#\n#......#\n########\n";
    assert_eq!(two_piece_board().pprint(), expected);
}

#[test]
fn wall_set_changes_one_bit() {
    let mut b = two_piece_board();
    let before = bits(&b);
    b.wall_set(pos(4, 5), true);
    assert!(b.wall_at(pos(4, 5)));
    let mut expected = before.clone();
    expected[4 * 8 + 5] = true;
    assert_eq!(bits(&b), expected);
    b.wall_set(pos(4, 5), false);
    assert_eq!(bits(&b), before);
}

#[test]
fn drawing_marks_a_piece_whose_cell_is_not_occupied() {
    let mut b = two_piece_board();
    b.wall_set(pos(1, 1), false);
    b.wall_set(pos(2, 2), false);
    b.wall_set(pos(3, 3), true);
    let expected = "########\n#w.....#\n#.b....#\n#..#...#\n#......#\n#......#\n#......#\n########\n";
    assert_eq!(b.pprint(), expected);
}

#[test]
fn piece_on_finds_the_team() {
    let b = two_piece_board();
    assert_eq!(b.piece_on(pos(1, 1)), Some(Team::Red));
    assert_eq!(b.piece_on(pos(2, 2)), Some(Team::Blue));
    assert_eq!(b.piece_on(pos(3, 3)), None);
    assert_eq!(b.piece_on(pos(0, 0)), None);
}

#[test]
fn clone_is_independent() {
    let b = two_piece_board();
    let mut c = b.clone();
    assert_eq!(bits(&b), bits(&c));
    assert_eq!(roster(&b), roster(&c));
    c.wall_set(pos(5, 5), true);
    c.apply_move(&cm(0, (1, 1), (1, 2), (1, 3)));
    assert!(!b.wall_at(pos(5, 5)));
    assert_eq!(b.roster_slot(0).pos, pos(1, 1));
}

#[test]
fn from_board_packs_the_starting_layout() {
    let b = CompactBoard::from_board(&Board::new());
    assert_eq!(b.size(), 10);
    assert_eq!(
        b.players(),
        vec![
            Player { team: Team::Red, pos: pos(3, 3) },
            Player { team: Team::Red, pos: pos(3, 6) },
            Player { team: Team::Blue, pos: pos(6, 3) },
            Player { team: Team::Blue, pos: pos(6, 6) },
        ]
    );
    let grid = Board::new();
    for r in 0..10 {
        for c in 0..10 {
            assert_eq!(b.wall_at(pos(r, c)), grid.get(pos(r, c)) != BoardSlot::Empty);
        }
    }
    let expected = "##########\n#........#\n#........#\n#..W..W..#\n#........#\n#........#\n#..B..B..#\n#........#\n#........#\n##########\n";
    assert_eq!(b.pprint(), expected);
}

#[test]
fn from_board_agrees_with_new() {
    let a = CompactBoard::from_board(&two_piece_grid());
    let b = two_piece_board();
    assert_eq!(bits(&a), bits(&b));
    assert_eq!(roster(&a), roster(&b));
}

#[test]
fn queen_range_stops_at_walls_and_pieces() {
    let b = two_piece_board();
    let from = pos(1, 1);
    assert_eq!(
        queen_range(&b, from, from),
        vec![pos(1, 2), pos(1, 3), pos(1, 4), pos(1, 5), pos(1, 6), pos(2, 1), pos(3, 1), pos(4, 1), pos(5, 1), pos(6, 1)]
    );
}

#[test]
fn queen_range_passes_the_blank_cell() {
    let b = two_piece_board();
    let cells = queen_range(&b, pos(3, 3), pos(2, 2));
    assert!(cells.contains(&pos(2, 2)));
    assert!(!cells.contains(&pos(1, 1)));
    let blocked = queen_range(&b, pos(3, 3), pos(3, 3));
    assert!(!blocked.contains(&pos(2, 2)));
}

#[test]
fn minimal_two_piece_board_moves() {
    let b = two_piece_board();
    let moves = b.successors(Team::Red);
    assert_eq!(moves.len(), 136);
    assert!(moves.contains(&cm(0, (1, 1), (3, 1), (1, 1))));
    for m in &moves {
        assert_eq!(m.player_ix, 0);
        assert_eq!(m.old_pos, pos(1, 1));
        assert_ne!(m.new_pos, m.old_pos);
        assert_ne!(m.new_pos, pos(2, 2));
        assert_ne!(m.new_pos, pos(3, 3));
        assert_ne!(m.new_pos, pos(4, 4));
        assert_ne!(m.new_pos, pos(5, 5));
        assert_ne!(m.new_pos, pos(6, 6));
    }
    assert_eq!(moves[0], cm(0, (1, 1), (1, 2), (1, 1)));
    assert_eq!(moves[1], cm(0, (1, 1), (1, 2), (1, 3)));
    assert_eq!(moves[135], cm(0, (1, 1), (6, 1), (6, 6)));
    assert_eq!(b.successors(Team::Blue).len(), 254);
}

#[test]
fn successors_of_the_starting_layout() {
    let b = CompactBoard::from_board(&Board::new());
    assert_eq!(b.successors(Team::Red).len(), 676);
    assert_eq!(b.successors(Team::Blue).len(), 676);
}

#[test]
fn every_successor_passes_the_checks_of_a_hand_move() {
    let grid = two_piece_grid();
    let b = CompactBoard::from_board(&grid);
    for team in [Team::Red, Team::Blue] {
        for m in b.successors(team) {
            assert_eq!(grid.check(team, Move::from(m)), Ok(()));
        }
    }
}

#[test]
fn every_move_that_passes_the_checks_is_a_successor() {
    let grid = two_piece_grid();
    let b = CompactBoard::from_board(&grid);
    for team in [Team::Red, Team::Blue] {
        let listed: Vec<Move> = b.successors(team).into_iter().map(Move::from).collect();
        let origin = if team == Team::Red { pos(1, 1) } else { pos(2, 2) };
        let mut count = 0;
        for dr in 0..8 {
            for dc in 0..8 {
                for sr in 0..8 {
                    for sc in 0..8 {
                        let m = Move { old_pos: origin, new_pos: pos(dr, dc), new_shot: pos(sr, sc) };
                        if grid.check(team, m).is_ok() {
                            count += 1;
                            assert!(listed.contains(&m));
                        }
                    }
                }
            }
        }
        assert_eq!(count, listed.len());
    }
}

#[test]
fn apply_changes_bits_and_roster() {
    let mut b = two_piece_board();
    b.apply_move(&cm(0, (1, 1), (3, 1), (3, 4)));
    assert!(!b.wall_at(pos(1, 1)));
    assert!(b.wall_at(pos(3, 1)));
    assert!(b.wall_at(pos(3, 4)));
    assert_eq!(b.roster_slot(0), Player { team: Team::Red, pos: pos(3, 1) });
    assert_eq!(b.roster_slot(1), Player { team: Team::Blue, pos: pos(2, 2) });
}

#[test]
fn apply_with_the_arrow_on_the_origin() {
    let mut b = two_piece_board();
    b.apply_move(&cm(0, (1, 1), (3, 1), (1, 1)));
    let expected = "########\n##.....#\n#.B....#\n#W.....#\n#......#\n#......#\n#......#\n########\n";
    assert_eq!(b.pprint(), expected);
}

#[test]
fn un_apply_restores_every_bit_and_roster_slot() {
    for team in [Team::Red, Team::Blue] {
        let start = two_piece_board();
        let mut b = start.clone();
        for m in start.successors(team) {
            b.apply_move(&m);
            assert_ne!(bits(&b), bits(&start));
            b.un_apply_move(&m);
            assert_eq!(bits(&b), bits(&start));
            assert_eq!(roster(&b), roster(&start));
        }
    }
}

#[test]
fn enclosed_piece_has_no_successors() {
    let mut b = CompactBoard::new(
        5,
        vec![
            Player { team: Team::Red, pos: pos(1, 1) },
            Player { team: Team::Blue, pos: pos(3, 3) },
        ],
    );
    b.wall_set(pos(1, 2), true);
    b.wall_set(pos(2, 1), true);
    b.wall_set(pos(2, 2), true);
    assert_eq!(b.successors(Team::Red), Vec::<CompactMove>::new());
    assert_eq!(b.successors(Team::Blue).len(), 10);
}

#[test]
fn move_from_compact_move_drops_the_slot() {
    let m = Move::from(cm(3, (1, 1), (3, 1), (1, 1)));
    assert_eq!(m, Move { old_pos: pos(1, 1), new_pos: pos(3, 1), new_shot: pos(1, 1) });
}

#[test]
fn queen_range_into_replaces_what_the_buffer_held() {
    let b = two_piece_board();
    let mut buffer = vec![pos(9, 9); 40];
    queen_range_into(&b, pos(1, 1), pos(1, 1), &mut buffer);
    assert_eq!(buffer, queen_range(&b, pos(1, 1), pos(1, 1)));
    queen_range_into(&b, pos(6, 6), pos(6, 6), &mut buffer);
    assert_eq!(buffer, queen_range(&b, pos(6, 6), pos(6, 6)));
    assert_eq!(buffer.len(), 13);
}

#[test]
fn queen_range_with_the_blank_cell_off_the_board() {
    let b = two_piece_board();
    let inside = queen_range(&b, pos(1, 1), pos(1, 1));
    assert_eq!(queen_range(&b, pos(1, 1), pos(-3, 40)), inside);
    assert_eq!(queen_range(&b, pos(1, 1), pos(8, 8)), inside);
}
