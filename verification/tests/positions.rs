use erebus_trainer::position_filter::{filter, keeps_entry, Entry, Man, ManKind, MoveKind, Side};
use sfbinpack::chess::color::Color;
use sfbinpack::chess::coords::Square;
use sfbinpack::chess::piecetype::PieceType;
use sfbinpack::chess::position::Position;

fn entry(fen: &str, to: &str) -> Entry {
    let pos = Position::from_fen(fen).unwrap();
    let mut board = [None; 64];
    for (i, square) in board.iter_mut().enumerate() {
        let piece = pos.piece_at(Square::new(i as u32));
        let side = if piece.color() == Color::White { Side::White } else { Side::Black };
        let kind = match piece.piece_type() {
            PieceType::Pawn => ManKind::Pawn,
            PieceType::Knight => ManKind::Knight,
            PieceType::Bishop => ManKind::Bishop,
            PieceType::Rook => ManKind::Rook,
            PieceType::Queen => ManKind::Queen,
            PieceType::King => ManKind::King,
            PieceType::None => continue,
        };
        *square = Some(Man { kind, side });
    }
    Entry {
        board,
        side_to_move: if pos.side_to_move() == Color::White { Side::White } else { Side::Black },
        move_to: Square::from_string(to).unwrap().index() as u8,
        move_kind: MoveKind::Normal,
        score: 0,
        ply: 16,
    }
}

const QUIET: &str = "r1bqkb1r/pppp1ppp/2n2n2/1B2p3/4P3/5N2/PPPP1PPP/RNBQK2R w KQkq - 4 4";

#[test]
fn quiet_positions_are_used() {
    assert!(filter(&entry(QUIET, "d3")));
}

#[test]
fn captures_and_special_moves_are_not_used() {
    assert!(!filter(&entry(QUIET, "c6")));
    for kind in [MoveKind::Promotion, MoveKind::Castle, MoveKind::EnPassant] {
        let mut e = entry(QUIET, "d3");
        e.move_kind = kind;
        assert!(!filter(&e));
    }
}

#[test]
fn openings_are_not_used() {
    let mut e = entry(QUIET, "d3");
    e.ply = 15;
    assert!(!filter(&e));
    e.board = [None; 64];
    assert!(!filter(&e));
}

#[test]
fn decided_positions_are_not_used() {
    for (score, keep) in
        [(10_000, true), (-10_000, true), (10_001, false), (-10_001, false), (i16::MIN, false)]
    {
        let mut e = entry(QUIET, "d3");
        e.score = score;
        assert_eq!(filter(&e), keep);
    }
}

#[test]
fn positions_in_check_are_not_used() {
    for (fen, checked) in [
        ("4k3/8/8/8/8/8/4r3/4K3 w - - 0 20", true),
        ("4k3/8/8/8/8/8/3r4/4K3 w - - 0 20", false),
        ("4k3/8/8/8/8/3r4/8/4K3 w - - 0 20", false),
        ("4k3/4r3/8/8/4P3/8/8/4K3 w - - 0 20", false),
        ("4k3/4r3/8/8/8/8/8/4K3 w - - 0 20", true),
        ("4k3/4R3/8/8/8/8/8/4K3 b - - 0 20", true),
        ("4k3/4R3/8/8/8/8/8/4K3 w - - 0 20", false),
        ("4k3/8/8/8/8/3n4/8/4K3 w - - 0 20", true),
        ("4k3/8/8/8/8/8/3p4/4K3 w - - 0 20", true),
        ("4k3/8/8/8/8/8/4p3/4K3 w - - 0 20", false),
        ("4k3/8/8/8/7b/8/8/4K3 w - - 0 20", true),
    ] {
        let e = entry(fen, "a4");
        assert_eq!(filter(&e), !checked, "{fen}");
        assert_eq!(keeps_entry(&e, checked), !checked);
        let pos = Position::from_fen(fen).unwrap();
        assert_eq!(pos.is_checked(pos.side_to_move()), checked);
    }
}

#[test]
fn the_decision_takes_the_check_as_given() {
    let e = entry(QUIET, "d3");
    assert!(keeps_entry(&e, false));
    assert!(!keeps_entry(&e, true));
}

#[test]
fn moves_that_end_off_the_board_are_not_looked_up() {
    let mut e = entry(QUIET, "d3");
    e.move_to = 64;
    e.ply = 3;
    assert!(!filter(&e));
    e.ply = 30;
    e.score = 20_000;
    assert!(!filter(&e));
    e.score = 0;
    assert!(!filter(&e));
    let mut checked = entry("4k3/8/8/8/8/8/4r3/4K3 w - - 0 20", "a4");
    checked.move_to = 64;
    assert!(!filter(&checked));
}
