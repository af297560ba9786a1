//! Which training positions are used: quiet ones, past the opening and not yet decided.

use sfbinpack::chess::color::Color;
use sfbinpack::chess::coords::Square;
use sfbinpack::chess::piece::Piece;
use sfbinpack::chess::position::Position;
use vstd::prelude::*;

verus! {

/// Positions before this ply are not used.
pub const MIN_PLY: u16 = 16;

/// Positions whose score is further than this from zero are not used.
pub const MAX_SCORE: i16 = 10_000;

/// A side of the game.
#[derive(Clone, Copy, Debug, PartialEq, Eq, Structural)]
pub enum Side {
    White,
    Black,
}

/// A kind of man.
#[derive(Clone, Copy, Debug, PartialEq, Eq, Structural)]
pub enum ManKind {
    Pawn,
    Knight,
    Bishop,
    Rook,
    Queen,
    King,
}

/// A man on the board.
#[derive(Clone, Copy, Debug, PartialEq, Eq, Structural)]
pub struct Man {
    pub kind: ManKind,
    pub side: Side,
}

/// A kind of move.
#[derive(Clone, Copy, Debug, PartialEq, Eq, Structural)]
pub enum MoveKind {
    Normal,
    Promotion,
    Castle,
    EnPassant,
}

/// A training position with the move played in it. Squares are numbered from a1, b1, up to h8.
pub struct Entry {
    pub board: [Option<Man>; 64],
    pub side_to_move: Side,
    pub move_to: u8,
    pub move_kind: MoveKind,
    pub score: i16,
    pub ply: u16,
}

/// The number of a side.
pub open spec fn side_id(side: Side) -> u8 {
    match side {
        Side::White => 0,
        Side::Black => 1,
    }
}

/// The number of a kind of man.
pub open spec fn kind_id(kind: ManKind) -> u8 {
    match kind {
        ManKind::Pawn => 0,
        ManKind::Knight => 1,
        ManKind::Bishop => 2,
        ManKind::Rook => 3,
        ManKind::Queen => 4,
        ManKind::King => 5,
    }
}

/// The number of a man: twice that of its kind, and one more for Black.
pub open spec fn man_id(man: Man) -> u8 {
    (2 * kind_id(man.kind) + side_id(man.side)) as u8
}

/// The men on the first `k` squares, each with its square and its number.
pub open spec fn men_on(board: Seq<Option<Man>>, k: int) -> Seq<(u8, u8)>
    decreases k,
{
    if k <= 0 {
        Seq::empty()
    } else {
        match board[k - 1] {
            Some(man) => men_on(board, k - 1).push(((k - 1) as u8, man_id(man))),
            None => men_on(board, k - 1),
        }
    }
}

/// Whether a side has a king on the board.
pub open spec fn has_king(board: Seq<Option<Man>>, side: Side) -> bool {
    exists|i: int| 0 <= i < board.len() && board[i] == Some(Man { kind: ManKind::King, side })
}

/// Whether the side with the number `side` is in check where `men` stand on the board, each given
/// by its square and its number.
pub uninterp spec fn side_in_check(men: Seq<(u8, u8)>, side: u8) -> bool;

/// Whether the side to move of an entry is in check.
pub open spec fn mover_in_check(entry: Entry) -> bool {
    side_in_check(men_on(entry.board@, 64), side_id(entry.side_to_move))
}

/// Whether an entry is used, given whether its side to move is in check: it is past the opening,
/// not in check, not yet decided, and its move is an ordinary one to an empty square
/// of the board.
pub open spec fn keeps(entry: Entry, in_check: bool) -> bool {
    &&& entry.ply >= MIN_PLY
    &&& !in_check
    &&& -MAX_SCORE <= entry.score <= MAX_SCORE
    &&& entry.move_kind == MoveKind::Normal
    &&& entry.move_to < 64
    &&& entry.board@[entry.move_to as int] is None
}

/// Calls `sfbinpack`'s `Position::is_checked` on an empty `Position` on which each of `men` was
/// put with `Position::place`. Claims that the answer depends on the men and the side alone, and
/// gives it a name. The king of the side must be among the men: without it the call panics.
#[verifier::external_body]
fn is_checked(men: &Vec<(u8, u8)>, side: u8) -> (checked: bool)
    requires
        side <= 1,
        forall|i: int| 0 <= i < men@.len() ==> (#[trigger] men@[i]).0 < 64 && men@[i].1 < 12,
        exists|i: int| 0 <= i < men@.len() && (#[trigger] men@[i]).1 == 10 + side,
    ensures
        checked == side_in_check(men@, side),
{
    let mut pos = Position::empty();
    for (square, man) in men {
        pos.place(Piece::from_id(*man as i32), Square::new(*square as u32));
    }
    pos.is_checked(Color::from_ordinal(side))
}

/// The number of a side.
fn side_number(side: Side) -> (id: u8)
    ensures
        id == side_id(side),
        id <= 1,
{
    match side {
        Side::White => 0,
        Side::Black => 1,
    }
}

/// The number of a man.
fn man_number(man: Man) -> (id: u8)
    ensures
        id == man_id(man),
        id < 12,
{
    let kind: u8 = match man.kind {
        ManKind::Pawn => 0,
        ManKind::Knight => 1,
        ManKind::Bishop => 2,
        ManKind::Rook => 3,
        ManKind::Queen => 4,
        ManKind::King => 5,
    };
    2 * kind + side_number(man.side)
}

/// The men on a board.
fn list_men(board: &[Option<Man>; 64]) -> (men: Vec<(u8, u8)>)
    ensures
        men@ == men_on(board@, 64),
        forall|i: int| 0 <= i < men@.len() ==> (#[trigger] men@[i]).0 < 64 && men@[i].1 < 12,
{
    let mut men: Vec<(u8, u8)> = Vec::new();
    let mut k: usize = 0;
    while k < 64
        invariant
            k <= 64,
            men@ == men_on(board@, k as int),
            forall|i: int| 0 <= i < men@.len() ==> (#[trigger] men@[i]).0 < 64 && men@[i].1 < 12,
        decreases 64 - k,
    {
        if let Some(man) = board[k] {
            men.push((k as u8, man_number(man)));
        }
        k = k + 1;
    }
    men
}

/// A man on the board is among its men.
proof fn lemma_man_is_listed(board: Seq<Option<Man>>, at: int, k: int)
    requires
        0 <= at < k <= 64,
        board[at] is Some,
    ensures
        men_on(board, k).contains((at as u8, man_id(board[at]->0))),
    decreases k,
{
    let man = (at as u8, man_id(board[at]->0));
    if at == k - 1 {
        assert(men_on(board, k)[men_on(board, k).len() - 1] == man);
    } else {
        lemma_man_is_listed(board, at, k - 1);
        let before = men_on(board, k - 1);
        let i = choose|i: int| 0 <= i < before.len() && before[i] == man;
        assert(men_on(board, k)[i] == man);
    }
}

/// Whether an entry is used, given whether its side to move is in check.
pub fn keeps_entry(entry: &Entry, in_check: bool) -> (keep: bool)
    ensures
        keep == keeps(*entry, in_check),
        keep ==> {
            &&& entry.ply >= 16
            &&& !in_check
            &&& -10_000 <= entry.score <= 10_000
            &&& entry.move_kind == MoveKind::Normal
            &&& entry.move_to < 64
            &&& entry.board@[entry.move_to as int] is None
        },
        !keep ==> {
            ||| entry.ply < 16
            ||| in_check
            ||| entry.score < -10_000
            ||| entry.score > 10_000
            ||| entry.move_kind != MoveKind::Normal
            ||| entry.move_to >= 64
            ||| entry.board@[entry.move_to as int] is Some
        },
{
    entry.ply >= MIN_PLY && !in_check && -MAX_SCORE <= entry.score && entry.score <= MAX_SCORE
        && entry.move_kind == MoveKind::Normal && entry.move_to < 64 && entry.board[entry.move_to as usize].is_none()
}

/// Whether an entry is used for training.
pub fn filter(entry: &Entry) -> (keep: bool)
    requires
        entry.ply >= MIN_PLY ==> has_king(entry.board@, entry.side_to_move),
    ensures
        keep == keeps(*entry, mover_in_check(*entry)),
        keep ==> {
            &&& entry.ply >= 16
            &&& !mover_in_check(*entry)
            &&& -10_000 <= entry.score <= 10_000
            &&& entry.move_kind == MoveKind::Normal
            &&& entry.move_to < 64
            &&& entry.board@[entry.move_to as int] is None
        },
        !keep ==> {
            ||| entry.ply < 16
            ||| mover_in_check(*entry)
            ||| entry.score < -10_000
            ||| entry.score > 10_000
            ||| entry.move_kind != MoveKind::Normal
            ||| entry.move_to >= 64
            ||| entry.board@[entry.move_to as int] is Some
        },
{
    if entry.ply < MIN_PLY {
        return false;
    }
    let men: Vec<(u8, u8)> = list_men(&entry.board);
    let side: u8 = side_number(entry.side_to_move);
    proof {
        let king = Man { kind: ManKind::King, side: entry.side_to_move };
        let at = choose|i: int| 0 <= i < entry.board@.len() && entry.board@[i] == Some(king);
        lemma_man_is_listed(entry.board@, at, 64);
        assert(man_id(king) == 10 + side);
        let i = choose|i: int| 0 <= i < men@.len() && men@[i] == (at as u8, man_id(king));
        assert(men@[i].1 == 10 + side);
    }
    let checked: bool = is_checked(&men, side);
    keeps_entry(entry, checked)
}

/// A move to a square on which a man stands is a capture, and its position is never used, whatever
/// the man and whatever else the position is like.
pub proof fn law_captures_are_never_used(entry: Entry, in_check: bool, man: Man)
    requires
        entry.move_to < 64,
        entry.board@[entry.move_to as int] == Some(man),
    ensures
        !keeps(entry, in_check),
{
}

/// A position in check is never used, nor one from the opening, nor a decided one, nor one whose
/// move is special.
pub proof fn law_only_quiet_positions_are_used(entry: Entry, in_check: bool)
    requires
        keeps(entry, in_check),
    ensures
        !in_check,
        entry.ply >= 16,
        -10_000 <= entry.score <= 10_000,
        entry.move_kind == MoveKind::Normal,
        entry.move_to < 64 && entry.board@[entry.move_to as int] is None,
{
}

/// Every position past the opening, not in check and not decided, with an ordinary move to an
/// empty square of the board, is used.
pub proof fn law_quiet_positions_are_used(entry: Entry)
    requires
        entry.ply >= 16,
        -10_000 <= entry.score <= 10_000,
        entry.move_kind == MoveKind::Normal,
        entry.move_to < 64,
        entry.board@[entry.move_to as int] is None,
    ensures
        keeps(entry, false),
{
}

/// Whether a position is used depends neither on the side to move nor on any man away from the
/// square that the move goes to, but for whether there is check.
pub proof fn law_only_the_target_square_matters(entry: Entry, other: Entry, in_check: bool)
    requires
        entry.ply == other.ply,
        entry.score == other.score,
        entry.move_kind == other.move_kind,
        entry.move_to == other.move_to,
        entry.board@[entry.move_to as int] is None == other.board@[other.move_to as int] is None,
    ensures
        keeps(entry, in_check) == keeps(other, in_check),
{
}

/// The numbers that the men and the sides go by: pawn, knight, bishop, rook, queen, king from zero
/// in steps of two, one more for Black.
pub proof fn law_man_numbers(kind: ManKind, side: Side)
    ensures
        man_id(Man { kind, side }) == (match kind {
            ManKind::Pawn => 0int,
            ManKind::Knight => 2,
            ManKind::Bishop => 4,
            ManKind::Rook => 6,
            ManKind::Queen => 8,
            ManKind::King => 10,
        }) + (if side == Side::Black {
            1int
        } else {
            0
        }),
        side_id(side) == if side == Side::Black {
            1int
        } else {
            0
        },
{
}

/// Whether there is check is asked of the board as it stands: the men handed over are those of the
/// board, every one of them on its own square, each once and in the order of the squares.
pub proof fn law_men_are_those_of_the_board(board: Seq<Option<Man>>, k: int)
    requires
        0 <= k <= 64,
        board.len() == 64,
    ensures
        forall|sq: int|
            0 <= sq < k && (#[trigger] board[sq]) is Some ==> men_on(board, k).contains(
                (sq as u8, man_id(board[sq]->0)),
            ),
        forall|i: int|
            0 <= i < men_on(board, k).len() ==> {
                let (sq, id) = #[trigger] men_on(board, k)[i];
                sq < k && board[sq as int] is Some && id == man_id(board[sq as int]->0)
            },
        forall|i: int, j: int|
            0 <= i < j < men_on(board, k).len() ==> (#[trigger] men_on(board, k)[i]).0 < (
            #[trigger] men_on(board, k)[j]).0,
    decreases k,
{
    assert forall|sq: int| 0 <= sq < k && (#[trigger] board[sq]) is Some implies men_on(
        board,
        k,
    ).contains((sq as u8, man_id(board[sq]->0))) by {
        lemma_man_is_listed(board, sq, k);
    }
    if k > 0 {
        law_men_are_those_of_the_board(board, k - 1);
        let before = men_on(board, k - 1);
        let after = men_on(board, k);
        assert forall|i: int| 0 <= i < before.len() implies #[trigger] after[i] == before[i] by {}
    }
}

/// It is the side to move that is asked about.
pub proof fn law_check_of_the_side_to_move(entry: Entry)
    ensures
        mover_in_check(entry) == side_in_check(
            men_on(entry.board@, 64),
            if entry.side_to_move == Side::Black {
                1
            } else {
                0
            },
        ),
{
}

/// A king anywhere on the board counts.
pub proof fn law_kings_are_found(board: Seq<Option<Man>>, side: Side, square: int)
    requires
        0 <= square < board.len(),
        board[square] == Some(Man { kind: ManKind::King, side }),
    ensures
        has_king(board, side),
{
}

}
