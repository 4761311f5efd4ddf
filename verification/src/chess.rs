//! The chess rules, as the outside library gives them: the starting
//! position, the hash of a position, the side to move, the legal move
//! behind a notation, and the playing of a move. What the library returns
//! is a function of what it is given; each such result has a name here, so
//! that contracts can speak of it.

use vstd::prelude::*;
use shakmaty::zobrist::ZobristHash;
use shakmaty::Position;
use shakmaty::Setup;
use crate::model::basic::Color;
use crate::model::uci::UciMove;

verus! {

/// A position of standard chess. Nothing of it is visible here.
#[verifier::external_type_specification]
#[verifier::external_body]
pub struct ExChess(shakmaty::Chess);

/// A move of a game, as the outside library holds it.
#[verifier::external_type_specification]
#[verifier::external_body]
pub struct ExOutsideMove(shakmaty::Move);

/// Whether a position is the starting position.
pub uninterp spec fn is_start(pos: shakmaty::Chess) -> bool;

/// The hash of a position.
pub uninterp spec fn hash_of(pos: shakmaty::Chess) -> u128;

/// The side to move in a position.
pub uninterp spec fn turn_of(pos: shakmaty::Chess) -> Color;

/// The move that a notation stands for in a position: none where no legal
/// move is written so.
pub uninterp spec fn move_in(pos: shakmaty::Chess, uci: UciMove) -> Option<shakmaty::Move>;

/// The notation of a move, with the rook named for castling.
pub uninterp spec fn notation_of(m: shakmaty::Move) -> UciMove;

/// The position after a move: none where the move is not legal.
pub uninterp spec fn position_after(pos: shakmaty::Chess, m: shakmaty::Move) -> Option<
    shakmaty::Chess,
>;

/// `shakmaty::Chess::default`: the starting position.
#[verifier::external_body]
pub(crate) fn start_position() -> (pos: shakmaty::Chess)
    ensures
        is_start(pos),
{
    shakmaty::Chess::default()
}

/// `shakmaty::zobrist::ZobristHash::zobrist_hash` at 128 bits: the hash of
/// a position, computed from the position alone.
#[verifier::external_body]
pub(crate) fn position_hash(pos: &shakmaty::Chess) -> (hash: u128)
    ensures
        hash == hash_of(*pos),
{
    pos.zobrist_hash::<u128>()
}

/// `shakmaty::Setup::turn`: the side to move.
#[verifier::external_body]
pub(crate) fn side_to_move(pos: &shakmaty::Chess) -> (turn: Color)
    ensures
        turn == turn_of(*pos),
{
    match pos.turn() {
        shakmaty::Color::White => Color::White,
        shakmaty::Color::Black => Color::Black,
    }
}

/// `shakmaty::uci::Uci::to_move`: the move that the notation stands for in
/// the position, if it is legal there. The notation is handed over square
/// by square and role by role, with `shakmaty::Square::new` and the
/// conversion of `shakmaty::Role` from an integer; both panic on a number
/// out of range, which the precondition leaves out.
#[verifier::external_body]
pub(crate) fn legal_move(pos: &shakmaty::Chess, uci: &UciMove) -> (m: Option<shakmaty::Move>)
    requires
        uci.wf(),
    ensures
        m == move_in(*pos, *uci),
{
    let square = |n: u8| shakmaty::Square::new(u32::from(n));
    let piece = |n: u8| shakmaty::Role::try_from(n).unwrap();
    let outside = match *uci {
        UciMove::Normal { from, to, promotion } => {
            shakmaty::uci::Uci::Normal { from: square(from), to: square(to), promotion: promotion.map(piece) }
        },
        UciMove::Put { role, to } => shakmaty::uci::Uci::Put { role: piece(role), to: square(to) },
        UciMove::Null => shakmaty::uci::Uci::Null,
    };
    outside.to_move(pos).ok()
}

/// `shakmaty::uci::Uci::from_chess960`: the notation of a move that names
/// the rook for castling, read square by square and role by role with the
/// conversions of `shakmaty::Square` and `shakmaty::Role` to integers: a
/// square is below 64, a role from 1 to 6.
#[verifier::external_body]
pub(crate) fn move_notation(m: &shakmaty::Move) -> (uci: UciMove)
    ensures
        uci.wf(),
        uci == notation_of(*m),
{
    match shakmaty::uci::Uci::from_chess960(m) {
        shakmaty::uci::Uci::Normal { from, to, promotion } => {
            UciMove::Normal { from: u8::from(from), to: u8::from(to), promotion: promotion.map(u8::from) }
        },
        shakmaty::uci::Uci::Put { role, to } => UciMove::Put { role: u8::from(role), to: u8::from(to) },
        shakmaty::uci::Uci::Null => UciMove::Null,
    }
}

/// `shakmaty::Position::play`: the position after the move, if the move is
/// legal.
#[verifier::external_body]
pub(crate) fn play_move(pos: shakmaty::Chess, m: &shakmaty::Move) -> (next: Option<
    shakmaty::Chess,
>)
    ensures
        next == position_after(pos, *m),
{
    pos.play(m).ok()
}

/// The notation of a move in the store: the rook is named for castling.
pub fn notation(m: &shakmaty::Move) -> (uci: UciMove)
    ensures
        uci.wf(),
        uci == notation_of(*m),
{
    move_notation(m)
}

} // verus!
