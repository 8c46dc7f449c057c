//! The rules engine: positions and moves of `shakmaty`, carried through
//! the search as opaque values.

use vstd::prelude::*;
use shakmaty::{Chess, Color, EnPassantMode, Move, Position};
use shakmaty::zobrist::{Zobrist64, ZobristHash};

verus! {

#[verifier::external_type_specification]
#[verifier::external_body]
pub struct ExChess(Chess);

#[verifier::external_type_specification]
#[verifier::external_body]
pub struct ExMove(Move);

/// The legal moves of a position, in the order `Position::legal_moves`
/// lists them.
pub uninterp spec fn legal_moves_of(pos: Chess) -> Seq<Move>;

/// The position after a legal move, as `Position::play_unchecked` leaves it.
pub uninterp spec fn played(pos: Chess, m: Move) -> Chess;

/// Relies on `Chess::default`: the standard starting position.
#[verifier::external_body]
pub fn start_position() -> Chess {
    Chess::default()
}

/// Relies on `Position::legal_moves`: the legal moves of the position, in
/// the engine's order.
#[verifier::external_body]
pub fn legal_moves(pos: &Chess) -> (r: Vec<Move>)
    ensures
        r@ == legal_moves_of(*pos),
{
    pos.legal_moves().into_iter().collect()
}

/// Relies on `Position::play_unchecked`: plays a move taken from the
/// position's legal moves (any other move may corrupt the position).
#[verifier::external_body]
pub fn play(pos: &mut Chess, m: &Move)
    requires
        legal_moves_of(*old(pos)).contains(*m),
    ensures
        *final(pos) == played(*old(pos), *m),
{
    pos.play_unchecked(m)
}

/// The side to move is checkmated.
pub uninterp spec fn checkmate_of(pos: Chess) -> bool;

/// Relies on `Position::is_checkmate`.
#[verifier::external_body]
pub fn is_checkmate(pos: &Chess) -> (r: bool)
    ensures
        r == checkmate_of(*pos),
{
    pos.is_checkmate()
}

/// Relies on `ZobristHash::zobrist_hash`: the 64-bit Zobrist hash, counting
/// en passant only where it is legal.
#[verifier::external_body]
pub fn zobrist(pos: &Chess) -> u64 {
    let z: Zobrist64 = pos.zobrist_hash(EnPassantMode::Legal);
    z.0
}

/// Relies on `Clone` for `Chess`: a scratch copy of the position.
#[verifier::external_body]
pub fn copy_position(pos: &Chess) -> (r: Chess)
    ensures
        r == *pos,
{
    pos.clone()
}

/// Relies on the derived `Clone` for `Move`: the same move.
#[verifier::external_body]
pub fn copy_move(m: &Move) -> (r: Move)
    ensures
        r == *m,
{
    m.clone()
}

/// Relies on the derived `PartialEq` for `Move`: field by field, so equal
/// exactly when the moves are the same.
#[verifier::external_body]
pub fn same_move(a: &Move, b: &Move) -> (r: bool)
    ensures
        r == (*a == *b),
{
    a == b
}

/// True iff `m` is among `moves`.
pub fn contains_move(moves: &Vec<Move>, m: &Move) -> (r: bool)
    ensures
        r == moves@.contains(*m),
{
    let mut k: usize = 0;
    while k < moves.len()
        invariant
            k <= moves@.len(),
            forall|j: int| 0 <= j < k ==> moves@[j] != *m,
        decreases moves@.len() - k,
    {
        if same_move(&moves[k], m) {
            assert(moves@[k as int] == *m);
            return true;
        }
        k = k + 1;
    }
    false
}

/// The squares of the position holding pawns.
pub uninterp spec fn pawns_of(pos: Chess) -> u64;

/// Relies on `Board::pawns`: the squares holding pawns.
#[verifier::external_body]
pub fn pawns(pos: &Chess) -> (r: u64)
    ensures
        r == pawns_of(*pos),
{
    pos.board().pawns().0
}

/// The squares of the position holding knights.
pub uninterp spec fn knights_of(pos: Chess) -> u64;

/// Relies on `Board::knights`: the squares holding knights.
#[verifier::external_body]
pub fn knights(pos: &Chess) -> (r: u64)
    ensures
        r == knights_of(*pos),
{
    pos.board().knights().0
}

/// The squares of the position holding bishops.
pub uninterp spec fn bishops_of(pos: Chess) -> u64;

/// Relies on `Board::bishops`: the squares holding bishops.
#[verifier::external_body]
pub fn bishops(pos: &Chess) -> (r: u64)
    ensures
        r == bishops_of(*pos),
{
    pos.board().bishops().0
}

/// The squares of the position holding rooks.
pub uninterp spec fn rooks_of(pos: Chess) -> u64;

/// Relies on `Board::rooks`: the squares holding rooks.
#[verifier::external_body]
pub fn rooks(pos: &Chess) -> (r: u64)
    ensures
        r == rooks_of(*pos),
{
    pos.board().rooks().0
}

/// The squares of the position holding queens.
pub uninterp spec fn queens_of(pos: Chess) -> u64;

/// Relies on `Board::queens`: the squares holding queens.
#[verifier::external_body]
pub fn queens(pos: &Chess) -> (r: u64)
    ensures
        r == queens_of(*pos),
{
    pos.board().queens().0
}

/// The squares of the position holding white pieces.
pub uninterp spec fn white_of(pos: Chess) -> u64;

/// Relies on `Board::white`: the squares holding white pieces.
#[verifier::external_body]
pub fn white(pos: &Chess) -> (r: u64)
    ensures
        r == white_of(*pos),
{
    pos.board().white().0
}

/// The squares of the position holding black pieces.
pub uninterp spec fn black_of(pos: Chess) -> u64;

/// Relies on `Board::black`: the squares holding black pieces.
#[verifier::external_body]
pub fn black(pos: &Chess) -> (r: u64)
    ensures
        r == black_of(*pos),
{
    pos.board().black().0
}

/// The squares of the position holding any piece.
pub uninterp spec fn occupied_of(pos: Chess) -> u64;

/// Relies on `Board::occupied`: the squares holding any piece.
#[verifier::external_body]
pub fn occupied(pos: &Chess) -> (r: u64)
    ensures
        r == occupied_of(*pos),
{
    pos.board().occupied().0
}

/// White is to move in the position.
pub uninterp spec fn white_to_move_of(pos: Chess) -> bool;

/// Relies on `Position::turn`: whether White is to move.
#[verifier::external_body]
pub fn white_to_move(pos: &Chess) -> (r: bool)
    ensures
        r == white_to_move_of(*pos),
{
    match pos.turn() {
        Color::White => true,
        Color::Black => false,
    }
}

} // verus!
