//! Static scoring of positions and moves, in hundredths of a pawn.

use vstd::prelude::*;
use shakmaty::{Chess, Move};
use crate::chess;

verus! {

/// The number of set bits of `x`.
pub open spec fn popcount(x: nat) -> nat
    decreases x,
{
    if x == 0 {
        0
    } else {
        (x % 2) + popcount(x / 2)
    }
}

proof fn lemma_popcount_le(x: nat, bits: nat)
    requires
        x < vstd::arithmetic::power2::pow2(bits),
    ensures
        popcount(x) <= bits,
    decreases bits,
{
    if bits > 0 {
        vstd::arithmetic::power2::lemma_pow2_unfold(bits);
        lemma_popcount_le(x / 2, (bits - 1) as nat);
    } else {
        vstd::arithmetic::power2::lemma2_to64();
    }
}

/// The number of set bits of `n`.
pub fn count_ones(n: u64) -> (r: u32)
    ensures
        r == popcount(n as nat),
        r <= 64,
{
    let mut x: u64 = n;
    let mut c: u32 = 0;
    proof {
        vstd::arithmetic::power2::lemma2_to64();
        lemma_popcount_le(n as nat, 64);
    }
    while x != 0
        invariant
            c + popcount(x as nat) == popcount(n as nat),
            popcount(n as nat) <= 64,
        decreases x,
    {
        assert(x & 1 == x % 2) by (bit_vector);
        assert(x >> 1 == x / 2) by (bit_vector);
        c = c + (x & 1) as u32;
        x = x >> 1;
    }
    c
}

/// The squares of each kind of piece, as bitboards.
pub struct PieceBoards {
    pub pawns: u64,
    pub knights: u64,
    pub bishops: u64,
    pub rooks: u64,
    pub queens: u64,
    pub white: u64,
    pub black: u64,
    pub occupied: u64,
}

/// Material on the squares of `side`: pawn 1, knight and bishop 3, rook 5,
/// queen 9, in hundredths.
pub open spec fn side_material(b: PieceBoards, side: u64) -> int {
    100 * (popcount((b.pawns & b.occupied & side) as nat)
        + 3 * popcount((b.knights & b.occupied & side) as nat)
        + 3 * popcount((b.bishops & b.occupied & side) as nat)
        + 5 * popcount((b.rooks & b.occupied & side) as nat)
        + 9 * popcount((b.queens & b.occupied & side) as nat)) as int
}

/// White's material less Black's, from the side to move.
pub open spec fn material_spec(b: PieceBoards, white_to_move: bool) -> int {
    let d = side_material(b, b.white) - side_material(b, b.black);
    if white_to_move {
        d
    } else {
        -d
    }
}

fn side_score(b: &PieceBoards, side: u64) -> (r: i64)
    ensures
        r == side_material(*b, side),
        0 <= r <= 134400,
{
    let p = count_ones(b.pawns & b.occupied & side) as i64;
    let n = count_ones(b.knights & b.occupied & side) as i64;
    let bi = count_ones(b.bishops & b.occupied & side) as i64;
    let r = count_ones(b.rooks & b.occupied & side) as i64;
    let q = count_ones(b.queens & b.occupied & side) as i64;
    100 * (p + 3 * n + 3 * bi + 5 * r + 9 * q)
}

/// The material balance of `b` from the side to move, in hundredths.
pub fn material(b: &PieceBoards, white_to_move: bool) -> (r: i64)
    ensures
        r == material_spec(*b, white_to_move),
        -134400 <= r <= 134400,
{
    let d = side_score(b, b.white) - side_score(b, b.black);
    if white_to_move {
        d
    } else {
        -d
    }
}

/// The piece boards of a position.
pub open spec fn boards_of(pos: Chess) -> PieceBoards {
    PieceBoards {
        pawns: chess::pawns_of(pos),
        knights: chess::knights_of(pos),
        bishops: chess::bishops_of(pos),
        rooks: chess::rooks_of(pos),
        queens: chess::queens_of(pos),
        white: chess::white_of(pos),
        black: chess::black_of(pos),
        occupied: chess::occupied_of(pos),
    }
}

/// The material balance of the position from the side to move.
pub fn count_material(board: &Chess) -> (r: i64)
    ensures
        r == material_spec(boards_of(*board), chess::white_to_move_of(*board)),
        -134400 <= r <= 134400,
{
    let b = PieceBoards {
        pawns: chess::pawns(board),
        knights: chess::knights(board),
        bishops: chess::bishops(board),
        rooks: chess::rooks(board),
        queens: chess::queens(board),
        white: chess::white(board),
        black: chess::black(board),
        occupied: chess::occupied(board),
    };
    material(&b, chess::white_to_move(board))
}

/// The static value of a position, from the side to move.
pub fn evaluate(board: &Chess) -> (r: i64)
    ensures
        r == material_spec(boards_of(*board), chess::white_to_move_of(*board)),
        -134400 <= r <= 134400,
{
    count_material(board)
}

/// The heuristic score of a move: every move scores alike, so that the
/// priors of an expansion are uniform.
pub fn evaluate_move(board: &Chess, mov: &Move) -> (r: i32)
    ensures
        r == 0,
{
    0
}

} // verus!
