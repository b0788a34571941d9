//! Per-kind one-step movement of pieces over square sets.

use vstd::prelude::*;
use crate::board::{SquareSet, CAN_GO_LEFT, CAN_GO_RIGHT, CAN_GO_TWO_LEFT, CAN_GO_TWO_RIGHT};

verus! {

/// The closed set of piece kinds.  A `Monarch` moves like a rook and a
/// bishop combined (it stands for both the king and the queen, whose one-step
/// moves coincide in this game).
#[derive(Debug, Copy, Clone, PartialEq, Eq, Structural)]
pub enum PieceType {
    Pawn,
    Bishop,
    Rook,
    Monarch,
    Knight,
}

/// Squares one forward (non-capturing) pawn step away from a square of `from`.
pub open spec fn pawn_move_spec(from: u64) -> u64 {
    from << 8u64
}

/// Squares one diagonal (capturing) pawn step away from a square of `from`.
pub open spec fn pawn_capture_spec(from: u64) -> u64 {
    ((from & CAN_GO_LEFT) << 7u64) | ((from & CAN_GO_RIGHT) << 9u64)
}

/// Squares one diagonal step away from a square of `from`.
pub open spec fn bishop_steps_spec(from: u64) -> u64 {
    ((from & CAN_GO_LEFT) >> 9u64) | ((from & CAN_GO_RIGHT) >> 7u64) | ((from & CAN_GO_LEFT)
        << 7u64) | ((from & CAN_GO_RIGHT) << 9u64)
}

/// Squares one horizontal or vertical step away from a square of `from`.
pub open spec fn rook_steps_spec(from: u64) -> u64 {
    (from >> 8u64) | ((from & CAN_GO_LEFT) >> 1u64) | ((from & CAN_GO_RIGHT) << 1u64) | (from
        << 8u64)
}

/// Squares one king/queen step away from a square of `from`.
pub open spec fn monarch_steps_spec(from: u64) -> u64 {
    rook_steps_spec(from) | bishop_steps_spec(from)
}

/// Squares one knight jump away from a square of `from`.
pub open spec fn knight_steps_spec(from: u64) -> u64 {
    ((from & CAN_GO_LEFT) >> 17u64) | ((from & CAN_GO_RIGHT) >> 15u64) | ((from & CAN_GO_TWO_LEFT)
        >> 10u64) | ((from & CAN_GO_TWO_RIGHT) >> 6u64) | ((from & CAN_GO_TWO_LEFT) << 6u64) | ((
    from & CAN_GO_TWO_RIGHT) << 10u64) | ((from & CAN_GO_LEFT) << 15u64) | ((from & CAN_GO_RIGHT)
        << 17u64)
}

/// Squares reachable in one non-capturing slide step of a piece of kind
/// `kind` standing on some square of `from`.
pub open spec fn move_steps_spec(kind: PieceType, from: u64) -> u64 {
    match kind {
        PieceType::Pawn => pawn_move_spec(from),
        PieceType::Bishop => bishop_steps_spec(from),
        PieceType::Rook => rook_steps_spec(from),
        PieceType::Monarch => monarch_steps_spec(from),
        PieceType::Knight => knight_steps_spec(from),
    }
}

/// Squares a piece of kind `kind` standing on some square of `from` could
/// capture on in one step.  Only the pawn's capture step differs from its
/// slide step.
pub open spec fn capture_steps_spec(kind: PieceType, from: u64) -> u64 {
    match kind {
        PieceType::Pawn => pawn_capture_spec(from),
        _ => move_steps_spec(kind, from),
    }
}

impl PieceType {
    /// If a piece of this kind is on one of the given squares, which squares
    /// can it move to (without capturing) in one step?
    pub fn move_steps(self, from: SquareSet) -> (r: SquareSet)
        ensures
            r.0 == move_steps_spec(self, from.0),
    {
        let f = from.0;
        match self {
            PieceType::Pawn => SquareSet(f << 8u64),
            PieceType::Bishop => SquareSet(
                ((f & CAN_GO_LEFT) >> 9u64) | ((f & CAN_GO_RIGHT) >> 7u64) | ((f & CAN_GO_LEFT)
                    << 7u64) | ((f & CAN_GO_RIGHT) << 9u64),
            ),
            PieceType::Rook => SquareSet(
                (f >> 8u64) | ((f & CAN_GO_LEFT) >> 1u64) | ((f & CAN_GO_RIGHT) << 1u64) | (f
                    << 8u64),
            ),
            PieceType::Monarch => {
                let rook = (f >> 8u64) | ((f & CAN_GO_LEFT) >> 1u64) | ((f & CAN_GO_RIGHT)
                    << 1u64) | (f << 8u64);
                let bishop = ((f & CAN_GO_LEFT) >> 9u64) | ((f & CAN_GO_RIGHT) >> 7u64) | ((f
                    & CAN_GO_LEFT) << 7u64) | ((f & CAN_GO_RIGHT) << 9u64);
                SquareSet(rook | bishop)
            },
            PieceType::Knight => SquareSet(
                ((f & CAN_GO_LEFT) >> 17u64) | ((f & CAN_GO_RIGHT) >> 15u64) | ((f
                    & CAN_GO_TWO_LEFT) >> 10u64) | ((f & CAN_GO_TWO_RIGHT) >> 6u64) | ((f
                    & CAN_GO_TWO_LEFT) << 6u64) | ((f & CAN_GO_TWO_RIGHT) << 10u64) | ((f
                    & CAN_GO_LEFT) << 15u64) | ((f & CAN_GO_RIGHT) << 17u64),
            ),
        }
    }

    /// If a piece of this kind is on one of the given squares, which squares
    /// can it capture on in one step?
    pub fn capture_steps(self, from: SquareSet) -> (r: SquareSet)
        ensures
            r.0 == capture_steps_spec(self, from.0),
    {
        match self {
            PieceType::Pawn => {
                let f = from.0;
                SquareSet(((f & CAN_GO_LEFT) << 7u64) | ((f & CAN_GO_RIGHT) << 9u64))
            },
            _ => self.move_steps(from),
        }
    }
}

/// Every one-step move function is monotone: a larger occupied set reaches
/// a larger set of squares.
pub proof fn lemma_move_steps_monotone(kind: PieceType, a: u64, b: u64)
    requires
        a & b == a,
    ensures
        move_steps_spec(kind, a) & move_steps_spec(kind, b) == move_steps_spec(kind, a),
        capture_steps_spec(kind, a) & capture_steps_spec(kind, b) == capture_steps_spec(kind, a),
{
    assert(pawn_move_spec(a) & pawn_move_spec(b) == pawn_move_spec(a) && pawn_capture_spec(a)
        & pawn_capture_spec(b) == pawn_capture_spec(a) && bishop_steps_spec(a) & bishop_steps_spec(
        b,
    ) == bishop_steps_spec(a) && rook_steps_spec(a) & rook_steps_spec(b) == rook_steps_spec(a)
        && monarch_steps_spec(a) & monarch_steps_spec(b) == monarch_steps_spec(a)
        && knight_steps_spec(a) & knight_steps_spec(b) == knight_steps_spec(a)) by (bit_vector)
        requires
            a & b == a,
    ;
}

} // verus!
