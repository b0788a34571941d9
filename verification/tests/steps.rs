//! Exact values of the one-step movement functions on concrete boards.

use capture_chain::board::SquareSet;
use capture_chain::pieces::PieceType;

#[test]
fn pawn_moves_straight_up() {
    // A pawn on a1 (bit 0) slides to a2 (bit 8).
    let r = PieceType::Pawn.move_steps(SquareSet(1));
    assert_eq!(r, SquareSet(1 << 8));
}

#[test]
fn pawn_captures_only_diagonally() {
    // A pawn on a1 can only capture toward b2 (bit 9): the a-file blocks the
    // other diagonal.
    let r = PieceType::Pawn.capture_steps(SquareSet(1));
    assert_eq!(r, SquareSet(1 << 9));
    // A pawn on e4 (bit 28) captures on d5 (bit 35) and f5 (bit 37).
    let r = PieceType::Pawn.capture_steps(SquareSet(1 << 28));
    assert_eq!(r, SquareSet((1 << 35) | (1 << 37)));
}

#[test]
fn pawn_move_does_not_wrap_off_the_top() {
    // A pawn on a8 (bit 56) has nowhere to go.
    let r = PieceType::Pawn.move_steps(SquareSet(1 << 56));
    assert_eq!(r, SquareSet(0));
}

#[test]
fn rook_steps_from_corner() {
    // A rook on a1 steps to b1 (bit 1) and a2 (bit 8).
    let r = PieceType::Rook.move_steps(SquareSet(1));
    assert_eq!(r, SquareSet(0x102));
    assert_eq!(PieceType::Rook.capture_steps(SquareSet(1)), SquareSet(0x102));
}

#[test]
fn bishop_steps_from_corner() {
    // A bishop on a1 steps only to b2 (bit 9).
    let r = PieceType::Bishop.move_steps(SquareSet(1));
    assert_eq!(r, SquareSet(1 << 9));
}

#[test]
fn monarch_steps_are_rook_plus_bishop() {
    // A monarch on e5 (bit 36) reaches all eight neighbours.
    let r = PieceType::Monarch.move_steps(SquareSet(1 << 36));
    assert_eq!(r, SquareSet(0x0000_3828_3800_0000));
    let rook = PieceType::Rook.move_steps(SquareSet(1 << 36));
    let bishop = PieceType::Bishop.move_steps(SquareSet(1 << 36));
    assert_eq!(r, rook.union(bishop));
}

#[test]
fn knight_jumps_from_center() {
    // A knight on e5 (bit 36) reaches its eight L-shaped targets.
    let r = PieceType::Knight.move_steps(SquareSet(1 << 36));
    assert_eq!(r, SquareSet(0x0028_4400_4428_0000));
}

#[test]
fn knight_jumps_do_not_wrap_around_the_edge() {
    // A knight on a1 reaches only b3 (bit 17) and c2 (bit 10).
    let r = PieceType::Knight.move_steps(SquareSet(1));
    assert_eq!(r, SquareSet((1 << 17) | (1 << 10)));
}

#[test]
fn capture_steps_coincide_for_all_but_pawn() {
    let from = SquareSet(0x4000_0010_0000_0001);
    for kind in [PieceType::Bishop, PieceType::Rook, PieceType::Monarch, PieceType::Knight] {
        assert_eq!(kind.move_steps(from), kind.capture_steps(from));
    }
    assert_ne!(
        PieceType::Pawn.move_steps(SquareSet(1 << 28)),
        PieceType::Pawn.capture_steps(SquareSet(1 << 28))
    );
}

#[test]
fn square_set_operations() {
    let a = SquareSet(0b1100);
    let b = SquareSet(0b1010);
    assert_eq!(a.union(b), SquareSet(0b1110));
    assert_eq!(a.intersect(b), SquareSet(0b1000));
    assert_eq!(a.complement().intersect(a), SquareSet(0));
    assert_eq!(SquareSet::empty(), SquareSet(0));
    assert_eq!(SquareSet::single(3), SquareSet(0b1000));
    assert!(a.has(2));
    assert!(!a.has(0));
}
