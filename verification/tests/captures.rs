//! The reachability engine on concrete boards.

use capture_chain::board::SquareSet;
use capture_chain::engine::captures;
use capture_chain::pieces::PieceType;

#[test]
fn rook_captures_along_open_file() {
    // Rook on a1, pawn on a8, nothing in between.
    let r = captures(PieceType::Rook, SquareSet(1), SquareSet(0), SquareSet(1 << 56));
    assert_eq!(r, SquareSet(1 << 56));
}

#[test]
fn rook_blocked_by_obstacle() {
    // Rook on a1, obstacle on a4, and the whole b-file walled off: the
    // a-file is cut and no detour exists, so a8 is out of reach.
    let walls = SquareSet((1 << 24) | 0x0202_0202_0202_0202);
    let r = captures(PieceType::Rook, SquareSet(1), walls, SquareSet(1 << 56));
    assert_eq!(r, SquareSet(0));
}

#[test]
fn rook_detours_around_lone_obstacle() {
    // With only one obstacle on an otherwise open board, the rook slides
    // around it square by square and still captures on a8.
    let r = captures(PieceType::Rook, SquareSet(1), SquareSet(1 << 24), SquareSet(1 << 56));
    assert_eq!(r, SquareSet(1 << 56));
}

#[test]
fn obstacles_only_shrink_captures() {
    // Adding obstacles never lets the rook capture more.
    let walls = SquareSet((1 << 24) | 0x0202_0202_0202_0202);
    let free = captures(PieceType::Rook, SquareSet(1), SquareSet(0), SquareSet(1 << 56));
    let blocked = captures(PieceType::Rook, SquareSet(1), walls, SquareSet(1 << 56));
    assert_eq!(blocked.intersect(free), blocked);
}

#[test]
fn pawn_cannot_capture_straight_ahead() {
    // Pawn on e4, target directly ahead on e5: the straight slide is not a
    // capture, so nothing is capturable.
    let r = captures(PieceType::Pawn, SquareSet(1 << 28), SquareSet(0), SquareSet(1 << 36));
    assert_eq!(r, SquareSet(0));
}

#[test]
fn pawn_captures_both_diagonals() {
    // Pawn on e4, targets on d5 and f5: both forward diagonals fall.
    let targets = SquareSet((1 << 35) | (1 << 37));
    let r = captures(PieceType::Pawn, SquareSet(1 << 28), SquareSet(0), targets);
    assert_eq!(r, targets);
}

#[test]
fn pawn_slides_forward_then_captures() {
    // Pawn on e2 (bit 12), target on d5 (bit 35): the pawn slides e3, e4,
    // then captures diagonally onto d5.
    let r = captures(PieceType::Pawn, SquareSet(1 << 12), SquareSet(0), SquareSet(1 << 35));
    assert_eq!(r, SquareSet(1 << 35));
}

#[test]
fn knight_chains_jumps_to_reach_adjacent_square() {
    // Knight on e4, pawn one square ahead on e5: not a knight move, but a
    // chain of free jumps ends one knight move away from e5.
    let r = captures(PieceType::Knight, SquareSet(1 << 28), SquareSet(0), SquareSet(1 << 36));
    assert_eq!(r, SquareSet(1 << 36));
}

#[test]
fn coinciding_steps_capture_their_whole_step_set() {
    // For a kind whose slide and capture steps coincide, aiming at exactly
    // the one-step squares captures exactly those squares.
    for kind in [PieceType::Bishop, PieceType::Rook, PieceType::Monarch, PieceType::Knight] {
        let from = SquareSet(1 << 36);
        let step_set = kind.move_steps(from);
        let r = captures(kind, from, SquareSet(0), step_set);
        assert_eq!(r, step_set);
    }
}

#[test]
fn extra_targets_keep_unblocked_captures() {
    // Rook on a1 with targets a8 and b1: both are capturable at once, and
    // the capture of b1 from the free-file case is kept.
    let both = SquareSet((1 << 56) | (1 << 1));
    let r = captures(PieceType::Rook, SquareSet(1), SquareSet(0), both);
    assert_eq!(r, both);
    // A target is never slid through: with the b-file walled off and an
    // extra target on a4, the a4 target cuts the file and only it falls.
    let with_block = SquareSet((1 << 56) | (1 << 24));
    let walls = SquareSet(0x0202_0202_0202_0202);
    let r = captures(PieceType::Rook, SquareSet(1), walls, with_block);
    assert_eq!(r, SquareSet(1 << 24));
}
