//! End-to-end solving: progress states, transitions, and the search.

use capture_chain::puzzle::Puzzle;
use capture_chain::solver::solve;
use capture_chain::state::PuzzleState;

// Rook on a1 (piece 0, the player), pawn on a8 (piece 1), clear file.
const ROOK_VS_PAWN: &str = "p7/8/8/8/8/8/8/R7";

#[test]
fn initial_state_packs_both_fields() {
    let p = Puzzle::from_compound_fen(ROOK_VS_PAWN).unwrap();
    let s = PuzzleState::initial(&p);
    // Two pieces, player index 0: only bit 1 remains, in-hand field 0.
    assert_eq!(s.0, 0x2);
    assert_eq!(s.current_piece_idx(), 0);
    assert_eq!(s.remaining_captures(), 0x2);
    assert!(!s.done());
}

#[test]
fn next_states_capture_the_pawn() {
    let p = Puzzle::from_compound_fen(ROOK_VS_PAWN).unwrap();
    let s = PuzzleState::initial(&p);
    let succs = s.next_states(&p);
    // One successor: piece 1 captured, piece 1 in hand, nothing remaining.
    assert_eq!(succs.len(), 1);
    assert_eq!(succs[0].0, 1 << 27);
    assert_eq!(succs[0].current_piece_idx(), 1);
    assert!(succs[0].done());
}

#[test]
fn next_states_empty_when_blocked() {
    // The a-file is cut at a4 and the b-file is a solid wall: the rook has
    // no capture at all.
    let p = Puzzle::from_compound_fen("pX6/1X6/1X6/1X6/xX6/1X6/1X6/RX6").unwrap();
    let s = PuzzleState::initial(&p);
    assert_eq!(s.next_states(&p).len(), 0);
}

#[test]
fn solves_open_rook_puzzle() {
    // An unobstructed rook on a1 takes the pawn on a8 in one capture.
    let p = Puzzle::from_compound_fen(ROOK_VS_PAWN).unwrap();
    assert_eq!(solve(&p), Some(vec![1]));
}

#[test]
fn blocked_rook_puzzle_is_unsolvable() {
    // The obstacle on a4 cuts the a-file and the walled b-file leaves no
    // alternate route: the pawn on a8 can never be taken.
    let p = Puzzle::from_compound_fen("pX6/1X6/1X6/1X6/xX6/1X6/1X6/RX6").unwrap();
    assert_eq!(solve(&p), None);
}

#[test]
fn lone_obstacle_does_not_stop_the_rook() {
    // With only the a4 obstacle on an open board, the rook detours through
    // the neighbouring files and still wins in one capture.
    let p = Puzzle::from_compound_fen("p7/8/8/8/x7/8/8/R7").unwrap();
    assert_eq!(solve(&p), Some(vec![1]));
}

#[test]
fn knight_solves_by_chained_jumps() {
    // Knight on e4, pawn on e5: one square ahead is no knight move, but the
    // knight may jump freely until the pawn is one jump away.
    let p = Puzzle::from_compound_fen("8/8/8/4p3/4N3/8/8/8").unwrap();
    assert_eq!(solve(&p), Some(vec![1]));
}

#[test]
fn solution_captures_every_piece_once() {
    // The player's rook takes the nearest enemy rook up the a-file, and each
    // captured rook carries the chain one step further up.  The order is
    // forced: a rook cannot slide past a target.
    let p = Puzzle::from_compound_fen("r7/8/r7/8/r7/8/8/R7").unwrap();
    let moves = solve(&p).unwrap();
    assert_eq!(moves, vec![1, 2, 3]);
}

#[test]
fn recapture_switches_the_piece_in_hand() {
    // The player's rook takes the pawn on a2; the pawn (now in hand) must
    // then capture diagonally onto b3.
    let p = Puzzle::from_compound_fen("8/8/8/8/8/1n6/p7/R7").unwrap();
    let moves = solve(&p).unwrap();
    assert_eq!(moves, vec![1, 2]);
}

#[test]
fn lone_player_piece_reports_no_solution() {
    // With nothing to capture, the search discovers no won state.
    let p = Puzzle::from_compound_fen("8/8/8/8/8/8/8/R7").unwrap();
    assert_eq!(solve(&p), None);
}

#[test]
fn walled_garden_puzzle_solves_completely() {
    // A ring of obstacles around a monarch and three enemy rooks: the walls
    // do not stop the chain, and every piece falls exactly once.
    let p = Puzzle::from_compound_fen("XXXXXXXX/X6X/X6X/X2rr2X/X2Qr2X/X6X/X6X/XXXXXXXX").unwrap();
    let moves = solve(&p).unwrap();
    assert_eq!(moves.len(), 3);
    let mut sorted = moves.clone();
    sorted.sort();
    assert_eq!(sorted, vec![1, 2, 3]);
}

#[test]
fn successors_never_keep_their_own_bit() {
    // Progress-state invariant: in every reachable state the in-hand piece's
    // bit is absent from the remaining mask, and `done` holds exactly when
    // the mask is zero.
    let p = Puzzle::from_compound_fen("XXXXXXXX/X6X/X6X/X2rr2X/X2Qr2X/X6X/X6X/XXXXXXXX").unwrap();
    let mut stack = vec![PuzzleState::initial(&p)];
    while let Some(s) = stack.pop() {
        assert_eq!(s.remaining_captures() & (1 << s.current_piece_idx()), 0);
        assert_eq!(s.done(), s.remaining_captures() == 0);
        for succ in s.next_states(&p) {
            stack.push(succ);
        }
    }
}

#[test]
fn next_states_one_per_capturable_square() {
    // The monarch on d4 can capture each of its three adjacent rooks: one
    // successor per capturable square, none missing, none repeated.
    let p = Puzzle::from_compound_fen("XXXXXXXX/X6X/X6X/X2rr2X/X2Qr2X/X6X/X6X/XXXXXXXX").unwrap();
    let s = PuzzleState::initial(&p);
    let mut captured: Vec<u32> = s.next_states(&p).iter().map(|t| t.current_piece_idx()).collect();
    captured.sort();
    assert_eq!(captured, vec![1, 2, 3]);
}
