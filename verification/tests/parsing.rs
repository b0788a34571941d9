//! Building puzzles from board notation and from explicit descriptions.

use capture_chain::board::SquareSet;
use capture_chain::pieces::PieceType;
use capture_chain::puzzle::{FenError, Puzzle, NO_PIECE};

#[test]
fn parses_two_piece_board() {
    // Pawn on a8 (square 56), player's rook on a1 (square 0).
    let p = Puzzle::from_compound_fen("p7/8/8/8/8/8/8/R7").unwrap();
    assert_eq!(p.obstacles, SquareSet(0));
    assert_eq!(p.piece_locs, vec![0u8, 56u8]);
    assert_eq!(p.piece_types, vec![PieceType::Rook, PieceType::Pawn]);
    assert_eq!(p.player_start, 0);
    assert_eq!(p.pieces_by_loc[0], 0);
    assert_eq!(p.pieces_by_loc[56], 1);
    assert_eq!(p.pieces_by_loc[1], NO_PIECE);
}

#[test]
fn parses_obstacles_and_kinds() {
    // Obstacle on a4 (square 24); both king and queen letters mean monarch,
    // and n means knight, b bishop.
    let p = Puzzle::from_compound_fen("8/8/8/8/x7/8/kqbn4/R7").unwrap();
    assert_eq!(p.obstacles, SquareSet(1 << 24));
    assert_eq!(p.piece_locs, vec![0u8, 8u8, 9u8, 10u8, 11u8]);
    assert_eq!(
        p.piece_types,
        vec![
            PieceType::Rook,
            PieceType::Monarch,
            PieceType::Monarch,
            PieceType::Bishop,
            PieceType::Knight,
        ]
    );
    assert_eq!(p.player_start, 0);
}

#[test]
fn last_upper_case_letter_marks_the_player() {
    let p = Puzzle::from_compound_fen("R7/8/8/8/8/8/8/N7").unwrap();
    // The knight on a1 has index 0, the rook on a8 index 1; the knight was
    // designated later in reading order (rank 1 is read last).
    assert_eq!(p.player_start, 0);
    assert_eq!(p.piece_types[0], PieceType::Knight);
}

#[test]
fn rejects_unrecognized_character() {
    assert_eq!(Puzzle::from_compound_fen("z7/8/8/8/8/8/8/R7"), Err(FenError::UnrecognizedChar));
    // '0' and '9' are not valid skip counts.
    assert_eq!(Puzzle::from_compound_fen("9/8/8/8/8/8/8/R7"), Err(FenError::UnrecognizedChar));
    assert_eq!(Puzzle::from_compound_fen("0R7/8/8/8/8/8/8/8"), Err(FenError::UnrecognizedChar));
}

#[test]
fn rejects_ninth_rank() {
    assert_eq!(Puzzle::from_compound_fen("R7/8/8/8/8/8/8/8/8"), Err(FenError::TooManyRanks));
}

#[test]
fn rejects_piece_past_h_file() {
    assert_eq!(Puzzle::from_compound_fen("8R/8/8/8/8/8/8/8"), Err(FenError::OffBoard));
}

#[test]
fn rejects_missing_player() {
    assert_eq!(Puzzle::from_compound_fen("p7/8/8/8/8/8/8/r7"), Err(FenError::NoPlayer));
}

#[test]
fn rejects_more_than_27_pieces() {
    // Four full ranks of pawns: 32 pieces.
    assert_eq!(
        Puzzle::from_compound_fen("Pppppppp/pppppppp/pppppppp/pppppppp/8/8/8/8"),
        Err(FenError::TooManyPieces),
    );
}

#[test]
fn accepts_exactly_27_pieces() {
    // Three full ranks and three more pawns: 27 pieces.
    let p = Puzzle::from_compound_fen("Pppppppp/pppppppp/pppppppp/ppp5/8/8/8/8").unwrap();
    assert_eq!(p.piece_locs.len(), 27);
}

#[test]
fn from_board_builds_the_same_puzzle() {
    let mut kinds: Vec<Option<PieceType>> = vec![None; 64];
    kinds[0] = Some(PieceType::Rook);
    kinds[56] = Some(PieceType::Pawn);
    let direct = Puzzle::from_board(SquareSet(0), &kinds, 0).unwrap();
    let parsed = Puzzle::from_compound_fen("p7/8/8/8/8/8/8/R7").unwrap();
    assert_eq!(direct.piece_locs, parsed.piece_locs);
    assert_eq!(direct.piece_types, parsed.piece_types);
    assert_eq!(direct.player_start, parsed.player_start);
    assert_eq!(direct.obstacles, parsed.obstacles);
}

#[test]
fn from_board_rejects_empty_player_square() {
    let kinds: Vec<Option<PieceType>> = vec![None; 64];
    assert_eq!(Puzzle::from_board(SquareSet(0), &kinds, 0), Err(FenError::NoPlayer));
}
