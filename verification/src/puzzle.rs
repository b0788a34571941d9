//! The static puzzle description: obstacles, pieces, and the maps between
//! piece indices and board squares.

use vstd::prelude::*;
use crate::board::SquareSet;
use crate::pieces::PieceType;

verus! {

/// Sentinel in `pieces_by_loc` for a square with no piece on it.
pub const NO_PIECE: u8 = 0xff;

/// Why a board description was rejected.
#[derive(Debug, Copy, Clone, PartialEq, Eq, Structural)]
pub enum FenError {
    /// A character is not a rank separator, a digit `1`-`8`, an obstacle
    /// mark, or a piece letter.
    UnrecognizedChar,
    /// More than eight ranks were given.
    TooManyRanks,
    /// An obstacle or a piece was placed beyond the h-file.
    OffBoard,
    /// More than 27 pieces were given: the progress encoding cannot hold them.
    TooManyPieces,
    /// No square was marked as the player's piece.
    NoPlayer,
}

/// Concise, solver-friendly description of a puzzle with up to 27 pieces.
///
/// Pieces are indexed from 0 in order of ascending board square, rank-major:
/// piece A comes before piece B if it is on a smaller rank, or on the same
/// rank and a smaller file.  The puzzle is built once and never mutated.
#[derive(Debug, Clone, PartialEq, Eq)]
pub struct Puzzle {
    /// Which squares hold permanently blocking, non-capturable obstacles.
    pub obstacles: SquareSet,
    /// Maps piece index to its kind.
    pub piece_types: Vec<PieceType>,
    /// Maps piece index to its board square; strictly increasing.
    pub piece_locs: Vec<u8>,
    /// Maps board square to the index of the piece on it, or `NO_PIECE`.
    pub pieces_by_loc: Vec<u8>,
    /// The piece index the player controls at the start.
    pub player_start: u32,
}

impl Puzzle {
    /// How many pieces the puzzle has.
    pub open spec fn num_pieces(self) -> int {
        self.piece_locs@.len() as int
    }

    /// Well-formedness: at most 27 pieces, every piece on a distinct board
    /// square in strictly increasing order of index, `pieces_by_loc` the
    /// exact inverse of `piece_locs`, and a valid player index.
    pub open spec fn wf(self) -> bool {
        &&& self.piece_types@.len() == self.piece_locs@.len()
        &&& self.num_pieces() <= 27
        &&& self.pieces_by_loc@.len() == 64
        &&& forall|i: int| 0 <= i < self.num_pieces() ==> self.piece_locs@[i] < 64
        &&& forall|i: int, j: int|
            0 <= i < j < self.num_pieces() ==> self.piece_locs@[i] < self.piece_locs@[j]
        &&& forall|i: int|
            0 <= i < self.num_pieces() ==> self.pieces_by_loc@[self.piece_locs@[i] as int] == i as u8
        &&& forall|s: int|
            0 <= s < 64 ==> (self.pieces_by_loc@[s] == NO_PIECE || ((self.pieces_by_loc@[s] as int)
                < self.num_pieces() && self.piece_locs@[self.pieces_by_loc@[s] as int] == s as u8))
        &&& (self.player_start as int) < self.num_pieces()
    }
}

/// How many of the first `k` squares of a per-square board description hold
/// a piece.
pub open spec fn piece_count_upto(kinds: Seq<Option<PieceType>>, k: int) -> int
    decreases k,
{
    if k <= 0 {
        0
    } else {
        piece_count_upto(kinds, k - 1) + if kinds[k - 1] is Some {
            1int
        } else {
            0int
        }
    }
}

/// The puzzle `p` is the faithful, rank-major indexing of the board described
/// by `obstacles`, the per-square `kinds`, and the player's square.
pub open spec fn puzzle_matches(
    p: Puzzle,
    obstacles: u64,
    kinds: Seq<Option<PieceType>>,
    player_loc: int,
) -> bool {
    &&& p.wf()
    &&& p.obstacles.0 == obstacles
    &&& p.num_pieces() == piece_count_upto(kinds, 64)
    &&& forall|i: int|
        0 <= i < p.num_pieces() ==> kinds[p.piece_locs@[i] as int] == Some(p.piece_types@[i])
    &&& forall|s: int| 0 <= s < 64 ==> (kinds[s] is Some <==> p.pieces_by_loc@[s] != NO_PIECE)
    &&& 0 <= player_loc < 64
    &&& (p.player_start as int) < p.num_pieces()
    &&& p.piece_locs@[p.player_start as int] as int == player_loc
}

impl Puzzle {
    /// Builds a puzzle from an explicit board description: the obstacle
    /// squares, for each of the 64 squares the kind of piece on it (if any),
    /// and the square of the piece the player controls first.  Piece indices
    /// are assigned in ascending square order.  Fails when the player's
    /// square is empty or more than 27 pieces are given.
    pub fn from_board(obstacles: SquareSet, kinds: &Vec<Option<PieceType>>, player_loc: u8) -> (r:
        Result<Puzzle, FenError>)
        requires
            kinds@.len() == 64,
            player_loc < 64,
        ensures
            match r {
                Ok(p) => kinds@[player_loc as int] is Some && piece_count_upto(kinds@, 64) <= 27
                    && puzzle_matches(p, obstacles.0, kinds@, player_loc as int),
                Err(e) => (e == FenError::NoPlayer && kinds@[player_loc as int] is None) || (e
                    == FenError::TooManyPieces && kinds@[player_loc as int] is Some
                    && piece_count_upto(kinds@, 64) > 27),
            },
    {
        if kinds[player_loc as usize].is_none() {
            return Err(FenError::NoPlayer);
        }
        let mut piece_types: Vec<PieceType> = Vec::new();
        let mut piece_locs: Vec<u8> = Vec::new();
        let mut pieces_by_loc: Vec<u8> = Vec::new();
        let mut s: u8 = 0;
        while s < 64
            invariant
                s <= 64,
                pieces_by_loc@.len() == s as int,
                forall|t: int| 0 <= t < s as int ==> pieces_by_loc@[t] == NO_PIECE,
            decreases 64 - s as int,
        {
            pieces_by_loc.push(NO_PIECE);
            s = s + 1;
        }
        let mut player_idx: u32 = 0;
        let mut loc: u8 = 0;
        while loc < 64
            invariant
                loc <= 64,
                kinds@.len() == 64,
                kinds@[player_loc as int] is Some,
                player_loc < 64,
                piece_types@.len() == piece_locs@.len(),
                piece_locs@.len() == piece_count_upto(kinds@, loc as int),
                piece_locs@.len() <= loc as int,
                pieces_by_loc@.len() == 64,
                forall|i: int|
                    0 <= i < piece_locs@.len() ==> piece_locs@[i] < loc && kinds@[piece_locs@[i] as int]
                        == Some(piece_types@[i]),
                forall|i: int, j: int|
                    0 <= i < j < piece_locs@.len() ==> piece_locs@[i] < piece_locs@[j],
                forall|i: int|
                    0 <= i < piece_locs@.len() ==> pieces_by_loc@[piece_locs@[i] as int] == i as u8,
                forall|t: int|
                    0 <= t < 64 ==> (pieces_by_loc@[t] == NO_PIECE || ((pieces_by_loc@[t] as int)
                        < piece_locs@.len() && piece_locs@[pieces_by_loc@[t] as int] == t as u8)),
                forall|t: int|
                    0 <= t < loc as int ==> (kinds@[t] is Some <==> pieces_by_loc@[t] != NO_PIECE),
                forall|t: int| loc as int <= t < 64 ==> pieces_by_loc@[t] == NO_PIECE,
                player_loc < loc ==> ((player_idx as int) < piece_locs@.len()
                    && piece_locs@[player_idx as int] == player_loc),
            decreases 64 - loc as int,
        {
            match kinds[loc as usize] {
                Some(kind) => {
                    let idx: u8 = piece_locs.len() as u8;
                    if loc == player_loc {
                        player_idx = idx as u32;
                    }
                    piece_types.push(kind);
                    piece_locs.push(loc);
                    pieces_by_loc[loc as usize] = idx;
                },
                None => {},
            }
            loc = loc + 1;
        }
        if piece_locs.len() > 27 {
            return Err(FenError::TooManyPieces);
        }
        let p = Puzzle { obstacles, piece_types, piece_locs, pieces_by_loc, player_start: player_idx };
        Ok(p)
    }
}

/// The running state of a left-to-right scan of the board notation: the
/// obstacles and per-square piece kinds placed so far, the square of the
/// piece designated as the player's (if seen), the file and rank cursor,
/// and the first error hit (if any).
pub struct FenScan {
    pub obstacles: u64,
    pub kinds: Seq<Option<PieceType>>,
    pub player: Option<int>,
    pub x: int,
    pub y: int,
    pub err: Option<FenError>,
}

/// Whether `c` is a run of empty squares (the digits `1` through `8`).
pub open spec fn is_fen_digit(c: char) -> bool {
    '1' as u32 <= c as u32 && c as u32 <= '8' as u32
}

/// The numeric value of a digit character.
pub open spec fn fen_digit_val(c: char) -> int {
    c as u32 - '0' as u32
}

/// The piece kind a letter stands for; case carries no meaning.
pub open spec fn kind_of_char(c: char) -> Option<PieceType> {
    if c == 'P' || c == 'p' {
        Some(PieceType::Pawn)
    } else if c == 'B' || c == 'b' {
        Some(PieceType::Bishop)
    } else if c == 'R' || c == 'r' {
        Some(PieceType::Rook)
    } else if c == 'N' || c == 'n' {
        Some(PieceType::Knight)
    } else if c == 'K' || c == 'k' || c == 'Q' || c == 'q' {
        Some(PieceType::Monarch)
    } else {
        None
    }
}

/// Whether `c` marks an obstacle square.
pub open spec fn is_obstacle_char(c: char) -> bool {
    c == 'X' || c == 'x'
}

/// Whether `c` designates the placed piece as the player's piece
/// (the upper-case piece letters).
pub open spec fn is_player_char(c: char) -> bool {
    c == 'P' || c == 'B' || c == 'R' || c == 'N' || c == 'K' || c == 'Q'
}

/// The scan state before any character: an empty board, the cursor on the
/// a-file of rank 8 (the notation reads rank 8 down to rank 1).
pub open spec fn fen_scan_init() -> FenScan {
    FenScan {
        obstacles: 0,
        kinds: Seq::new(64, |i: int| None),
        player: None,
        x: 0,
        y: 7,
        err: None,
    }
}

/// One character of the scan.  After an error the state never changes.
/// A digit skips that many files (saturating once past the h-file, where
/// nothing may be placed anyway); `/` moves to the next rank down; an
/// obstacle mark or piece letter occupies the cursor square.
pub open spec fn fen_step(st: FenScan, c: char) -> FenScan {
    if st.err is Some {
        st
    } else if c == '/' {
        if st.y == 0 {
            FenScan { err: Some(FenError::TooManyRanks), ..st }
        } else {
            FenScan { y: st.y - 1, x: 0, ..st }
        }
    } else if is_fen_digit(c) {
        if st.x < 8 {
            FenScan { x: st.x + fen_digit_val(c), ..st }
        } else {
            st
        }
    } else if is_obstacle_char(c) || kind_of_char(c) is Some {
        if st.x >= 8 {
            FenScan { err: Some(FenError::OffBoard), ..st }
        } else {
            let loc = 8 * st.y + st.x;
            if is_obstacle_char(c) {
                FenScan { obstacles: st.obstacles | (1u64 << (loc as u64)), x: st.x + 1, ..st }
            } else {
                FenScan {
                    kinds: st.kinds.update(loc, kind_of_char(c)),
                    player: if is_player_char(c) {
                        Some(loc)
                    } else {
                        st.player
                    },
                    x: st.x + 1,
                    ..st
                }
            }
        }
    } else {
        FenScan { err: Some(FenError::UnrecognizedChar), ..st }
    }
}

/// The scan state after the first `i` characters of `s`.
pub open spec fn fen_scan(s: Seq<char>, i: int) -> FenScan
    decreases i,
{
    if i <= 0 {
        fen_scan_init()
    } else {
        fen_step(fen_scan(s, i - 1), s[i - 1])
    }
}

/// The scan state after the whole notation.
pub open spec fn fen_final(s: Seq<char>) -> FenScan {
    fen_scan(s, s.len() as int)
}

/// Parsing `s` fails with exactly the error `e`: the first scan error wins,
/// then a missing player designation, then the piece-count limit.
pub open spec fn fen_fails_with(s: Seq<char>, e: FenError) -> bool {
    let g = fen_final(s);
    if g.err is Some {
        g.err == Some(e)
    } else if g.player is None {
        e == FenError::NoPlayer
    } else {
        piece_count_upto(g.kinds, 64) > 27 && e == FenError::TooManyPieces
    }
}

/// A scan error never goes away.
proof fn lemma_fen_err_persists(s: Seq<char>, i: int, n: int)
    requires
        0 <= i <= n,
        fen_scan(s, i).err is Some,
    ensures
        fen_scan(s, n).err == fen_scan(s, i).err,
    decreases n,
{
    if n > i {
        lemma_fen_err_persists(s, i, n - 1);
    }
}

impl Puzzle {
    /// Parses board notation: ranks 8 down to 1 separated by `/`, each rank
    /// read from file a to file h, where a digit `1`-`8` skips that many
    /// empty squares, `X`/`x` is an obstacle, and `P B R N K Q` (either
    /// case) place a piece — `K`/`k`/`Q`/`q` both mean the monarch.  An
    /// upper-case piece letter also marks that piece as the player's; the
    /// last such letter wins.  Every other character is an error, as are a
    /// ninth rank, a piece beyond the h-file, a missing player piece, and
    /// more than 27 pieces.
    pub fn from_compound_fen(fen: &str) -> (r: Result<Puzzle, FenError>)
        ensures
            match r {
                Ok(p) => {
                    &&& fen_final(fen@).err is None
                    &&& piece_count_upto(fen_final(fen@).kinds, 64) <= 27
                    &&& fen_final(fen@).player matches Some(l) && puzzle_matches(
                        p,
                        fen_final(fen@).obstacles,
                        fen_final(fen@).kinds,
                        l,
                    )
                },
                Err(e) => fen_fails_with(fen@, e),
            },
    {
        let len = fen.unicode_len();
        let mut kinds: Vec<Option<PieceType>> = Vec::new();
        let mut s: u8 = 0;
        while s < 64
            invariant
                s <= 64,
                kinds@.len() == s as int,
                forall|t: int| 0 <= t < s as int ==> kinds@[t] is None,
            decreases 64 - s as int,
        {
            kinds.push(None);
            s = s + 1;
        }
        proof {
            assert(kinds@ =~= fen_scan_init().kinds);
        }
        let mut obstacles: u64 = 0;
        let mut player_found: bool = false;
        let mut player_loc: u8 = 0;
        let mut x: u8 = 0;
        let mut y: u8 = 7;
        let mut i: usize = 0;
        while i < len
            invariant
                i <= len,
                len as nat == fen@.len(),
                kinds@.len() == 64,
                ({
                    let g = fen_scan(fen@, i as int);
                    &&& g.err is None
                    &&& g.obstacles == obstacles
                    &&& g.kinds == kinds@
                    &&& g.x == x as int
                    &&& g.y == y as int
                    &&& 0 <= g.x <= 15
                    &&& 0 <= g.y <= 7
                    &&& if player_found {
                        g.player == Some(player_loc as int) && player_loc < 64
                            && kinds@[player_loc as int] is Some
                    } else {
                        g.player is None
                    }
                }),
            decreases len - i,
        {
            let ghost g = fen_scan(fen@, i as int);
            let c = fen.get_char(i);
            proof {
                assert(fen_scan(fen@, i as int + 1) == fen_step(g, fen@[i as int]));
            }
            if c == '/' {
                if y == 0 {
                    proof {
                        lemma_fen_err_persists(fen@, i as int + 1, fen@.len() as int);
                    }
                    return Err(FenError::TooManyRanks);
                }
                y = y - 1;
                x = 0;
            } else if '1' as u32 <= c as u32 && c as u32 <= '8' as u32 {
                if x < 8 {
                    x = x + ((c as u32 - '0' as u32) as u8);
                }
            } else {
                let k: Option<PieceType> = if c == 'P' || c == 'p' {
                    Some(PieceType::Pawn)
                } else if c == 'B' || c == 'b' {
                    Some(PieceType::Bishop)
                } else if c == 'R' || c == 'r' {
                    Some(PieceType::Rook)
                } else if c == 'N' || c == 'n' {
                    Some(PieceType::Knight)
                } else if c == 'K' || c == 'k' || c == 'Q' || c == 'q' {
                    Some(PieceType::Monarch)
                } else {
                    None
                };
                let obstacle = c == 'X' || c == 'x';
                if obstacle || k.is_some() {
                    if x >= 8 {
                        proof {
                            lemma_fen_err_persists(fen@, i as int + 1, fen@.len() as int);
                        }
                        return Err(FenError::OffBoard);
                    }
                    let loc: u8 = 8 * y + x;
                    if obstacle {
                        obstacles = obstacles | (1u64 << (loc as u64));
                    } else {
                        kinds[loc as usize] = k;
                        if c == 'P' || c == 'B' || c == 'R' || c == 'N' || c == 'K' || c == 'Q' {
                            player_found = true;
                            player_loc = loc;
                        }
                    }
                    x = x + 1;
                } else {
                    proof {
                        lemma_fen_err_persists(fen@, i as int + 1, fen@.len() as int);
                    }
                    return Err(FenError::UnrecognizedChar);
                }
            }
            i = i + 1;
        }
        if !player_found {
            return Err(FenError::NoPlayer);
        }
        match Puzzle::from_board(SquareSet(obstacles), &kinds, player_loc) {
            Ok(p) => Ok(p),
            Err(e) => Err(e),
        }
    }
}

} // verus!
